//! IRONVEIN: peer-to-peer deterministic lockstep, verified.

pub mod alerts;
pub mod args;
pub mod beacon;
pub mod chat;
pub mod client_laws;
pub mod command;
pub mod console;
pub mod console_laws;
pub mod crypto;
pub mod effects;
pub mod frame;
pub mod ground;
pub mod joiner;
pub mod json;
pub mod json_laws;
pub mod keeper;
pub mod kinds;
pub mod laws;
pub mod links;
pub mod lobby;
pub mod matchmaker;
pub mod media_laws;
pub mod meeting_laws;
pub mod menu;
pub mod noise;
pub mod nostr;
pub mod nostr_laws;
pub mod number;
pub mod parting_laws;
pub mod png;
pub mod prefs;
pub mod protocol;
pub mod relay_laws;
pub mod rendezvous;
pub mod report;
pub mod saves;
pub mod scene;
pub mod sectors;
pub mod seeds;
pub mod ser;
pub mod session;
pub mod session_laws;
pub mod sidebar;
pub mod signal;
pub mod signaling;
pub mod soundtrack;
pub mod state;
pub mod tables;
pub mod text;
pub mod transport;
pub mod view_laws;
pub mod wav;
pub mod webrtc;
