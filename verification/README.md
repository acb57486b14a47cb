# IRONVEIN

A peer-to-peer persistent-world RTS without servers: every peer runs the same deterministic
simulation in lockstep, every message is signed, and any peer's save can re-host the world. This
is its verified core: the protocol, the session, discovery over relays, and the decisions of the
client, with their contracts proved by Verus.

## Layout

`src/` is the library.

- Bytes and text: `ser`, `text`, `number`, `json`, `png`, `wav`.
- Keys and messages: `crypto`, `command`, `protocol`.
- Lockstep: `state` is the session as a mathematical value and each of its steps; `session` is
  the executable session; `joiner` the way in; `tables` its maps; `transport` and `links` the seam
  to the network; `laws` what holds of every session.
- Discovery: `nostr`, `beacon`, `signal`, `signaling`, `lobby`, `webrtc`, `matchmaker`,
  `rendezvous`.
- The client: `args`, `menu`, `saves`, `prefs`, `console`, `chat`, `alerts`, `report`, `sectors`,
  `scene`, `ground`, `sidebar`, `effects`, `kinds`, `frame`.
- Sound: `soundtrack`, `noise`. The keeper: `keeper`. Maps: `seeds`.

`json_laws` and `nostr_laws` hold the round trips of their formats. Each module ends with the
laws about it.

`tests/` runs the library: formats and identities, whole sessions on an in-memory mesh, relays,
and the client.

`app/` is the program around it: sockets and files, the browser's calls, drawing, sound synthesis.
It converts between the simulation's types and the library's in `app/sim.rs`, and needs the
simulation crate `ironvein_sim`.

The orders that settlers give, and how they are numbered on the wire, are this library's own:
`command` defines them with their tags, and `ser` the layout of integers, texts and lists. Peers
speak one protocol as long as they share these two modules.

## Model

A type that callers see has a view: `Session` is a `State`, `Lobby` a `LobbyV`, a text its
characters, a key its bytes. A function's contract says what the view is afterwards, as a value of
a specification function; the laws are proved of those functions.

What the curve, hash, cipher and randomness crates compute is trusted: `crypto` names their
results and states the few facts about them that the proofs need. A handful of functions of the
standard library are trusted in the same way.
