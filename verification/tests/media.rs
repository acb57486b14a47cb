//! Pictures, sound files, random numbers and the sound layer.

use ironvein::noise::{Lcg, Rng};
use ironvein::png::{adler32, crc32, encode_png, flip_rows, raw_lines, zlib};
use ironvein::soundtrack::{
    is_music, section_of, semitones, source_path, stem_of, total_beats, wav_of, Level, Mixer, SoundOp, SECTIONS, STEMS,
};
use ironvein::wav::{stem_file, stem_path, wav_file};

#[test]
fn checksums_have_their_known_values() {
    assert_eq!(crc32(b"123456789"), 0xCBF43926);
    assert_eq!(crc32(b""), 0);
    assert_eq!(adler32(b"Wikipedia"), 0x11E60398);
    assert_eq!(adler32(b""), 1);
}

#[test]
fn a_picture_becomes_a_file() {
    let rgba: Vec<u8> = (0..2 * 3 * 4).collect();
    let f = encode_png(2, 3, &rgba);
    assert_eq!(&f[..8], &[0x89, b'P', b'N', b'G', 0x0D, 0x0A, 0x1A, 0x0A]);
    assert_eq!(&f[8..16], &[0, 0, 0, 13, b'I', b'H', b'D', b'R']);
    assert_eq!(&f[16..29], &[0, 0, 0, 2, 0, 0, 0, 3, 8, 6, 0, 0, 0]);
    assert_eq!(&f[29..33], &crc32(&f[12..29]).to_be_bytes());
    // one stored block with three lines of a filter byte and eight bytes
    let lines = raw_lines(8, 3, &rgba);
    assert_eq!(lines.len(), 27);
    assert_eq!(&lines[9..12], &[0, 8, 9]);
    let idat = &f[41..41 + 2 + 5 + 27 + 4];
    assert_eq!(&f[37..41], b"IDAT");
    assert_eq!(&idat[..7], &[0x78, 0x01, 1, 27, 0, 228, 255]);
    assert_eq!(&idat[7..34], lines.as_slice());
    assert_eq!(&idat[34..], &adler32(&lines).to_be_bytes());
    assert_eq!(&f[f.len() - 12..], &[0, 0, 0, 0, b'I', b'E', b'N', b'D', 0xAE, 0x42, 0x60, 0x82]);
    // a picture without pixels has no block
    assert_eq!(zlib(&[]), vec![0x78, 0x01, 0, 0, 0, 1]);
}

#[test]
fn long_streams_are_cut_into_blocks() {
    let raw = vec![7u8; 65_536];
    let z = zlib(&raw);
    assert_eq!(z.len(), 2 + 5 + 65_535 + 5 + 1 + 4);
    assert_eq!(&z[2..7], &[0, 255, 255, 0, 0]);
    assert_eq!(&z[7 + 65_535..7 + 65_535 + 6], &[1, 1, 0, 254, 255, 7]);
}

#[test]
fn rows_are_flipped() {
    let p: Vec<u8> = (0..16).collect();
    let f = flip_rows(2, 2, &p);
    assert_eq!(f, vec![8, 9, 10, 11, 12, 13, 14, 15, 0, 1, 2, 3, 4, 5, 6, 7]);
    assert_eq!(flip_rows(2, 2, &f), p);
    assert!(flip_rows(0, 5, &[]).is_empty());
}

#[test]
fn samples_become_a_file() {
    let f = wav_file(&[1, -1, 300, i16::MIN], 44_100);
    assert_eq!(f.len(), 44 + 8);
    assert_eq!(&f[..4], b"RIFF");
    assert_eq!(&f[4..8], &44u32.to_le_bytes());
    assert_eq!(&f[8..16], b"WAVEfmt ");
    assert_eq!(&f[16..24], &[16, 0, 0, 0, 1, 0, 2, 0]);
    assert_eq!(&f[24..28], &44_100u32.to_le_bytes());
    assert_eq!(&f[28..32], &176_400u32.to_le_bytes());
    assert_eq!(&f[32..36], &[4, 0, 16, 0]);
    assert_eq!(&f[36..40], b"data");
    assert_eq!(&f[40..44], &8u32.to_le_bytes());
    assert_eq!(&f[44..], &[1, 0, 255, 255, 44, 1, 0, 128]);
}

#[test]
fn stems_are_named() {
    assert_eq!(stem_file("st_snare"), "stem_snare_hats");
    assert_eq!(stem_file("other"), "other");
    assert_eq!(stem_path("out//", "st_kick"), "out/stem_kick.wav");
    assert_eq!(stem_path("", "x"), "/x.wav");
}

#[test]
fn generators_repeat_themselves() {
    let mut a = Rng::new(42);
    let mut b = Rng::new(42);
    let xs: Vec<u64> = (0..5).map(|_| a.next()).collect();
    assert_eq!(xs, (0..5).map(|_| b.next()).collect::<Vec<u64>>());
    assert_ne!(xs[0], xs[1]);
    assert!(a.next53() < 1 << 53);
    let mut l = Lcg { s: 0 };
    assert_eq!(l.next24(), 1013904223 >> 8);
    assert_eq!(l.s, 1013904223);
    let mut m = Lcg { s: 1 };
    assert_eq!(m.next24(), (1664525u32 + 1013904223) >> 8);
}

#[test]
fn the_music_starts_in_lockstep() {
    let mut m = Mixer::new();
    assert_eq!(m.stem_level(), None);
    let ops = m.prepare_music(false);
    assert_eq!(ops.len(), 2 * STEMS);
    assert!(matches!(ops[0], SoundOp::Synth { name: "st_pads" }));
    assert!(matches!(ops[13], SoundOp::Start { name: "st_psycho", level: Level::Silent }));
    assert!(m.adaptive_music());
    assert!(matches!(Mixer::new().prepare_music(true)[1], SoundOp::Load { name: "st_bass", file: "stem_bass.ogg" }));
    assert_eq!(m.stem_level(), Some(Level::Music));
    m.set_nether(true);
    assert_eq!(m.stem_level(), Some(Level::Silent));
    assert_eq!(m.nether_level(), Level::Music);
    m.set_nether(false);
    assert_eq!(m.nether_level(), Level::Silent);
    assert_eq!(m.prepare_nether().len(), 2);
    assert!(m.poll_adaptive(&[true; STEMS]).is_empty());
}

#[test]
fn layers_take_over_once_all_are_there() {
    let mut m = Mixer::new();
    let mut have = [true; STEMS];
    have[3] = false;
    assert!(m.poll_adaptive(&have).is_empty());
    have[3] = true;
    let ops = m.poll_adaptive(&have);
    assert_eq!(ops.len(), 1 + STEMS);
    assert!(matches!(ops[0], SoundOp::Stop { name: "music" }));
    assert!(m.adaptive);
}

#[test]
fn the_title_theme_ends_with_the_menu() {
    let mut m = Mixer::new();
    assert!(m.stop_title().is_empty());
    assert_eq!(m.volumes_changed().len(), 2);
    assert_eq!(m.prepare_title().len(), 2);
    assert!(matches!(m.volumes_changed()[2], SoundOp::Gain { name: "title", level: Level::Music }));
    assert!(matches!(m.stop_title()[0], SoundOp::Stop { name: "title" }));
    assert!(m.stop_title().is_empty());
    assert_eq!(m.start_ambience().len(), 2);
}

#[test]
fn variants_alternate() {
    let mut m = Mixer::new();
    let picks: Vec<&str> = (0..4).map(|_| m.either("tank", "rifle")).collect();
    assert_eq!(picks, vec!["tank", "rifle", "tank", "rifle"]);
    assert!(is_music("wind") && is_music("water") && !is_music("tank"));
}

#[test]
fn sounds_are_read_from_the_better_file() {
    assert_eq!(wav_of("a.ogg").as_deref(), Some("a.wav"));
    assert_eq!(wav_of("ogg"), None);
    assert_eq!(source_path("a.ogg", true), "a.wav");
    assert_eq!(source_path("a.ogg", false), "a.ogg");
    assert_eq!(source_path("a.wav", true), "a.wav");
    assert_eq!(stem_of(3), ("st_snare", "stem_snare_hats.ogg"));
}

#[test]
fn the_loop_has_its_sections() {
    assert_eq!(total_beats(), 112);
    assert_eq!(section_of(SECTIONS - 1), ("LIFT", 24));
}

#[test]
fn notes_are_counted_from_a4() {
    assert_eq!(semitones("A4"), Some(0));
    assert_eq!(semitones("E2"), Some(-29));
    assert_eq!(semitones("F#5"), Some(9));
    assert_eq!(semitones("C0"), Some(-57));
    assert_eq!(semitones("R"), None);
    // an unknown class is C, an unknown octave the fourth
    assert_eq!(semitones("Hx"), Some(-9));
}
