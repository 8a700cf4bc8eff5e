//! Codec tests with self-contained byte fixtures.
//!
//! The `build` helper writes NBS files byte-by-byte per the OpenNBS spec.

use rsnbs::note::{Instrument, Note};
use rsnbs::song::Song;
use rsnbs::types::{Position, Version};

fn write_str(buf: &mut Vec<u8>, s: &str) {
    let b = s.as_bytes();
    buf.extend((b.len() as u32).to_le_bytes());
    buf.extend(b);
}

fn push_note(buf: &mut Vec<u8>, version: u8, layer_jump: u16, inst: u8, key: u8) {
    buf.extend(layer_jump.to_le_bytes());
    buf.push(inst);
    buf.push(key);
    if version >= 4 {
        buf.push(100); // velocity
        buf.push(100); // panning
        buf.extend(0i16.to_le_bytes()); // pitch
    }
}

#[allow(clippy::too_many_arguments)]
fn build(
    version: u8,
    fci: u8,
    song_len: u16,
    layers: u16,
    notes: &[(Option<u16>, u16, u8, u8)], // (tick_jump, layer_jump, instrument byte, key)
    layer_names: &[(&str, u8, u8, u8)],   // (name, lock, volume, panning)
    customs: &[(&str, &str, u8, u8)],     // (name, file, key, press_key)
) -> Vec<u8> {
    let mut buf = Vec::new();
    let mut first_note = true;
    if version > 0 {
        buf.extend(0u16.to_le_bytes()); // new format marker
        buf.push(version);
        buf.push(fci);
    } else {
        buf.extend(song_len.to_le_bytes());
    }
    if version >= 3 {
        buf.extend(song_len.to_le_bytes());
    }
    buf.extend(layers.to_le_bytes());
    write_str(&mut buf, "Test Song");
    write_str(&mut buf, "kemiamu");
    write_str(&mut buf, "");
    write_str(&mut buf, "");
    buf.extend(1000u16.to_le_bytes()); // tempo
    buf.push(0); // autosave
    buf.push(10); // autosave minutes
    buf.push(4); // time signature
    for _ in 0..5 {
        buf.extend(0i32.to_le_bytes());
    }
    write_str(&mut buf, ""); // midi
    if version >= 4 {
        buf.push(0); // loop
        buf.push(0); // max loop count
        buf.extend(0u16.to_le_bytes()); // loop start
    }
    for &(tj, lj, inst, key) in notes {
        if let Some(tj) = tj {
            if !first_note {
                buf.extend(0u16.to_le_bytes()); // end of the previous tick's layers
            }
            buf.extend(tj.to_le_bytes());
        }
        push_note(&mut buf, version, lj, inst, key);
        first_note = false;
    }
    buf.extend(0u16.to_le_bytes()); // end of the last tick's layers
    buf.extend(0u16.to_le_bytes()); // end of notes
    for &(name, lock, vol, pan) in layer_names {
        write_str(&mut buf, name);
        if version >= 4 {
            buf.push(lock);
        }
        buf.push(vol);
        if version >= 2 {
            buf.push(pan);
        }
    }
    buf.push(customs.len() as u8);
    for &(name, file, key, press) in customs {
        write_str(&mut buf, name);
        write_str(&mut buf, file);
        buf.push(key);
        buf.push(press);
    }
    buf
}

fn parse(bytes: Vec<u8>) -> Song {
    Song::parse(&bytes).unwrap()
}

fn write(song: &mut Song) -> Vec<u8> {
    song.write()
}

fn notes_of(song: &Song) -> Vec<(Position, Note)> {
    (0..song.notes.len())
        .map(|i| {
            let (p, n) = song.notes.entry_at(i);
            (p, *n)
        })
        .collect()
}

// A v6 file: trumpets are vanilla (fci = 20), bytes at or above 20 are custom.
#[test]
fn v6_parses_trumpets_as_vanilla_and_bytes_as_custom_slots() {
    let bytes = build(
        6,
        20,
        0,
        1,
        &[
            (Some(1), 1, 16, 45), // tick 0, layer 0: byte 16 -> Trumpet (vanilla in v6)
            (None, 2, 21, 45),    // tick 0, layer 2: byte 21 -> custom slot 1
        ],
        &[("Layer", 0, 100, 100)],
        &[("A", "a.ogg", 45, 1), ("B", "b.ogg", 45, 1)],
    );
    let song = parse(bytes);
    assert_eq!(song.header.version.get(), 6);
    assert_eq!(song.header.default_instruments, 20);

    let notes = notes_of(&song);
    assert_eq!(notes.len(), 2);
    assert_eq!(notes[0].1.tone().instrument(), Instrument::Trumpet);
    assert_eq!(notes[1].1.tone().instrument(), Instrument::Custom(1));
    assert_eq!(song.custom_instruments[1].name, "B");
}

// Regression: a v5 custom instrument at byte 17 must not be misread as a trumpet.
#[test]
fn v5_parses_custom_byte_as_custom_slot_not_trumpet() {
    let bytes = build(
        5,
        16,
        0,
        1,
        &[(Some(1), 1, 17, 45)], // byte 17 >= fci 16 -> custom slot 1
        &[("Layer", 0, 100, 100)],
        &[("A", "a.ogg", 45, 1), ("B", "b.ogg", 45, 1)],
    );
    let song = parse(bytes);
    assert_eq!(song.header.default_instruments, 16);
    let notes = notes_of(&song);
    assert_eq!(notes[0].1.tone().instrument(), Instrument::Custom(1));
}

// write() borrows the song: derived header fields are computed while
// writing, so the in-memory song is never modified.
#[test]
fn write_does_not_modify_the_song() {
    let bytes = build(
        6,
        20,
        0,
        1,
        &[(Some(1), 1, 16, 45)], // Trumpet
        &[("Layer", 0, 100, 100)],
        &[],
    );
    let mut song = parse(bytes.clone());
    let out = write(&mut song);

    // Roundtrip is byte-identical and the song itself is unchanged.
    assert_eq!(out, bytes);
    assert!(song.custom_instruments.is_empty());
    let instruments: Vec<Instrument> = notes_of(&song)
        .iter()
        .map(|(_, note)| note.tone().instrument())
        .collect();
    assert_eq!(instruments, [Instrument::Trumpet]);
    assert_eq!(song.header.song_length, 0);
    assert_eq!(song.header.song_layers, 1);
}

// Upgrading a v5 song to v6 must shift custom instrument bytes from 16 + slot
// to 20 + slot.
#[test]
fn v5_to_v6_upgrade_remaps_custom_slots() {
    let bytes = build(
        5,
        16,
        0,
        1,
        &[(Some(1), 1, 17, 45)], // custom slot 1: "B"
        &[("Layer", 0, 100, 100)],
        &[("A", "a.ogg", 45, 1), ("B", "b.ogg", 45, 1)],
    );
    let mut song = parse(bytes);
    song.header.version = Version::new(6).unwrap();

    let out = write(&mut song);
    assert_eq!(out[3], 20, "v6 file must claim 20 vanilla instruments");

    let upgraded = parse(out);
    let notes = notes_of(&upgraded);
    assert_eq!(notes[0].1.tone().instrument(), Instrument::Custom(1));
    assert_eq!(upgraded.custom_instruments[1].name, "B");
}

#[test]
fn new_song_defaults_to_v6_with_20_vanilla_instruments() {
    let song = Song::new();
    assert_eq!(song.header.version.get(), 6);
    assert_eq!(song.header.default_instruments, 20);
}

#[test]
fn v6_roundtrip_is_byte_identical() {
    let bytes = build(
        6,
        20,
        0,
        1,
        &[
            (Some(1), 1, 18, 45), // Trumpet
            (None, 2, 20, 45),    // custom slot 0
        ],
        &[("Layer", 0, 100, 100)],
        &[("Custom", "custom.ogg", 45, 1)],
    );
    let mut song = parse(bytes.clone());
    assert_eq!(write(&mut song), bytes);
}

// v5 (fci = 16) writes all four trumpets as presets; reading back folds them
// so the table keeps the user entry only, and writing again gives the bytes
// of the first write (write, read, write is idempotent).
#[test]
fn v5_roundtrip_is_idempotent() {
    let bytes = build(
        5,
        16,
        0,
        1,
        &[(Some(1), 1, 16, 45)], // custom slot 0
        &[("Layer", 0, 100, 100)],
        &[("Custom", "custom.ogg", 45, 1)],
    );
    let mut song = parse(bytes);
    let first = write(&mut song);

    // Reading folds: preset entries do not enter the table in memory.
    let mut back = parse(first.clone());
    assert_eq!(back.custom_instruments.len(), 1);
    let notes = notes_of(&back);
    assert_eq!(notes[0].1.tone().instrument(), Instrument::Custom(0));

    // Idempotent: writing again gives the bytes of the first write.
    let second = write(&mut back);
    assert_eq!(second, first);
}

// v1 (fci = 16) also writes all four trumpets as presets; write, read,
// write is idempotent.
#[test]
fn v1_roundtrip_is_idempotent() {
    let bytes = build(
        1,
        16,
        0,
        1,
        &[(Some(1), 1, 3, 45)], // no velocity/panning/pitch in v1
        &[("Layer", 0, 100, 100)],
        &[("Custom", "custom.ogg", 45, 1)],
    );
    let mut song = parse(bytes.clone());
    assert_eq!(song.header.version.get(), 1);
    let first = write(&mut song);
    let mut back = parse(first.clone());
    assert_eq!(back.custom_instruments.len(), 1);
    let second = write(&mut back);
    assert_eq!(second, first);
}

#[test]
fn classic_v0_parses_and_roundtrips() {
    // The first u16 is the song length in the classic format and must stay
    // consistent with the derived song length (the last note's tick).
    let bytes = build(
        0,
        0,
        4,
        1,
        &[(Some(5), 1, 3, 45)], // tick 4: snare drum, no velocity/panning/pitch
        &[("Layer", 0, 100, 100)],
        &[("Custom", "custom.ogg", 45, 1)],
    );
    let mut song = parse(bytes.clone());
    assert_eq!(song.header.version.get(), 0);
    assert_eq!(song.header.default_instruments, 10);
    let notes = notes_of(&song);
    assert_eq!(notes[0].1.tone().instrument(), Instrument::SnareDrum);

    // v0 (fci = 10) writes ten presets ahead of the table; reading back
    // folds them, and writing again gives the bytes of the first write.
    let first = write(&mut song);
    let mut back = parse(first.clone());
    assert_eq!(back.custom_instruments.len(), 1);
    let second = write(&mut back);
    assert_eq!(second, first);
}

// Downgrading v6 to v5: the trumpet is written as a preset, and reading
// folds it back into the vanilla instrument.
#[test]
fn v6_to_v5_downgrade_presets_trumpet_and_folds_on_read() {
    let bytes = build(
        6,
        20,
        0,
        1,
        &[(Some(1), 1, 16, 45)], // Trumpet
        &[("Layer", 0, 100, 100)],
        &[],
    );
    let mut song = parse(bytes);
    song.header.version = Version::new(5).unwrap();

    let out = write(&mut song);
    assert_eq!(out[3], 16, "v5 file must claim 16 vanilla instruments");

    // Folding: the preset entry turns back into the vanilla instrument and
    // does not enter the table in memory.
    let downgraded = parse(out);
    assert!(downgraded.custom_instruments.is_empty());
    let notes = notes_of(&downgraded);
    assert_eq!(notes[0].1.tone().instrument(), Instrument::Trumpet);

    // Idempotent: writing again gives the bytes of the first write.
    let again = downgraded.write();
    let first = song.write();
    assert_eq!(again, first);
}

// Downgrade with user entries: the presets take the head of the table, and
// reading back removes them and moves the user slots down in order.
#[test]
fn v6_to_v5_downgrade_mixes_preset_and_user_customs() {
    let bytes = build(
        6,
        20,
        0,
        1,
        &[
            (Some(1), 1, 16, 45), // tick 0: Trumpet, written as a preset
            (Some(1), 1, 21, 45), // tick 1: Custom(1): "B"
            (Some(1), 1, 20, 45), // tick 2: Custom(0): "A"
        ],
        &[("Layer", 0, 100, 100)],
        &[("A", "a.ogg", 45, 1), ("B", "b.ogg", 45, 1)],
    );
    let mut song = parse(bytes);
    song.header.version = Version::new(5).unwrap();

    let out = write(&mut song);
    let downgraded = parse(out);
    // The table keeps the user entries only.
    let names: Vec<&str> = downgraded
        .custom_instruments
        .iter()
        .map(|ci| ci.name.as_str())
        .collect();
    assert_eq!(names, ["A", "B"]);
    // Notes: the trumpet is vanilla again, the custom slots stay.
    let notes = notes_of(&downgraded);
    assert_eq!(notes[0].1.tone().instrument(), Instrument::Trumpet);
    assert_eq!(notes[1].1.tone().instrument(), Instrument::Custom(1));
    assert_eq!(notes[2].1.tone().instrument(), Instrument::Custom(0));
}

// A v6 write (fci = 20) has no presets: a user entry named like the trumpet
// is not folded and stays custom.
#[test]
fn v6_roundtrip_keeps_user_custom_named_like_trumpet() {
    let bytes = build(
        6,
        20,
        0,
        1,
        &[(Some(1), 1, 20, 45)], // Custom(0): "Trumpet"
        &[("Layer", 0, 100, 100)],
        &[("Trumpet", "trumpet.ogg", 45, 1)],
    );
    let mut song = parse(bytes.clone());
    assert_eq!(write(&mut song), bytes);
    let notes = notes_of(&song);
    assert_eq!(notes[0].1.tone().instrument(), Instrument::Custom(0));
}

// Downgrading to v0 (fci = 10): all ten instruments from the iron xylophone
// up are written as presets and fold back on read.
#[test]
fn v0_downgrade_presets_all_instruments_above_fci() {
    let bytes = build(
        6,
        20,
        0,
        1,
        &[(Some(5), 1, 10, 45)], // tick 4: Iron Xylophone (index 10)
        &[("Layer", 0, 100, 100)],
        &[],
    );
    let mut song = parse(bytes);
    song.header.version = Version::new(0).unwrap();

    let out = write(&mut song);
    let downgraded = parse(out);
    assert_eq!(downgraded.header.default_instruments, 10);
    assert!(downgraded.custom_instruments.is_empty());
    let notes = notes_of(&downgraded);
    assert_eq!(notes[0].1.tone().instrument(), Instrument::IronXylophone);
}

// Folding keeps note positions: notes over several ticks and layers stay
// where they were.
#[test]
fn fold_preserves_note_positions() {
    let bytes = build(
        6,
        20,
        0,
        2,
        &[
            (Some(1), 1, 16, 45), // tick 0, layer 0: Trumpet, written as a preset
            (Some(3), 1, 21, 45), // tick 3, layer 0: Custom(1)
            (Some(1), 2, 20, 45), // tick 4, layer 1: Custom(0)
        ],
        &[("L1", 0, 100, 100), ("L2", 0, 100, 100)],
        &[("A", "a.ogg", 45, 1), ("B", "b.ogg", 45, 1)],
    );
    let mut song = parse(bytes);
    song.header.version = Version::new(5).unwrap();

    let out = write(&mut song);
    let downgraded = parse(out);
    let ticks: Vec<u32> = notes_of(&downgraded).iter().map(|(p, _)| p.tick()).collect();
    assert_eq!(ticks, [0, 3, 4]);
}

// Truncated input is reported as an I/O error.
#[test]
fn truncated_file_is_an_io_error() {
    let mut bytes = build(6, 20, 0, 1, &[(Some(1), 1, 0, 45)], &[("Layer", 0, 100, 100)], &[]);
    bytes.truncate(bytes.len() - 3);
    assert!(matches!(Song::parse(&bytes), Err(rsnbs::error::Error::Io(_))));
}

// A version byte above 6 is reported as an unsupported version.
#[test]
fn unsupported_version_is_reported() {
    let bytes = build(7, 20, 0, 0, &[], &[], &[]);
    match Song::parse(&bytes) {
        Err(rsnbs::error::Error::InvalidVersion(s)) => assert_eq!(s, "7"),
        _ => panic!("expected an invalid version"),
    }
}

// A note volume above 100 is reported as an invalid volume.
#[test]
fn invalid_note_volume_is_reported() {
    let mut bytes = build(6, 20, 0, 0, &[(Some(1), 1, 0, 45)], &[], &[]);
    // From the end: count, end of notes, end of tick, pitch, panning, then
    // the velocity of the only note.
    let velocity_at = bytes.len() - 9;
    bytes[velocity_at] = 101;
    match Song::parse(&bytes) {
        Err(rsnbs::error::Error::InvalidVolume(s)) => assert_eq!(s, "101"),
        _ => panic!("expected an invalid volume"),
    }
}

// A layer panning byte of 201 stands for panning 101, out of range.
#[test]
fn invalid_layer_panning_is_reported() {
    let bytes = build(6, 20, 0, 1, &[(Some(1), 1, 0, 45)], &[("Layer", 0, 100, 201)], &[]);
    match Song::parse(&bytes) {
        Err(rsnbs::error::Error::InvalidPanning(s)) => assert_eq!(s, "101"),
        _ => panic!("expected an invalid panning"),
    }
}

// Note fields of version 4 and later read back through a write.
#[test]
fn note_fields_roundtrip() {
    // The header's song length is the last note's tick, as a write derives it.
    let bytes = build(6, 20, 2, 1, &[(Some(3), 2, 5, 50)], &[("Layer", 1, 80, 150)], &[]);
    let song = parse(bytes.clone());
    let notes = notes_of(&song);
    assert_eq!(notes[0].0, Position::new(2, 1));
    assert_eq!(u8::from(notes[0].1.tone().key()), 50);
    assert_eq!(song.layers[0].volume.get(), 80);
    assert_eq!(song.layers[0].panning.get(), 50);
    assert!(song.layers[0].lock);
    assert_eq!(song.write(), bytes);
}
