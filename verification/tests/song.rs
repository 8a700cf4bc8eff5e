//! Song-level tests: adapting instruments to a version, the value types and
//! their error messages.

use rsnbs::error::Error;
use rsnbs::note::{Instrument, Key, Note, Tone};
use rsnbs::song::{CustomInstrument, Song};
use rsnbs::types::{Panning, Position, Version, Volume};

fn note(instrument: Instrument) -> Note {
    Note::new(Tone::new(instrument, Key::new(45)))
}

fn custom(name: &str, file: &str) -> CustomInstrument {
    CustomInstrument { name: name.to_string(), file: file.to_string(), pitch: 45, press_key: true }
}

fn instruments(song: &Song) -> Vec<Instrument> {
    (0..song.notes.len()).map(|i| song.notes.entry_at(i).1.tone.instrument).collect()
}

#[test]
fn adapt_moves_unsupported_instruments_to_custom_slots() {
    let mut song = Song::new();
    song.notes.insert(Position::new(0, 0), note(Instrument::Trumpet));
    song.notes.insert(Position::new(1, 0), note(Instrument::Harp));
    song.notes.insert(Position::new(2, 0), note(Instrument::TrumpetExposed));
    song.notes.insert(Position::new(3, 0), note(Instrument::Trumpet));
    song.custom_instruments.push(custom("Exposed Trumpet", "trumpet_exposed.ogg"));
    song.adapt_instruments_to_version(Version::new(5).unwrap());
    assert_eq!(
        instruments(&song),
        vec![Instrument::Custom(1), Instrument::Harp, Instrument::Custom(0), Instrument::Custom(1)]
    );
    assert_eq!(song.custom_instruments.len(), 2);
    assert_eq!(song.custom_instruments[1].name, "Trumpet");
    assert_eq!(song.custom_instruments[1].file, "trumpet.ogg");
    assert_eq!(song.custom_instruments[1].pitch, 45);
    assert!(song.custom_instruments[1].press_key);
}

#[test]
fn adapt_to_the_current_version_changes_nothing() {
    let mut song = Song::new();
    song.notes.insert(Position::new(0, 0), note(Instrument::TrumpetOxidized));
    song.adapt_instruments_to_version(Version::new(6).unwrap());
    assert_eq!(instruments(&song), vec![Instrument::TrumpetOxidized]);
    assert!(song.custom_instruments.is_empty());
}

#[test]
fn adapt_to_the_classic_version_adds_entries_in_order_of_use() {
    let mut song = Song::new();
    song.notes.insert(Position::new(0, 0), note(Instrument::Pling));
    song.notes.insert(Position::new(0, 1), note(Instrument::CowBell));
    song.notes.insert(Position::new(2, 0), note(Instrument::Pling));
    song.adapt_instruments_to_version(Version::new(0).unwrap());
    assert_eq!(instruments(&song), vec![Instrument::Custom(0), Instrument::Custom(1), Instrument::Custom(0)]);
    let names: Vec<&str> = song.custom_instruments.iter().map(|c| c.name.as_str()).collect();
    assert_eq!(names, vec!["Pling", "Cow Bell"]);
}

#[test]
fn versions_know_their_vanilla_instruments() {
    assert_eq!(Version::new(0).unwrap().vanilla_instruments(), 10);
    assert_eq!(Version::new(5).unwrap().vanilla_instruments(), 16);
    assert_eq!(Version::new(6).unwrap().vanilla_instruments(), 20);
    assert!(Version::new(7).is_err());
}

#[test]
fn value_errors_name_the_value_and_range() {
    match Version::new(255) {
        Err(e) => assert_eq!(e.message(), "Invalid or unsupported version: 255"),
        Ok(_) => panic!("version 255 accepted"),
    }
    match Volume::new(101) {
        Err(e) => assert_eq!(e.message(), "Invalid velocity value: 101 (must be 0-100)"),
        Ok(_) => panic!("volume 101 accepted"),
    }
    match Panning::new(-128) {
        Err(e) => assert_eq!(e.message(), "Invalid panning value: -128 (must be -100 to 100)"),
        Ok(_) => panic!("panning -128 accepted"),
    }
    assert_eq!(Volume::new(100).unwrap().get(), 100);
    assert_eq!(Panning::new(-100).unwrap().get(), -100);
}

#[test]
fn io_errors_keep_their_text() {
    let e = Error::Io(std::io::Error::new(std::io::ErrorKind::Other, "disk gone"));
    assert_eq!(e.message(), "disk gone");
}

#[test]
fn song_length_and_refresh_follow_the_last_note() {
    let mut song = Song::new();
    assert_eq!(song.len(), 0);
    song.notes.insert(Position::new(9, 2), note(Instrument::Harp));
    song.notes.insert(Position::new(4, 0), note(Instrument::Harp));
    assert_eq!(song.len(), 10);
    song.refresh();
    assert_eq!(song.header.song_length, 9);
    assert_eq!(song.header.default_instruments, 20);
}

/// The README's two examples, with the song written to and read back from
/// bytes in place of files.
#[test]
fn test_readme_example() {
    // example 2: generating a new song programmatically
    let mut song: Song = Song::new();
    song.header.is_loop = true;
    for i in 0..25u32 {
        let pos = Position::new(i, 0);
        let key = Key::from_minecraft_note(i).unwrap();
        let tone = Tone::new(Instrument::Harp, key);
        song.notes.insert(pos, Note::new(tone));
    }
    let bytes = song.write();

    // example 1: iterating over a song's notes
    let song = Song::parse(&bytes).unwrap();
    for i in 0..song.notes.len() {
        let (pos, note) = song.notes.entry_at(i);
        let tick = pos.tick();
        let key = note.tone().key();
        println!("tick: {tick}, key: {}", key.name());
    }
    assert_eq!(song.notes.len(), 25);
    assert!(song.header.is_loop);
}
