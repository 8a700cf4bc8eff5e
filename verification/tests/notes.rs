//! Note, note set and layering tests.

use rsnbs::note::{ImitateInstrument, Instrument, Key, Note, Tone};
use rsnbs::notes::Notes;
use rsnbs::types::Position;
use rsnbs::util::MatchedGroups;

fn note(instrument: Instrument, key: u8) -> Note {
    Note::new(Tone::new(instrument, Key::new(key)))
}

fn notes_from(entries: &[(u32, u32, Note)]) -> Notes<Note> {
    let mut notes = Notes::new();
    for (tick, layer, n) in entries {
        notes.insert(Position::new(*tick, *layer), *n);
    }
    notes
}

fn placed(notes: &Notes<Note>) -> Vec<(u32, u32, Note)> {
    (0..notes.len())
        .map(|i| {
            let (p, n) = notes.entry_at(i);
            (p.tick(), p.layer(), *n)
        })
        .collect()
}

#[test]
fn keys_convert_to_and_from_minecraft_notes() {
    assert_eq!(Key::from_minecraft_note(0u8), Some(Key::new(33)));
    assert_eq!(Key::from_minecraft_note(24i32), Some(Key::new(57)));
    assert_eq!(Key::from_minecraft_note(25u32), None);
    assert_eq!(Key::from_minecraft_note(-1i32), None);
    assert_eq!(Key::new(45).minecraft_note(), Some(12));
    assert_eq!(Key::new(32).minecraft_note(), None);
    assert_eq!(Key::new(58).minecraft_note(), None);
}

#[test]
fn instruments_map_to_indexes_and_definitions() {
    assert_eq!(Instrument::Trumpet.vanilla_index(), Some(16));
    assert_eq!(Instrument::Custom(3).vanilla_index(), None);
    assert_eq!(Instrument::from_vanilla_index(16), Some(Instrument::Trumpet));
    assert_eq!(Instrument::from_vanilla_index(20), None);
    assert_eq!(Instrument::Harp.nbs_definition(), Some(("Harp", "harp.ogg")));
    assert_eq!(Instrument::Imitate(ImitateInstrument::Zombie).nbs_definition(), None);
    assert_eq!(Instrument::SnareDrum.block_resource(), Some("minecraft:sand"));
    assert_eq!(Instrument::Chime.note_property(), "chime");
}

#[test]
fn tones_are_valid_for_vanilla_playable_keys() {
    assert!(Tone::new(Instrument::Harp, Key::new(33)).is_valid());
    assert!(!Tone::new(Instrument::Custom(0), Key::new(40)).is_valid());
    assert!(!Tone::new(Instrument::Harp, Key::new(60)).is_valid());
}

#[test]
fn notes_insert_replaces_and_keeps_position_order() {
    let (a, b, c) = (note(Instrument::Harp, 40), note(Instrument::Bell, 41), note(Instrument::Bit, 42));
    let mut notes = Notes::new();
    assert_eq!(notes.insert(Position::new(5, 0), a), None);
    assert_eq!(notes.insert(Position::new(1, 2), b), None);
    assert_eq!(notes.insert(Position::new(5, 0), c), Some(a));
    assert_eq!(placed(&notes), vec![(1, 2, b), (5, 0, c)]);
    assert_eq!(notes.get(Position::new(5, 0)), Some(&c));
    assert_eq!(notes.get(Position::new(5, 1)), None);
}

#[test]
fn split_by_layer_gaps_groups_contiguous_layers() {
    let n = note(Instrument::Harp, 40);
    let notes = notes_from(&[(0, 0, n), (1, 1, n), (2, 3, n), (3, 4, n), (0, 7, n)]);
    let groups = notes.split_by_layer_gaps();
    assert_eq!(groups.len(), 3);
    assert_eq!(placed(&groups[0]), vec![(0, 0, n), (1, 1, n)]);
    assert_eq!(placed(&groups[1]), vec![(2, 0, n), (3, 1, n)]);
    assert_eq!(placed(&groups[2]), vec![(0, 0, n)]);
}

#[test]
fn split_by_layer_count_cuts_every_size_layers() {
    let n = note(Instrument::Harp, 40);
    let notes = notes_from(&[(0, 0, n), (1, 1, n), (2, 2, n), (3, 5, n)]);
    let groups = notes.split_by_layer_count(Some(2));
    assert_eq!(groups.len(), 3);
    assert_eq!(placed(&groups[0]), vec![(0, 0, n), (1, 1, n)]);
    assert_eq!(placed(&groups[1]), vec![(2, 0, n)]);
    assert_eq!(placed(&groups[2]), vec![(3, 1, n)]);
    let whole = notes_from(&[(0, 0, n), (1, 1, n)]).split_by_layer_count(None);
    assert_eq!(whole.len(), 1);
}

#[test]
fn concat_stacks_groups_with_two_blank_layers_between() {
    let (a, b) = (note(Instrument::Harp, 40), note(Instrument::Bell, 41));
    let stacked = Notes::concat(vec![notes_from(&[(0, 0, a), (2, 1, a)]), notes_from(&[(1, 0, b)])]);
    let got: Vec<(u32, u32, Note)> = stacked.iter().map(|(p, n)| (p.tick(), p.layer(), *n)).collect();
    assert_eq!(got, vec![(0, 0, a), (2, 1, a), (1, 4, b)]);
}

#[test]
#[allow(deprecated)]
fn reassign_layers_stacks_slices_apart() {
    let a = note(Instrument::Harp, 40);
    let b = note(Instrument::Harp, 35);
    let c = note(Instrument::Bell, 50);
    let d = note(Instrument::Bit, 45);
    let notes = Notes::reassign_layers(vec![vec![(0, a), (2, c), (0, b)], vec![(1, d)]], 1);
    assert_eq!(placed(&notes), vec![(0, 0, b), (0, 1, a), (1, 3, d), (2, 0, c)]);
}

#[test]
#[allow(deprecated)]
fn reassign_layers_starts_the_largest_tick_one_layer_up() {
    let a = note(Instrument::Harp, 40);
    let notes = Notes::reassign_layers(vec![vec![(u32::MAX, a)], vec![(0, a)]], 0);
    assert_eq!(placed(&notes), vec![(0, 2, a), (u32::MAX, 1, a)]);
}

#[test]
fn matches_by_finds_pattern_partners() {
    let (a, b) = (note(Instrument::Harp, 40), note(Instrument::Bell, 41));
    let notes = notes_from(&[(0, 0, a), (2, 0, a), (5, 0, b)]);
    let (matched, unmatched) = notes.matches_by(&[0, 2], 8, |x: &Note, y: &Note| x.tone == y.tone);
    assert_eq!(placed(&matched), vec![(0, 0, a), (2, 0, a)]);
    assert_eq!(placed(&unmatched), vec![(5, 0, b)]);
}

#[test]
fn group_match_keeps_groups_and_templates() {
    let a = note(Instrument::Harp, 40);
    let notes = notes_from(&[(0, 0, a), (1, 0, a), (4, 0, a), (5, 0, a), (7, 0, a)]);
    let (groups, unmatched) = notes.group_match(&[0, 1], 8, |x: &Note, y: &Note| x.tone == y.tone);
    assert_eq!(groups.groups().len(), 2);
    assert_eq!(groups.matched_len(), 4);
    assert_eq!(placed(&groups.templates()), vec![(0, 0, a), (4, 0, a)]);
    assert_eq!(placed(&unmatched), vec![(7, 0, a)]);
    assert_eq!(MatchedGroups::empty().matched_len(), 0);
}

#[test]
fn group_match_takes_the_first_fitting_partner() {
    let a = note(Instrument::Harp, 40);
    let notes = notes_from(&[(0, 0, a), (4, 0, a), (4, 1, a)]);
    let (groups, unmatched) = notes.group_match(&[0, 4], 8, |x: &Note, y: &Note| x.tone == y.tone);
    assert_eq!(groups.groups().len(), 1);
    assert_eq!(placed(&groups.groups()[0]), vec![(0, 0, a), (4, 0, a)]);
    assert_eq!(placed(&unmatched), vec![(4, 1, a)]);
}

#[test]
fn group_match_groups_hold_one_note_per_offset() {
    let a = note(Instrument::Harp, 40);
    let notes = notes_from(&[(0, 0, a), (2, 0, a), (3, 0, a), (5, 0, a), (6, 0, a), (8, 0, a), (9, 0, a)]);
    let (groups, unmatched) = notes.group_match(&[0, 2, 3], 10, |x: &Note, y: &Note| x.tone == y.tone);
    assert_eq!(groups.groups().len(), 2);
    for group in groups.groups() {
        assert_eq!(group.len(), 3);
    }
    assert_eq!(placed(&unmatched), vec![(5, 0, a)]);
}

#[test]
fn note_new_takes_a_tone_or_a_note() {
    let t = Tone::new(Instrument::Flute, Key::new(50));
    let n = Note::new(t);
    assert_eq!(n.tone, t);
    assert_eq!(n.pitch, 0);
    assert_eq!(Note::new(n), n);
    assert_eq!(Note::new(&t), n);
}
