//! Layout tests: compact and linear layouts on small hand-worked inputs.

use rsnbs::compact::{
    split_even_odd, Axis, Block, BlockPos, CompactLayout, Facing, Fallback, MultiCompactLayout, NeedsFloor, Tile,
};
use rsnbs::layout::{Layout, WithFloor};
use rsnbs::linear::{LinearLayout, LinearLayoutMeta, MultiLinearLayout, Repeater, StackedLinearLayout, Template};
use rsnbs::note::{Instrument, Key, Note, Tone};
use rsnbs::notes::Notes;
use rsnbs::types::Position;

fn tone(instrument: Instrument, key: u8) -> Tone {
    Tone::new(instrument, Key::new(key))
}

fn note(instrument: Instrument, key: u8) -> Note {
    Note::new(tone(instrument, key))
}

fn pos(x: i32, y: i32, z: i32) -> BlockPos {
    BlockPos { x, y, z }
}

fn notes_at(ticks: &[(u32, u32, Note)]) -> Notes<Note> {
    let mut notes = Notes::new();
    for (tick, layer, n) in ticks {
        notes.insert(Position::new(*tick, *layer), *n);
    }
    notes
}

#[test]
fn split_even_odd_buckets_by_redstone_tick() {
    let (a, b, c, d, e) = (
        note(Instrument::Harp, 33),
        note(Instrument::Bell, 34),
        note(Instrument::Flute, 35),
        note(Instrument::Bit, 36),
        note(Instrument::Banjo, 37),
    );
    let (even, odd) = split_even_odd(vec![(0, vec![a]), (1, vec![b]), (2, vec![c]), (4, vec![d]), (2, vec![e])]);
    assert_eq!(even, vec![(0, vec![a]), (1, vec![c, e]), (2, vec![d])]);
    assert_eq!(odd, vec![(0, vec![b])]);
}

#[test]
fn tiles_pick_stems_and_canopies() {
    assert_eq!(Tile::stem(0, false), Tile::Link);
    assert_eq!(Tile::stem(0, true), Tile::TurningLink);
    assert_eq!(Tile::stem(3, false), Tile::Delay(3));
    assert_eq!(Tile::stem(2, true), Tile::TurningDelay(2));
    let (a, b, c) = (note(Instrument::Harp, 40), note(Instrument::Harp, 41), note(Instrument::Harp, 42));
    let mut queue = vec![a, b, c];
    assert_eq!(Tile::canopy(&mut queue, false, true), Tile::Terminal(Some(c), Some(b), Some(a)));
    assert!(queue.is_empty());
    let mut queue = vec![a, b, c];
    assert_eq!(Tile::canopy(&mut queue, true, false), Tile::TurningNode(Some(c)));
    assert_eq!(queue, vec![a, b]);
    assert_eq!(Tile::Delay(3).get_block(1, Facing::North), Block::Repeater(3, Facing::North));
    assert_eq!(Tile::Node(None, None).get_block(2, Facing::South), Block::Wire);
}

#[test]
fn compact_layout_of_one_note() {
    let n = note(Instrument::Harp, 45);
    let layout = CompactLayout::new(vec![(0, vec![n])], None, None);
    assert_eq!(layout.size(), pos(3, 3, 2));
    assert_eq!(layout.get_block(pos(0, 0, 0)), Block::Chain);
    assert_eq!(layout.get_block(pos(0, 1, 0)), Block::Repeater(1, Facing::West));
    assert_eq!(layout.get_block(pos(0, 2, 0)), Block::Air);
    assert_eq!(layout.get_block(pos(1, 0, 0)), Block::InstrumentBase(Some(n.tone), Fallback::Chain));
    assert_eq!(layout.get_block(pos(1, 1, 0)), Block::NoteBlock(Some(n.tone), Fallback::Chain));
    assert_eq!(layout.get_block(pos(1, 0, 1)), Block::Air);
}

#[test]
fn multi_compact_layout_places_bands_apart() {
    let (a, b) = (note(Instrument::Harp, 45), note(Instrument::Bell, 50));
    let layout = MultiCompactLayout::new(vec![(vec![(0, vec![a]), (1, vec![b])], None)], None, 2);
    assert_eq!(layout.size(), pos(8, 3, 2));
    assert_eq!(layout.get_block(pos(0, 1, 0)), Block::Repeater(1, Facing::West));
    assert_eq!(layout.get_block(pos(4, 1, 0)), Block::Air);
    assert_eq!(layout.get_block(pos(5, 1, 0)), Block::Repeater(1, Facing::West));
    assert_eq!(layout.get_block(pos(6, 1, 0)), Block::NoteBlock(Some(b.tone), Fallback::Chain));
}

#[test]
fn multi_compact_layout_without_notes_is_empty() {
    let layout = MultiCompactLayout::new(vec![(vec![], Some(4))], Some(3), 5);
    assert_eq!(layout.size(), pos(-5, 3, 0));
}

#[test]
fn linear_layout_meta_picks_scale_and_length() {
    let n = note(Instrument::Harp, 45);
    let meta = LinearLayoutMeta::new(&vec![notes_at(&[(0, 0, n), (8, 0, n)]), notes_at(&[(4, 1, n)])]);
    assert_eq!((meta.song_length, meta.scale), (9, 4));
    let meta = LinearLayoutMeta::new(&vec![notes_at(&[(0, 0, n), (6, 0, n)])]);
    assert_eq!((meta.song_length, meta.scale), (7, 2));
    let meta = LinearLayoutMeta::new(&vec![notes_at(&[(3, 0, n)])]);
    assert_eq!((meta.song_length, meta.scale), (4, 3));
    let meta = LinearLayoutMeta::new(&vec![notes_at(&[(5, 0, n)])]);
    assert_eq!((meta.song_length, meta.scale), (6, 1));
    let meta = LinearLayoutMeta::new(&vec![Notes::new()]);
    assert_eq!((meta.song_length, meta.scale), (0, 4));
}

#[test]
fn linear_layout_of_one_note() {
    let n = note(Instrument::Harp, 45);
    let layout = LinearLayout::new(notes_at(&[(0, 0, n)]), 1, 4, None, 0);
    assert_eq!(layout.size(), pos(5, 2, 4));
    assert_eq!(layout.get_block(pos(0, 0, 0)), Block::Chain);
    assert_eq!(layout.get_block(pos(0, 1, 0)), Block::Wire);
    assert_eq!(layout.get_block(pos(3, 0, 1)), Block::Chain);
    assert_eq!(layout.get_block(pos(3, 1, 1)), Block::Repeater(4, Facing::North));
    assert_eq!(layout.get_block(pos(3, 0, 2)), Block::InstrumentBase(Some(n.tone), Fallback::Chain));
    assert_eq!(layout.get_block(pos(3, 1, 2)), Block::NoteBlock(Some(n.tone), Fallback::Chain));
    assert_eq!(layout.get_block(pos(2, 1, 2)), Block::NoteBlock(None, Fallback::Air));
    assert_eq!(layout.get_block(pos(0, 1, 1)), Block::NoteBlock(None, Fallback::Air));
    assert_eq!(layout.get_block(pos(1, 1, 2)), Block::Air);
}

#[test]
fn linear_layout_branch_uses_a_piston_on_scale_three() {
    let (main, branch) = (note(Instrument::Harp, 45), note(Instrument::Bell, 50));
    // scale 3: groups span 6 ticks; the branch note sits 3 ticks into the group
    let layout = LinearLayout::new(notes_at(&[(0, 0, main), (3, 0, branch)]), 6, 3, None, 0);
    assert_eq!(layout.size(), pos(6, 2, 4));
    assert_eq!(layout.get_block(pos(3, 1, 2)), Block::StickyPiston(Facing::West));
    assert_eq!(layout.get_block(pos(2, 1, 2)), Block::RedstoneBlock);
    assert_eq!(layout.get_block(pos(4, 1, 2)), Block::NoteBlock(Some(main.tone), Fallback::Chain));
}

#[test]
fn multi_linear_layout_spaces_tracks_evenly() {
    let n = note(Instrument::Harp, 45);
    let layout = MultiLinearLayout::new(vec![notes_at(&[(0, 0, n)]), notes_at(&[(4, 0, n)])], 1);
    assert_eq!(layout.size(), pos(11, 2, 34));
    assert_eq!(layout.get_block(pos(5, 1, 5)), Block::Air);
    assert_eq!(layout.get_block(pos(6, 1, 0)), Block::Wire);
}

#[test]
fn templates_place_their_blocks() {
    let (t1, t2) = (tone(Instrument::Harp, 40), tone(Instrument::Bit, 41));
    let note_cell = Template::Note { repeater: Repeater::new(4, Facing::South), notes: [Some(t1), None, Some(t2)] };
    assert_eq!(note_cell.block_at(pos(4, 1, 0)), Some(Block::Repeater(4, Facing::South)));
    assert_eq!(note_cell.block_at(pos(3, 1, 1)), Some(Block::NoteBlock(Some(t2), Fallback::Air)));
    assert_eq!(note_cell.block_at(pos(5, 0, 1)), Some(Block::InstrumentBase(None, Fallback::Air)));
    assert_eq!(note_cell.block_at(pos(2, 0, 0)), None);
    let branch_cell = Template::Branch {
        repeater: Repeater::new(4, Facing::North),
        branch: [Some(t1), None],
        notes: [Some(t2), None],
    };
    assert_eq!(branch_cell.block_at(pos(3, 1, 1)), Some(Block::Repeater(2, Facing::West)));
    assert_eq!(branch_cell.block_at(pos(1, 1, 1)), Some(Block::NoteBlock(Some(t1), Fallback::Chain)));
    let piston_cell = Template::Piston {
        repeater: Repeater::new(3, Facing::North),
        branch: [None, Some(t1)],
        notes: [None, None],
    };
    assert_eq!(piston_cell.block_at(pos(3, 1, 1)), Some(Block::StickyPiston(Facing::West)));
    assert_eq!(piston_cell.block_at(pos(0, 1, 1)), Some(Block::NoteBlock(Some(t1), Fallback::Air)));
    assert_eq!(piston_cell.size(), pos(6, 2, 2));
}

#[test]
fn sand_needs_a_floor() {
    let snare = tone(Instrument::SnareDrum, 40);
    assert!(Block::InstrumentBase(Some(snare), Fallback::Air).needs_floor());
    assert!(!Block::InstrumentBase(Some(tone(Instrument::CowBell, 40)), Fallback::Air).needs_floor());
    assert!(!Block::InstrumentBase(Some(tone(Instrument::SnareDrum, 20)), Fallback::Air).needs_floor());
    assert!(!Block::NoteBlock(Some(snare), Fallback::Air).needs_floor());
    assert_eq!(Axis::Southing.unit(), pos(0, 0, 1));
}

#[test]
fn compact_layout_wraps_rows_and_fills_long_delays() {
    let (a, b) = (note(Instrument::Harp, 45), note(Instrument::Bell, 50));
    // tiles: turning delay 1, terminal a, delay 4, delay 4 | turning delay 2, terminal b
    let layout = CompactLayout::new(vec![(0, vec![a]), (10, vec![b])], None, Some(2));
    assert_eq!(layout.size(), pos(5, 3, 4));
    assert_eq!(layout.get_block(pos(0, 1, 0)), Block::Repeater(1, Facing::West));
    assert_eq!(layout.get_block(pos(1, 1, 0)), Block::NoteBlock(Some(a.tone), Fallback::Chain));
    assert_eq!(layout.get_block(pos(2, 1, 0)), Block::NoteBlock(None, Fallback::Air));
    assert_eq!(layout.get_block(pos(1, 1, 1)), Block::Repeater(4, Facing::North));
    assert_eq!(layout.get_block(pos(1, 1, 2)), Block::Repeater(4, Facing::North));
    assert_eq!(layout.get_block(pos(1, 1, 3)), Block::Wire);
    assert_eq!(layout.get_block(pos(2, 1, 3)), Block::Repeater(2, Facing::West));
    assert_eq!(layout.get_block(pos(3, 1, 1)), Block::Air);
}

#[test]
fn compact_layout_steps_long_delays_by_the_coarseness() {
    let (a, b) = (note(Instrument::Harp, 45), note(Instrument::Bell, 50));
    // a coarseness of 8 game ticks repeats turning delays of 2 redstone ticks
    let layout = CompactLayout::new(vec![(0, vec![a]), (10, vec![b])], Some(8), None);
    assert_eq!(layout.size(), pos(3, 3, 12));
}

#[test]
fn with_floor_adds_a_floor_row() {
    let n = note(Instrument::Harp, 45);
    let layout = LinearLayout::new(notes_at(&[(0, 0, n)]), 1, 4, None, 0);
    let full = WithFloor::new(layout, true);
    assert_eq!(full.size(), pos(5, 3, 4));
    assert_eq!(full.get_block(pos(1, 0, 2)), Block::Floor);
    assert_eq!(full.get_block(pos(0, 1, 0)), Block::Chain);
    assert_eq!(full.get_block(pos(3, 2, 2)), Block::NoteBlock(Some(n.tone), Fallback::Chain));
    let sparse = WithFloor::new(LinearLayout::new(notes_at(&[(0, 0, n)]), 1, 4, None, 0), false);
    assert_eq!(sparse.get_block(pos(1, 0, 2)), Block::Air);
}

#[test]
fn with_floor_holds_up_sand() {
    let s = note(Instrument::SnareDrum, 45);
    let sparse = WithFloor::new(LinearLayout::new(notes_at(&[(0, 0, s)]), 1, 4, None, 0), false);
    assert!(sparse.get_block(pos(3, 1, 2)).needs_floor());
    assert_eq!(sparse.get_block(pos(3, 0, 2)), Block::Floor);
    assert_eq!(sparse.get_block(pos(0, 0, 0)), Block::Air);
}

#[test]
fn stacked_linear_layout_stacks_floored_tracks() {
    let n = note(Instrument::Harp, 45);
    let tracks = vec![notes_at(&[(0, 0, n)]), notes_at(&[(4, 0, n)])];
    assert!(StackedLinearLayout::fits(&tracks, Some(16), 0));
    let layout = StackedLinearLayout::new(tracks, Some(16), 0, true);
    let size = layout.size();
    assert_eq!(size.y, 7);
    assert_eq!(layout.get_block(pos(0, 0, 0)), Block::Floor);
    assert_eq!(layout.get_block(pos(0, 3, 0)), Block::Air);
    assert_eq!(layout.get_block(pos(0, 4, 0)), Block::Floor);
    assert_eq!(layout.get_block(pos(0, 1, 0)), Block::Chain);
    assert_eq!(layout.get_block(pos(0, 5, 0)), Block::Chain);
}
