//! Compact note block layouts: a song track's notes packed into stem and
//! canopy tiles along rows that zigzag south and north, three blocks high.

use crate::note::{Instrument, Note, Tone};
use crate::codec::wrapping_back;
use crate::notes::reversed;
use crate::types::Tick;
use crate::layout::{inside, Layout};
use vstd::prelude::*;

verus! {

// Blocks
//
// ++++++++++++============++++++++++++============++++++++++++============

/// The direction a repeater faces.
#[derive(Debug, Clone, Copy, PartialEq, Eq, Structural)]
pub enum Facing {
    North,
    South,
    East,
    West,
}

/// The block placed where a note slot holds no note.
#[derive(Debug, Clone, Copy, PartialEq, Eq, Structural)]
pub enum Fallback {
    Air,
    Chain,
}

/// A block of a layout.
#[derive(Debug, Clone, Copy, PartialEq, Eq, Structural)]
pub enum Block {
    Air,
    /// The block that carries the redstone line (smooth stone).
    Chain,
    /// Redstone dust connected on all sides.
    Wire,
    /// A repeater with a delay, facing a direction.
    Repeater(u32, Facing),
    /// The block under a note block that gives the note its instrument
    /// sound; without a note (or for a note that has no such block), the
    /// fallback.
    InstrumentBase(Option<Tone>, Fallback),
    /// The note block of a note; without a note (or for a note that has no
    /// note block), the fallback.
    NoteBlock(Option<Tone>, Fallback),
    /// A sticky piston facing a direction.
    StickyPiston(Facing),
    /// A block of redstone.
    RedstoneBlock,
    /// The floor laid under a layout (gray stained glass).
    Floor,
}

/// The tone of a note, if any.
pub open spec fn spec_tone_of(n: Option<Note>) -> Option<Tone> {
    match n {
        Some(n) => Some(n.tone),
        None => None,
    }
}

/// The tone of a note, if any.
#[verifier::when_used_as_spec(spec_tone_of)]
pub fn tone_of(n: Option<Note>) -> (r: Option<Tone>)
    ensures
        r == spec_tone_of(n),
{
    match n {
        Some(n) => Some(n.tone),
        None => None,
    }
}

// Tile
//
// ++++++++++++============++++++++++++============++++++++++++============

/// A stem or canopy tile: a delay or link that carries the signal, or a
/// node or terminal that plays up to three notes, in a straight or a
/// turning (row start) variant.
#[derive(Debug, Clone, Copy, PartialEq, Eq, Structural)]
pub enum Tile {
    Delay(Tick),
    Link,
    Terminal(Option<Note>, Option<Note>, Option<Note>),
    Node(Option<Note>, Option<Note>),
    TurningDelay(Tick),
    TurningLink,
    TurningTerminal(Option<Note>, Option<Note>),
    TurningNode(Option<Note>),
}

/// The stem tile with `delay` (a link for no delay).
pub open spec fn spec_stem(delay: Tick, is_turning: bool) -> Tile {
    if delay == 0 {
        if is_turning { Tile::TurningLink } else { Tile::Link }
    } else {
        if is_turning { Tile::TurningDelay(delay) } else { Tile::Delay(delay) }
    }
}

/// The number of notes a canopy tile plays.
pub open spec fn canopy_size(is_turning: bool, is_terminal: bool) -> int {
    if is_turning {
        if is_terminal { 2 } else { 1 }
    } else {
        if is_terminal { 3 } else { 2 }
    }
}

/// The `k`-th note taken from the back of `ns`, if any.
pub open spec fn taken(ns: Seq<Note>, k: int) -> Option<Note> {
    if 0 <= k < ns.len() { Some(ns[ns.len() - 1 - k]) } else { None }
}

/// The canopy tile that plays the notes taken from the back of `ns`.
pub open spec fn spec_canopy(ns: Seq<Note>, is_turning: bool, is_terminal: bool) -> Tile {
    if is_turning {
        if is_terminal {
            Tile::TurningTerminal(taken(ns, 0), taken(ns, 1))
        } else {
            Tile::TurningNode(taken(ns, 0))
        }
    } else {
        if is_terminal {
            Tile::Terminal(taken(ns, 0), taken(ns, 1), taken(ns, 2))
        } else {
            Tile::Node(taken(ns, 0), taken(ns, 1))
        }
    }
}

/// `ns` without the notes a canopy of `size` takes from its back.
pub open spec fn left_after(ns: Seq<Note>, size: int) -> Seq<Note> {
    if size >= ns.len() { Seq::empty() } else { ns.take(ns.len() - size) }
}

/// The block of a tile at a layout slot: the tile's three-high column (0 to
/// 2), its left or turning side pair (3, 4) and its right pair (6, 7).
pub open spec fn spec_tile_block(t: Tile, index: u8, facing: Facing) -> Block {
    match t {
        Tile::Delay(delay) => if index == 0 {
            Block::Chain
        } else if index == 1 {
            Block::Repeater(delay, facing)
        } else {
            Block::Air
        },
        Tile::Link => if index == 0 {
            Block::Chain
        } else if index == 1 {
            Block::Wire
        } else {
            Block::Air
        },
        Tile::Terminal(center, left, right) => if index == 0 {
            Block::InstrumentBase(tone_of(center), Fallback::Chain)
        } else if index == 1 {
            Block::NoteBlock(tone_of(center), Fallback::Chain)
        } else if index == 3 {
            Block::InstrumentBase(tone_of(left), Fallback::Air)
        } else if index == 4 {
            Block::NoteBlock(tone_of(left), Fallback::Air)
        } else if index == 6 {
            Block::InstrumentBase(tone_of(right), Fallback::Air)
        } else if index == 7 {
            Block::NoteBlock(tone_of(right), Fallback::Air)
        } else {
            Block::Air
        },
        Tile::Node(left, right) => if index == 0 || index == 1 {
            Block::Chain
        } else if index == 2 {
            Block::Wire
        } else if index == 3 {
            Block::InstrumentBase(tone_of(left), Fallback::Air)
        } else if index == 4 {
            Block::NoteBlock(tone_of(left), Fallback::Air)
        } else if index == 6 {
            Block::InstrumentBase(tone_of(right), Fallback::Air)
        } else if index == 7 {
            Block::NoteBlock(tone_of(right), Fallback::Air)
        } else {
            Block::Air
        },
        Tile::TurningDelay(delay) => if index == 0 || index == 3 {
            Block::Chain
        } else if index == 1 {
            Block::Wire
        } else if index == 4 {
            Block::Repeater(delay, facing)
        } else {
            Block::Air
        },
        Tile::TurningLink => if index == 0 || index == 3 {
            Block::Chain
        } else if index == 1 || index == 4 {
            Block::Wire
        } else {
            Block::Air
        },
        Tile::TurningTerminal(center, side) => if index == 0 {
            Block::InstrumentBase(tone_of(center), Fallback::Chain)
        } else if index == 1 {
            Block::NoteBlock(tone_of(center), Fallback::Chain)
        } else if index == 3 {
            Block::InstrumentBase(tone_of(side), Fallback::Air)
        } else if index == 4 {
            Block::NoteBlock(tone_of(side), Fallback::Air)
        } else {
            Block::Air
        },
        Tile::TurningNode(side) => if index == 0 || index == 1 {
            Block::Chain
        } else if index == 2 {
            Block::Wire
        } else if index == 3 {
            Block::InstrumentBase(tone_of(side), Fallback::Air)
        } else if index == 4 {
            Block::NoteBlock(tone_of(side), Fallback::Air)
        } else {
            Block::Air
        },
    }
}

impl Tile {
    /// The stem tile with `delay`: a link for no delay.
    pub fn stem(delay: Tick, is_turning: bool) -> (r: Tile)
        ensures
            r == spec_stem(delay, is_turning),
    {
        if delay == 0 {
            if is_turning {
                Tile::TurningLink
            } else {
                Tile::Link
            }
        } else {
            if is_turning {
                Tile::TurningDelay(delay)
            } else {
                Tile::Delay(delay)
            }
        }
    }

    /// The canopy tile that plays the notes it takes from the back of
    /// `notes`: two or one when turning (terminal or not), three or two
    /// when straight.
    pub fn canopy(notes: &mut Vec<Note>, is_turning: bool, is_terminal: bool) -> (r: Tile)
        ensures
            r == spec_canopy(old(notes)@, is_turning, is_terminal),
            final(notes)@ == left_after(old(notes)@, canopy_size(is_turning, is_terminal)),
    {
        let ghost before = notes@;
        let a = notes.pop();
        let ghost after_a = notes@;
        if is_turning {
            if is_terminal {
                let b = notes.pop();
                proof {
                    assert(notes@ =~= left_after(before, 2));
                }
                Tile::TurningTerminal(a, b)
            } else {
                proof {
                    assert(notes@ =~= left_after(before, 1));
                }
                Tile::TurningNode(a)
            }
        } else {
            let b = notes.pop();
            if is_terminal {
                let c = notes.pop();
                proof {
                    assert(notes@ =~= left_after(before, 3));
                }
                Tile::Terminal(a, b, c)
            } else {
                proof {
                    assert(notes@ =~= left_after(before, 2));
                }
                Tile::Node(a, b)
            }
        }
    }

    /// The block of the tile at a layout slot, with repeaters facing
    /// `facing`.
    pub fn get_block(&self, index: u8, facing: Facing) -> (r: Block)
        ensures
            r == spec_tile_block(*self, index, facing),
    {
        match *self {
            Tile::Delay(delay) => if index == 0 {
                Block::Chain
            } else if index == 1 {
                Block::Repeater(delay, facing)
            } else {
                Block::Air
            },
            Tile::Link => if index == 0 {
                Block::Chain
            } else if index == 1 {
                Block::Wire
            } else {
                Block::Air
            },
            Tile::Terminal(center, left, right) => if index == 0 {
                Block::InstrumentBase(tone_of(center), Fallback::Chain)
            } else if index == 1 {
                Block::NoteBlock(tone_of(center), Fallback::Chain)
            } else if index == 3 {
                Block::InstrumentBase(tone_of(left), Fallback::Air)
            } else if index == 4 {
                Block::NoteBlock(tone_of(left), Fallback::Air)
            } else if index == 6 {
                Block::InstrumentBase(tone_of(right), Fallback::Air)
            } else if index == 7 {
                Block::NoteBlock(tone_of(right), Fallback::Air)
            } else {
                Block::Air
            },
            Tile::Node(left, right) => if index == 0 || index == 1 {
                Block::Chain
            } else if index == 2 {
                Block::Wire
            } else if index == 3 {
                Block::InstrumentBase(tone_of(left), Fallback::Air)
            } else if index == 4 {
                Block::NoteBlock(tone_of(left), Fallback::Air)
            } else if index == 6 {
                Block::InstrumentBase(tone_of(right), Fallback::Air)
            } else if index == 7 {
                Block::NoteBlock(tone_of(right), Fallback::Air)
            } else {
                Block::Air
            },
            Tile::TurningDelay(delay) => if index == 0 || index == 3 {
                Block::Chain
            } else if index == 1 {
                Block::Wire
            } else if index == 4 {
                Block::Repeater(delay, facing)
            } else {
                Block::Air
            },
            Tile::TurningLink => if index == 0 || index == 3 {
                Block::Chain
            } else if index == 1 || index == 4 {
                Block::Wire
            } else {
                Block::Air
            },
            Tile::TurningTerminal(center, side) => if index == 0 {
                Block::InstrumentBase(tone_of(center), Fallback::Chain)
            } else if index == 1 {
                Block::NoteBlock(tone_of(center), Fallback::Chain)
            } else if index == 3 {
                Block::InstrumentBase(tone_of(side), Fallback::Air)
            } else if index == 4 {
                Block::NoteBlock(tone_of(side), Fallback::Air)
            } else {
                Block::Air
            },
            Tile::TurningNode(side) => if index == 0 || index == 1 {
                Block::Chain
            } else if index == 2 {
                Block::Wire
            } else if index == 3 {
                Block::InstrumentBase(tone_of(side), Fallback::Air)
            } else if index == 4 {
                Block::NoteBlock(tone_of(side), Fallback::Air)
            } else {
                Block::Air
            },
        }
    }
}

// Track
//
// ++++++++++++============++++++++++++============++++++++++++============

/// A stem tile: one that carries the signal.
pub open spec fn is_stem(t: Tile) -> bool {
    t is Delay || t is Link || t is TurningDelay || t is TurningLink
}

/// A turning tile, placed at a row start.
pub open spec fn is_turning(t: Tile) -> bool {
    t is TurningDelay || t is TurningLink || t is TurningTerminal || t is TurningNode
}

/// The delay a tile adds to the signal.
pub open spec fn delay_of(t: Tile) -> int {
    match t {
        Tile::Delay(d) => d as int,
        Tile::TurningDelay(d) => d as int,
        _ => 0,
    }
}

/// The notes of an optional note.
pub open spec fn some_note(n: Option<Note>) -> Seq<Note> {
    match n {
        Some(x) => seq![x],
        None => Seq::empty(),
    }
}

/// The notes a tile plays, slot by slot.
pub open spec fn tile_notes(t: Tile) -> Seq<Note> {
    match t {
        Tile::Terminal(a, b, c) => some_note(a) + some_note(b) + some_note(c),
        Tile::Node(a, b) => some_note(a) + some_note(b),
        Tile::TurningTerminal(a, b) => some_note(a) + some_note(b),
        Tile::TurningNode(a) => some_note(a),
        _ => Seq::empty(),
    }
}

/// The tones of the note blocks among the first `n` slots of a tile, slot
/// by slot.
pub open spec fn sounding(t: Tile, facing: Facing, n: int) -> Seq<Tone>
    decreases n,
{
    if n <= 0 {
        Seq::empty()
    } else {
        sounding(t, facing, n - 1) + match spec_tile_block(t, (n - 1) as u8, facing) {
            Block::NoteBlock(Some(x), _) => seq![x],
            _ => Seq::empty(),
        }
    }
}

/// Law: the note blocks of a tile, read slot by slot, play exactly the
/// tile's notes in their order (each note in one note block, none twice,
/// none dropped), and every note block stands on the block that gives it
/// its sound.
pub proof fn lemma_tile_sounds(t: Tile, facing: Facing)
    ensures
        sounding(t, facing, 8) == tile_notes(t).map_values(|n: Note| n.tone),
        forall|i: u8|
            #[trigger] spec_tile_block(t, i, facing) matches Block::NoteBlock(x, fb) ==> i >= 1 && spec_tile_block(
                t,
                (i - 1) as u8,
                facing,
            ) == Block::InstrumentBase(x, fb),
{
    lemma_tile_sounding(t, facing);
    lemma_tile_bases(t, facing);
}

#[verifier::spinoff_prover]
proof fn lemma_tile_bases(t: Tile, facing: Facing)
    ensures
        forall|i: u8|
            #[trigger] spec_tile_block(t, i, facing) matches Block::NoteBlock(x, fb) ==> i >= 1 && spec_tile_block(
                t,
                (i - 1) as u8,
                facing,
            ) == Block::InstrumentBase(x, fb),
{
}

#[verifier::spinoff_prover]
#[verifier::rlimit(40)]
proof fn lemma_tile_sounding(t: Tile, facing: Facing)
    ensures
        sounding(t, facing, 8) == tile_notes(t).map_values(|n: Note| n.tone),
{
    reveal_with_fuel(sounding, 9);
    match t {
        Tile::Terminal(a, b, c) => {
            assert(sounding(t, facing, 8) =~= tile_notes(t).map_values(|n: Note| n.tone));
        },
        Tile::Node(a, b) => {
            assert(sounding(t, facing, 8) =~= tile_notes(t).map_values(|n: Note| n.tone));
        },
        Tile::TurningTerminal(a, b) => {
            assert(sounding(t, facing, 8) =~= tile_notes(t).map_values(|n: Note| n.tone));
        },
        Tile::TurningNode(a) => {
            assert(sounding(t, facing, 8) =~= tile_notes(t).map_values(|n: Note| n.tone));
        },
        _ => {
            assert(sounding(t, facing, 8) =~= tile_notes(t).map_values(|n: Note| n.tone));
        },
    }
}

/// The total delay of the first `n` tiles.
pub open spec fn delay_sum(ts: Seq<Tile>, n: int) -> int
    decreases n,
{
    if n <= 0 { 0 } else { delay_sum(ts, n - 1) + delay_of(ts[n - 1]) }
}

/// The notes the first `n` tiles play, in order.
pub open spec fn played(ts: Seq<Tile>, n: int) -> Seq<Note>
    decreases n,
{
    if n <= 0 { Seq::empty() } else { played(ts, n - 1) + tile_notes(ts[n - 1]) }
}

/// The notes of the first `m` ticks, each tick's notes taken from the back.
pub open spec fn tick_notes(timed: Seq<(Tick, Vec<Note>)>, m: int) -> Seq<Note>
    decreases m,
{
    if m <= 0 { Seq::empty() } else { tick_notes(timed, m - 1) + timed[m - 1].1@.reverse() }
}

/// A tile placed at index `n` starts a row.
pub open spec fn starts_row(n: int, cols: Option<usize>) -> bool {
    match cols {
        Some(c) => n % (c as int) == 0,
        None => true,
    }
}

/// A pair placed at index `n` ends a row.
pub open spec fn ends_row(n: int, cols: Option<usize>) -> bool {
    match cols {
        Some(c) => (n + 2) % (c as int) == 0,
        None => false,
    }
}

/// The tiles come in stem and canopy pairs, turning exactly at row
/// starts.
pub open spec fn paired(ts: Seq<Tile>, cols: Option<usize>) -> bool {
    &&& ts.len() % 2 == 0
    &&& forall|k: int|
        0 <= k < ts.len() / 2 ==> is_stem(#[trigger] ts[2 * k]) && (is_turning(ts[2 * k]) <==> starts_row(2 * k, cols))
            && (is_turning(ts[2 * k + 1]) <==> starts_row(2 * k, cols))
}

/// The stem and canopy delays [`pop_delay`] chooses for a remaining delay:
/// with a repeater coarseness from 2 to 4, micro-timed pairs; with 1, a
/// pulse per pair; otherwise repeaters of 4; none once the rest fits the
/// note's own stem.
pub open spec fn delay_choice(delay: Tick, coarse: Tick, chain: bool, at_start: bool, at_end: bool) -> Option<(Tick, Tick)> {
    let micro = 2 <= coarse <= 4;
    if micro && !at_start && !at_end && delay > coarse * 2 {
        Some((coarse, coarse))
    } else if micro && chain && !at_start && delay >= coarse {
        Some(((coarse - 1) as Tick, 0))
    } else if micro && !chain && !at_start && delay > coarse {
        Some((coarse, 0))
    } else if micro && !chain && at_start && delay > coarse {
        Some((coarse, 0))
    } else if coarse == 1 && !chain && at_start && delay > 1 {
        Some((1, 0))
    } else if coarse == 1 && !chain && !at_start && delay > 1 {
        Some((1, 0))
    } else if at_start && delay > 4 {
        Some((4, 0))
    } else if !at_start && delay > 8 {
        Some((4, 4))
    } else if !at_start && delay > 4 {
        Some((4, 0))
    } else {
        None
    }
}

/// A track's tiles with its row width in tiles.
pub struct Track {
    tiles: Vec<Tile>,
    cols: Option<usize>,
}

impl Track {
    /// The tiles.
    pub closed spec fn spec_tiles(&self) -> Seq<Tile> {
        self.tiles@
    }

    /// The row width in tiles, if rows wrap.
    pub closed spec fn spec_cols(&self) -> Option<usize> {
        self.cols
    }

    /// The number of rows: the tiles over the row width, rounded up, or 1
    /// without wrapping.
    pub open spec fn spec_rows(&self) -> int {
        match self.spec_cols() {
            Some(c) => (self.spec_tiles().len() + c - 1) / (c as int),
            None => 1,
        }
    }

    /// The row width, or the tile count without wrapping.
    pub open spec fn spec_cols_or_len(&self) -> int {
        match self.spec_cols() {
            Some(c) => c as int,
            None => self.spec_tiles().len() as int,
        }
    }

    /// The row width, if any, is a positive even number of tiles.
    pub open spec fn wf(&self) -> bool {
        self.spec_cols() matches Some(c) ==> c >= 2 && c % 2 == 0
    }

    fn rows(&self) -> (r: usize)
        requires
            self.wf(),
        ensures
            r == self.spec_rows(),
    {
        match self.cols {
            Some(c) => {
                let n = self.tiles.len();
                proof {
                    assert((n + c - 1) / (c as int) == (n as int) / (c as int) + if (n as int) % (c as int) == 0 { 0int } else { 1int }) by (nonlinear_arith)
                        requires
                            c > 0,
                    ;
                }
                if n % c == 0 {
                    n / c
                } else {
                    proof {
                        assert(n / c < n) by (nonlinear_arith)
                            requires
                                (n as int) % (c as int) != 0,
                                c > 0,
                        ;
                    }
                    n / c + 1
                }
            },
            None => 1,
        }
    }

    fn cols_or_len(&self) -> (r: usize)
        ensures
            r == self.spec_cols_or_len(),
    {
        match self.cols {
            Some(c) => c,
            None => self.tiles.len(),
        }
    }

    /// The tile at `offset` in row `row`, if any.
    fn get_tile(&self, row: i64, offset: usize) -> (r: Option<&Tile>)
        ensures
            r matches Some(t) ==> row >= 0 && row * self.spec_cols_or_len() + offset < self.spec_tiles().len()
                && *t == self.spec_tiles()[row * self.spec_cols_or_len() + offset],
            r is None ==> !(row >= 0 && row * self.spec_cols_or_len() + offset < self.spec_tiles().len()),
    {
        if row < 0 {
            return None;
        }
        let count = self.tiles.len();
        let width = self.cols_or_len();
        proof {
            assert((row as int) * (width as int) < 340282366920938463463374607431768211455 - 18446744073709551616) by (nonlinear_arith)
                requires
                    0 <= row < 9223372036854775808,
                    0 <= width < 18446744073709551616,
            ;
        }
        let product: u128 = (row as u128) * (width as u128);
        let index: u128 = product + offset as u128;
        if index < count as u128 {
            Some(&self.tiles[index as usize])
        } else {
            None
        }
    }

    /// The block of the tile at `col` in row `row` at a layout slot; its
    /// repeaters face west at the row's edge columns, else north on even
    /// rows and south on odd rows.
    fn block_at(&self, row: i64, col: usize, index: u8) -> (r: Block)
        ensures
            r == if row >= 0 && row * self.spec_cols_or_len() + col < self.spec_tiles().len() {
                spec_tile_block(self.spec_tiles()[row * self.spec_cols_or_len() + col], index, facing_at(row as int, col as int))
            } else {
                Block::Air
            },
    {
        let facing = if col < 2 {
            Facing::West
        } else if row % 2 == 0 {
            Facing::North
        } else {
            Facing::South
        };
        match self.get_tile(row, col) {
            Some(t) => t.get_block(index, facing),
            None => Block::Air,
        }
    }

    fn at_row_start(&self) -> (r: bool)
        requires
            self.wf(),
        ensures
            r == starts_row(self.spec_tiles().len() as int, self.spec_cols()),
    {
        match self.cols {
            Some(c) => self.tiles.len() % c == 0,
            None => true,
        }
    }

    fn at_row_end(&self) -> (r: bool)
        requires
            self.wf(),
        ensures
            r == ends_row(self.spec_tiles().len() as int, self.spec_cols()),
    {
        match self.cols {
            Some(c) => {
                let n = self.tiles.len();
                proof {
                    assert(((n + 2) % (c as int) == 0) == ((n as int) % (c as int) == c - 2)) by (nonlinear_arith)
                        requires
                            c >= 2,
                    ;
                }
                n % c == c - 2
            },
            None => false,
        }
    }
}

/// The facing of repeaters at `col` in row `row`.
pub open spec fn facing_at(row: int, col: int) -> Facing {
    if col < 2 {
        Facing::West
    } else if row % 2 == 0 {
        Facing::North
    } else {
        Facing::South
    }
}

/// Each tick's notes start at its anchor: a canopy that the total delay
/// before it times at the tick plus one, after the notes of the earlier
/// ticks.
pub open spec fn anchored(ts: Seq<Tile>, timed: Seq<(Tick, Vec<Note>)>, anchors: Seq<int>) -> bool {
    &&& anchors.len() == timed.len()
    &&& forall|i: int|
        0 <= i < timed.len() ==> {
            let a = #[trigger] anchors[i];
            &&& 0 < a < ts.len()
            &&& a % 2 == 1
            &&& delay_sum(ts, a) == timed[i].0 + 1
            &&& played(ts, a) == tick_notes(timed, i)
        }
}

/// The last tile is a delay of exactly `coarse`: the signal chains on.
pub open spec fn chains(ts: Seq<Tile>, coarse: Tick) -> bool {
    ts.len() > 0 && ts.last() == Tile::Delay(coarse)
}

/// The canopy of a delay pair: a delay, or an empty terminal.
pub open spec fn delay_canopy(c: Tick, at_start: bool) -> Tile {
    if c == 0 { spec_canopy(Seq::empty(), at_start, true) } else { spec_stem(c, false) }
}

/// The repeater coarseness a track's delays are cut to: a quarter of the
/// game-tick coarseness, or no limit.
pub open spec fn repeater_coarseness(coarse: Option<Tick>) -> Tick {
    match coarse {
        Some(l) => l / 4,
        None => u32::MAX,
    }
}

/// The tiles `ts` followed by the delay pairs that carry `delay` on, as
/// [`delay_choice`] picks them pair by pair, with the delay left over for
/// the note's own stem.
pub open spec fn with_delays(ts: Seq<Tile>, delay: Tick, coarse: Tick, cols: Option<usize>) -> (Seq<Tile>, Tick)
    decreases delay,
{
    let n = ts.len() as int;
    let at_start = starts_row(n, cols);
    match delay_choice(delay, coarse, chains(ts, coarse), at_start, ends_row(n, cols)) {
        Some(sc) => if 0 < sc.0 + sc.1 < delay {
            with_delays(
                ts.push(spec_stem(sc.0, at_start)).push(delay_canopy(sc.1, at_start)),
                (delay - sc.0 - sc.1) as Tick,
                coarse,
                cols,
            )
        } else {
            (ts, delay)
        },
        None => (ts, delay),
    }
}

/// Whether a further canopy of a tick is a terminal, with `left` notes
/// still to play: the first further one when it turns and the rest fits
/// it; a later one when its pair does not end a row and the rest fits it.
pub open spec fn extra_terminal(first: bool, at_start: bool, at_end: bool, left: int) -> bool {
    if first {
        at_start && left <= 2
    } else {
        !at_end && left <= if at_start { 2int } else { 3int }
    }
}

/// The tiles `ts` followed by the link pairs whose canopies play the notes
/// `ns`, taken from the back.
pub open spec fn with_notes(ts: Seq<Tile>, ns: Seq<Note>, first: bool, cols: Option<usize>) -> Seq<Tile>
    decreases ns.len(),
{
    if ns.len() == 0 {
        ts
    } else {
        let n = ts.len() as int;
        let at_start = starts_row(n, cols);
        let terminal = extra_terminal(first, at_start, ends_row(n, cols), ns.len() as int);
        let rest = left_after(ns, canopy_size(at_start, terminal));
        if rest.len() < ns.len() {
            with_notes(ts.push(spec_stem(0, at_start)).push(spec_canopy(ns, at_start, terminal)), rest, false, cols)
        } else {
            ts
        }
    }
}

/// The tiles `ts` followed by those of one tick `delay` after the previous
/// one: its delay pairs, the pair of its own stem and first canopy (a
/// terminal unless it ends a row), then the pairs for its other notes.
pub open spec fn with_tick(ts: Seq<Tile>, delay: Tick, ns: Seq<Note>, coarse: Tick, cols: Option<usize>) -> Seq<Tile> {
    let (mid, d) = with_delays(ts, delay, coarse, cols);
    let n = mid.len() as int;
    let at_start = starts_row(n, cols);
    let terminal = !ends_row(n, cols);
    with_notes(
        mid.push(spec_stem(d, at_start)).push(spec_canopy(ns, at_start, terminal)),
        left_after(ns, canopy_size(at_start, terminal)),
        true,
        cols,
    )
}

/// The delay from the previous tick to the `i`-th: wrapping from
/// `u32::MAX` for the first.
pub open spec fn tick_delay(timed: Seq<(Tick, Vec<Note>)>, i: int) -> Tick {
    crate::codec::wrap_sub(timed[i].0, if i == 0 { u32::MAX } else { timed[i - 1].0 })
}

/// The tiles of the first `m` ticks.
pub open spec fn track_tiles(timed: Seq<(Tick, Vec<Note>)>, m: int, coarse: Tick, cols: Option<usize>) -> Seq<Tile>
    decreases m,
{
    if m <= 0 {
        Seq::empty()
    } else {
        with_tick(track_tiles(timed, m - 1, coarse, cols), tick_delay(timed, m - 1), timed[m - 1].1@, coarse, cols)
    }
}

/// The delay pair placed for the remaining `delay`, with the
/// delay it consumes.
fn pop_delay(delay: Tick, coarse: Tick, track: &Track) -> (r: Option<(Tile, Tile, Tick)>)
    requires
        track.wf(),
    ensures
        ({
            let n = track.spec_tiles().len() as int;
            let at_start = starts_row(n, track.spec_cols());
            match delay_choice(delay, coarse, chains(track.spec_tiles(), coarse), at_start, ends_row(n, track.spec_cols())) {
                None => r is None,
                Some(sc) => r == Some((spec_stem(sc.0, at_start), delay_canopy(sc.1, at_start), (sc.0 + sc.1) as Tick)),
            }
        }),
{
    let n = track.tiles.len();
    let chain = n > 0 && match track.tiles[n - 1] {
        Tile::Delay(c) => c == coarse,
        _ => false,
    };
    let at_start = track.at_row_start();
    let at_end = track.at_row_end();
    let micro = 2 <= coarse && coarse <= 4;
    let choice: Option<(Tick, Tick)> = if micro && !at_start && !at_end && delay > coarse * 2 {
        Some((coarse, coarse))
    } else if micro && chain && !at_start && delay >= coarse {
        Some((coarse - 1, 0))
    } else if micro && !chain && !at_start && delay > coarse {
        Some((coarse, 0))
    } else if micro && !chain && at_start && delay > coarse {
        Some((coarse, 0))
    } else if coarse == 1 && !chain && at_start && delay > 1 {
        Some((1, 0))
    } else if coarse == 1 && !chain && !at_start && delay > 1 {
        Some((1, 0))
    } else if at_start && delay > 4 {
        Some((4, 0))
    } else if !at_start && delay > 8 {
        Some((4, 4))
    } else if !at_start && delay > 4 {
        Some((4, 0))
    } else {
        None
    };
    match choice {
        Some((stem_delay, canopy_delay)) => place_delay(stem_delay, canopy_delay, at_start),
        None => None,
    }
}

/// The delay pair with a stem and a canopy delay.
fn place_delay(stem_delay: Tick, canopy_delay: Tick, at_start: bool) -> (r: Option<(Tile, Tile, Tick)>)
    requires
        stem_delay <= 4,
        canopy_delay <= 4,
    ensures
        r == Some((spec_stem(stem_delay, at_start), delay_canopy(canopy_delay, at_start), (stem_delay + canopy_delay) as Tick)),
{
    let stem = Tile::stem(stem_delay, at_start);
    let canopy = if canopy_delay == 0 {
        Tile::canopy(&mut Vec::new(), at_start, true)
    } else {
        Tile::stem(canopy_delay, false)
    };
    Some((stem, canopy, stem_delay + canopy_delay))
}

/// A repeater tile delays by 1 to 4 redstone ticks.
pub open spec fn delay_ok(t: Tile) -> bool {
    match t {
        Tile::Delay(x) => 1 <= x <= 4,
        Tile::TurningDelay(x) => 1 <= x <= 4,
        _ => true,
    }
}

/// Every repeater tile delays by 1 to 4 redstone ticks.
pub open spec fn delays_ok(ts: Seq<Tile>) -> bool {
    forall|k: int| 0 <= k < ts.len() ==> delay_ok(#[trigger] ts[k])
}

/// Without a delay pair to place, the rest fits the note's own stem.
proof fn lemma_choice_none(delay: Tick, coarse: Tick, chain: bool, at_start: bool, at_end: bool)
    requires
        delay_choice(delay, coarse, chain, at_start, at_end) is None,
    ensures
        delay <= 4,
{
}

/// What a delay choice consumes.
proof fn lemma_choice(delay: Tick, coarse: Tick, chain: bool, at_start: bool, at_end: bool)
    requires
        delay_choice(delay, coarse, chain, at_start, at_end) is Some,
    ensures
        ({
            let sc = delay_choice(delay, coarse, chain, at_start, at_end).unwrap();
            &&& 1 <= sc.0 <= 4
            &&& sc.1 <= 4
            &&& sc.0 + sc.1 < delay
            &&& sc.1 != 0 ==> !at_start
        }),
{
}

/// Appending a tile keeps the sums over earlier prefixes.
proof fn lemma_prefix_push(ts: Seq<Tile>, t: Tile, a: int)
    requires
        0 <= a <= ts.len(),
    ensures
        delay_sum(ts.push(t), a) == delay_sum(ts, a),
        played(ts.push(t), a) == played(ts, a),
    decreases a,
{
    if a > 0 {
        lemma_prefix_push(ts, t, a - 1);
        assert(ts.push(t)[a - 1] == ts[a - 1]);
    }
}

/// A canopy plays the notes it takes from the back, in the order taken.
proof fn lemma_canopy_notes(ns: Seq<Note>, is_turning: bool, is_terminal: bool)
    ensures
        tile_notes(spec_canopy(ns, is_turning, is_terminal)) + left_after(ns, canopy_size(is_turning, is_terminal)).reverse()
            == ns.reverse(),
        left_after(ns, canopy_size(is_turning, is_terminal)).len() < ns.len() || ns.len() == 0,
{
    let size = canopy_size(is_turning, is_terminal);
    let t = spec_canopy(ns, is_turning, is_terminal);
    let k = if size < ns.len() { size } else { ns.len() as int };
    assert(tile_notes(t) =~= ns.reverse().take(k)) by {
        assert(some_note(taken(ns, 0)) =~= ns.reverse().take(if 1 < ns.len() { 1 } else { ns.len() as int }));
        if ns.len() >= 1 {
            assert(ns.reverse()[0] == ns[ns.len() - 1]);
        }
        if ns.len() >= 2 {
            assert(ns.reverse()[1] == ns[ns.len() - 2]);
        }
        if ns.len() >= 3 {
            assert(ns.reverse()[2] == ns[ns.len() - 3]);
        }
    }
    assert(left_after(ns, size).reverse() =~= ns.reverse().skip(k));
    assert(ns.reverse().take(k) + ns.reverse().skip(k) =~= ns.reverse());
}

/// Appending a stem and a canopy adds their delays and notes.
proof fn lemma_push_pair(ts: Seq<Tile>, x: Tile, y: Tile)
    ensures
        ({
            let t = ts.push(x).push(y);
            let n = ts.len() as int;
            &&& delay_sum(t, n + 1) == delay_sum(ts, n) + delay_of(x)
            &&& played(t, n + 1) == played(ts, n) + tile_notes(x)
            &&& delay_sum(t, n + 2) == delay_sum(ts, n) + delay_of(x) + delay_of(y)
            &&& played(t, n + 2) == played(ts, n) + tile_notes(x) + tile_notes(y)
            &&& forall|a: int| 0 <= a <= n ==> delay_sum(t, a) == delay_sum(ts, a) && played(t, a) == played(ts, a)
        }),
{
    let n = ts.len() as int;
    let t = ts.push(x).push(y);
    assert forall|a: int| 0 <= a <= n implies delay_sum(t, a) == delay_sum(ts, a) && played(t, a) == played(ts, a) by {
        lemma_prefix_push(ts, x, a);
        lemma_prefix_push(ts.push(x), y, a);
    }
    lemma_prefix_push(ts.push(x), y, n + 1);
    assert(t[n] == x);
    assert(t[n + 1] == y);
    assert(delay_sum(t, n + 1) == delay_sum(t, n) + delay_of(x));
    assert(played(t, n + 1) == played(t, n) + tile_notes(x));
}

impl Track {
    /// Packs timed notes (redstone ticks in increasing order) into tiles:
    /// for each tick, delay pairs carry the signal until the rest of the
    /// delay since the previous tick fits the note's own stem, whose canopy
    /// then plays the tick's first notes; further pairs play the rest. Rows
    /// hold `columns` pairs when they wrap.
    #[verifier::spinoff_prover]
    #[verifier::rlimit(60)]
    fn new(timed: Vec<(Tick, Vec<Note>)>, coarse: Option<Tick>, columns: Option<usize>) -> (r: (Track, Ghost<Seq<int>>))
        requires
            forall|i: int, j: int| 0 <= i < j < timed@.len() ==> (#[trigger] timed@[i]).0 < (#[trigger] timed@[j]).0,
            forall|i: int| 0 <= i < timed@.len() ==> (#[trigger] timed@[i]).0 < u32::MAX,
            columns matches Some(c) ==> 0 < c <= usize::MAX / 2,
        ensures
            r.0.wf(),
            r.0.spec_cols() == match columns {
                Some(c) => Some((c * 2) as usize),
                None => None::<usize>,
            },
            paired(r.0.spec_tiles(), r.0.spec_cols()),
            delays_ok(r.0.spec_tiles()),
            timed@.len() == 0 ==> r.0.spec_tiles().len() == 0,
            timed@.len() > 0 ==> delay_sum(r.0.spec_tiles(), r.0.spec_tiles().len() as int) == timed@.last().0 + 1,
            played(r.0.spec_tiles(), r.0.spec_tiles().len() as int) == tick_notes(timed@, timed@.len() as int),
            anchored(r.0.spec_tiles(), timed@, r.1@),
            r.0.spec_tiles() == track_tiles(timed@, timed@.len() as int, repeater_coarseness(coarse), r.0.spec_cols()),
    {
        let repeater_coarse: Tick = match coarse {
            Some(l) => l / 4,
            None => 4294967295,
        };
        let cols: Option<usize> = match columns {
            Some(c) => Some(c * 2),
            None => None,
        };
        let mut track = Track { tiles: Vec::new(), cols };
        let ghost mut anchors: Seq<int> = Seq::empty();
        let ghost all = timed@;
        let n = timed.len();
        let mut queue = reversed(timed);
        let mut current: Tick = 4294967295;
        let mut i: usize = 0;
        while i < n
            invariant
                n == all.len(),
                i <= n,
                queue@ == all.subrange(i as int, n as int).reverse(),
                forall|a: int, b: int| 0 <= a < b < all.len() ==> (#[trigger] all[a]).0 < (#[trigger] all[b]).0,
                forall|a: int| 0 <= a < all.len() ==> (#[trigger] all[a]).0 < u32::MAX,
                track.wf(),
                track.cols == cols,
                paired(track.tiles@, cols),
                delays_ok(track.tiles@),
                played(track.tiles@, track.tiles@.len() as int) == tick_notes(all, i as int),
                current == if i == 0 { u32::MAX } else { all[i - 1].0 },
                i > 0 ==> delay_sum(track.tiles@, track.tiles@.len() as int) == current + 1,
                i == 0 ==> track.tiles@.len() == 0,
                track.tiles@ == track_tiles(all, i as int, repeater_coarse, cols),
                anchors.len() == i,
                forall|j: int|
                    0 <= j < i ==> {
                        let a = #[trigger] anchors[j];
                        &&& 0 < a < track.tiles@.len()
                        &&& a % 2 == 1
                        &&& delay_sum(track.tiles@, a) == all[j].0 + 1
                        &&& played(track.tiles@, a) == tick_notes(all, j)
                    },
            decreases n - i,
        {
            let ghost start_len = track.tiles@.len() as int;
            let (tick, mut notes) = match queue.pop() {
                Some(entry) => entry,
                None => (0, Vec::new()),
            };
            proof {
                assert(all.subrange(i as int, n as int).reverse().last() == all[i as int]);
            }
            let mut delay: Tick = wrapping_back(tick, current);
            let ghost delay0 = delay;
            let ghost ns0 = notes@;
            let ghost start_tiles = track.tiles@;
            proof {
                assert(delay0 == tick_delay(all, i as int));
            }
            current = tick;
            loop
                invariant
                    with_delays(track.tiles@, delay, repeater_coarse, cols) == with_delays(
                        start_tiles,
                        delay0,
                        repeater_coarse,
                        cols,
                    ),
                    track.wf(),
                    track.cols == cols,
                    paired(track.tiles@, cols),
                    delays_ok(track.tiles@),
                delays_ok(track.tiles@),
                    played(track.tiles@, track.tiles@.len() as int) == tick_notes(all, i as int),
                    delay_sum(track.tiles@, track.tiles@.len() as int) + delay == tick + 1,
                    delay >= 1,
                    start_len <= track.tiles@.len(),
                    forall|j: int|
                        0 <= j < i ==> {
                            let a = #[trigger] anchors[j];
                            &&& 0 < a < start_len
                            &&& a % 2 == 1
                            &&& delay_sum(track.tiles@, a) == all[j].0 + 1
                            &&& played(track.tiles@, a) == tick_notes(all, j)
                        },
                ensures
                    with_delays(track.tiles@, delay, repeater_coarse, cols) == (track.tiles@, delay),
                    delay_choice(
                        delay,
                        repeater_coarse,
                        chains(track.tiles@, repeater_coarse),
                        starts_row(track.tiles@.len() as int, cols),
                        ends_row(track.tiles@.len() as int, cols),
                    ) is None,
                decreases delay,
            {
                let ghost old_tiles = track.tiles@;
                let ghost at_start = starts_row(old_tiles.len() as int, cols);
                match pop_delay(delay, repeater_coarse, &track) {
                    Some((stem, canopy, consume)) => {
                        proof {
                            lemma_choice(
                                delay,
                                repeater_coarse,
                                chains(old_tiles, repeater_coarse),
                                at_start,
                                ends_row(old_tiles.len() as int, cols),
                            );
                        }
                        track.tiles.push(stem);
                        track.tiles.push(canopy);
                        delay = delay - consume;
                        proof {
                            let t = track.tiles@;
                            assert(t == old_tiles.push(stem).push(canopy));
                            assert forall|k: int| 0 <= k < t.len() implies delay_ok(#[trigger] t[k]) by {
                                if k < old_tiles.len() {
                                    assert(t[k] == old_tiles[k]);
                                }
                            }
                            lemma_push_pair(old_tiles, stem, canopy);
                            assert(tile_notes(stem) =~= Seq::<Note>::empty());
                            assert(tile_notes(canopy) =~= Seq::<Note>::empty());
                            assert(played(t, t.len() as int) =~= played(old_tiles, old_tiles.len() as int));
                            assert forall|k: int| 0 <= k < t.len() / 2 implies is_stem(#[trigger] t[2 * k]) && (is_turning(t[2 * k])
                                <==> starts_row(2 * k, cols)) && (is_turning(t[2 * k + 1]) <==> starts_row(2 * k, cols)) by {
                                if k < old_tiles.len() / 2 {
                                    assert(t[2 * k] == old_tiles[2 * k]);
                                    assert(t[2 * k + 1] == old_tiles[2 * k + 1]);
                                } else {
                                    assert(2 * k == old_tiles.len());
                                }
                            }
                        }
                    },
                    None => {
                        break;
                    },
                }
            }
            let ghost mid = track.tiles@;
            proof {
                lemma_choice_none(
                    delay,
                    repeater_coarse,
                    chains(mid, repeater_coarse),
                    starts_row(mid.len() as int, cols),
                    ends_row(mid.len() as int, cols),
                );
            }
            let at_start = track.at_row_start();
            let at_end = track.at_row_end();
            let ghost ns = notes@;
            let stem = Tile::stem(delay, at_start);
            let canopy = Tile::canopy(&mut notes, at_start, !at_end);
            track.tiles.push(stem);
            track.tiles.push(canopy);
            proof {
                let t = track.tiles@;
                let a = mid.len() + 1int;
                assert(t == mid.push(stem).push(canopy));
                lemma_canopy_notes(ns, at_start, !at_end);
                lemma_push_pair(mid, stem, canopy);
                assert(tile_notes(stem) =~= Seq::<Note>::empty());
                assert(delay_sum(t, a) == tick + 1);
                assert(played(t, a) == tick_notes(all, i as int));
                assert(delay_sum(t, t.len() as int) == tick + 1);
                assert(played(t, t.len() as int) =~= tick_notes(all, i as int) + tile_notes(canopy));
                assert(tick_notes(all, i + 1) == tick_notes(all, i as int) + ns.reverse());
                assert forall|k: int| 0 <= k < t.len() / 2 implies is_stem(#[trigger] t[2 * k]) && (is_turning(t[2 * k])
                    <==> starts_row(2 * k, cols)) && (is_turning(t[2 * k + 1]) <==> starts_row(2 * k, cols)) by {
                    if k < mid.len() / 2 {
                        assert(t[2 * k] == mid[2 * k]);
                        assert(t[2 * k + 1] == mid[2 * k + 1]);
                    } else {
                        assert(2 * k == mid.len());
                    }
                }
                anchors = anchors.push(a);
            }
            let mut first = true;
            let ghost goal = with_tick(start_tiles, delay0, ns0, repeater_coarse, cols);
            proof {
                assert(goal == with_notes(track.tiles@, notes@, first, cols));
            }
            while notes.len() > 0
                invariant
                    with_notes(track.tiles@, notes@, first, cols) == goal,
                    track.wf(),
                    track.cols == cols,
                    paired(track.tiles@, cols),
                    delays_ok(track.tiles@),
                delays_ok(track.tiles@),
                    played(track.tiles@, track.tiles@.len() as int) + notes@.reverse() == tick_notes(all, i + 1),
                    delay_sum(track.tiles@, track.tiles@.len() as int) == tick + 1,
                    anchors.len() == i + 1,
                    forall|j: int|
                        0 <= j <= i ==> {
                            let a = #[trigger] anchors[j];
                            &&& 0 < a < track.tiles@.len()
                            &&& a % 2 == 1
                            &&& delay_sum(track.tiles@, a) == all[j].0 + 1
                            &&& played(track.tiles@, a) == tick_notes(all, j)
                        },
                decreases notes@.len(),
            {
                let ghost old_tiles = track.tiles@;
                let ghost ns = notes@;
                let at_start = track.at_row_start();
                let at_end = track.at_row_end();
                let is_terminal = if first {
                    at_start && notes.len() <= 2
                } else {
                    !at_end && notes.len() <= if at_start {
                        2
                    } else {
                        3
                    }
                };
                first = false;
                let stem = Tile::stem(0, at_start);
                let canopy = Tile::canopy(&mut notes, at_start, is_terminal);
                track.tiles.push(stem);
                track.tiles.push(canopy);
                proof {
                    let t = track.tiles@;
                    assert(t == old_tiles.push(stem).push(canopy));
                    lemma_canopy_notes(ns, at_start, is_terminal);
                    lemma_push_pair(old_tiles, stem, canopy);
                    assert(tile_notes(stem) =~= Seq::<Note>::empty());
                    assert(delay_sum(t, t.len() as int) == tick + 1);
                    assert(played(t, t.len() as int) =~= played(old_tiles, old_tiles.len() as int) + tile_notes(canopy));
                    assert(played(t, t.len() as int) + notes@.reverse() =~= played(old_tiles, old_tiles.len() as int)
                        + ns.reverse());
                    assert forall|k: int| 0 <= k < t.len() / 2 implies is_stem(#[trigger] t[2 * k]) && (is_turning(t[2 * k])
                        <==> starts_row(2 * k, cols)) && (is_turning(t[2 * k + 1]) <==> starts_row(2 * k, cols)) by {
                        if k < old_tiles.len() / 2 {
                            assert(t[2 * k] == old_tiles[2 * k]);
                            assert(t[2 * k + 1] == old_tiles[2 * k + 1]);
                        } else {
                            assert(2 * k == old_tiles.len());
                        }
                    }
                }
            }
            proof {
                assert(notes@.reverse() =~= Seq::<Note>::empty());
                assert(played(track.tiles@, track.tiles@.len() as int) + notes@.reverse() =~= played(
                    track.tiles@,
                    track.tiles@.len() as int,
                ));
                assert(queue@ =~= all.subrange(i + 1, n as int).reverse());
            }
            i = i + 1;
        }
        (track, Ghost(anchors))
    }
}

// CompactLayout
//
// ++++++++++++============++++++++++++============++++++++++++============

/// A block position: east, up and south.
#[derive(Debug, Clone, Copy, PartialEq, Eq, Structural)]
pub struct BlockPos {
    pub x: i32,
    pub y: i32,
    pub z: i32,
}

/// Which direction sub-layouts are placed along.
#[derive(Debug, Clone, Copy, PartialEq, Eq, Structural)]
pub enum Axis {
    /// East-west (x).
    Easting,
    /// Vertical (y).
    Elevation,
    /// South-north (z).
    Southing,
}

impl Axis {
    /// The unit step along the axis.
    pub fn unit(self) -> (r: BlockPos)
        ensures
            r == match self {
                Axis::Easting => BlockPos { x: 1, y: 0, z: 0 },
                Axis::Elevation => BlockPos { x: 0, y: 1, z: 0 },
                Axis::Southing => BlockPos { x: 0, y: 0, z: 1 },
            },
    {
        match self {
            Axis::Easting => BlockPos { x: 1, y: 0, z: 0 },
            Axis::Elevation => BlockPos { x: 0, y: 1, z: 0 },
            Axis::Southing => BlockPos { x: 0, y: 0, z: 1 },
        }
    }
}

/// Whether a block falls without a floor under it.
pub trait NeedsFloor {
    /// Whether this block needs a floor to hold it up.
    fn needs_floor(&self) -> bool;
}

/// A block needs a floor where it is sand: the instrument block of a
/// renderable snare drum note.
pub open spec fn spec_needs_floor(b: Block) -> bool {
    match b {
        Block::InstrumentBase(Some(t), _) => t.spec_is_valid() && t.instrument == Instrument::SnareDrum,
        _ => false,
    }
}

impl NeedsFloor for Block {
    fn needs_floor(&self) -> (r: bool)
        ensures
            r == spec_needs_floor(*self),
    {
        match self {
            Block::InstrumentBase(Some(t), _) => t.is_valid() && match t.instrument {
                Instrument::SnareDrum => true,
                _ => false,
            },
            _ => false,
        }
    }
}

/// `v` as an `i32`, saturated at `i32::MAX`.
pub open spec fn clamp_i32(v: int) -> i32 {
    if v > i32::MAX { i32::MAX } else { v as i32 }
}

fn to_i32(v: usize) -> (r: i32)
    ensures
        r == clamp_i32(v as int),
{
    if v > 2147483647 {
        2147483647
    } else {
        v as i32
    }
}

/// A single compact note block track: one redstone sub-track's tiles in a
/// three-high zigzag of rows whose teeth interlock.
pub struct CompactLayout {
    track: Track,
    easting: i32,
    southing: i32,
}

/// The height of compact layouts.
pub const ELEVATION: i32 = 3;

/// The tile column at `southing` in row `row`: rows run south on even rows
/// and north on odd ones.
pub open spec fn tile_col(southing: int, row: int, width: int) -> int {
    if row % 2 == 0 { southing + 1 } else { width - southing }
}

/// `l` lays out the notes grouped by redstone tick: its rows are the
/// wrap length's width in tiles (twice the wrap length), its tiles pair
/// stems with canopies, play the notes in order, and time each tick's notes
/// at its tick, its repeaters delay by 1 to 4 redstone ticks and all its
/// delays add up to the last tick plus one; its extent follows from the rows
/// and the width.
pub open spec fn lays_out(l: CompactLayout, notes: Seq<(Tick, Vec<Note>)>, coarse: Option<Tick>, wrap_length: Option<usize>) -> bool {
    let t = l.spec_track();
    &&& t.wf()
    &&& t.spec_cols() == match wrap_length {
        Some(c) => Some((c * 2) as usize),
        None => None::<usize>,
    }
    &&& paired(t.spec_tiles(), t.spec_cols())
    &&& played(t.spec_tiles(), t.spec_tiles().len() as int) == tick_notes(notes, notes.len() as int)
    &&& exists|anchors: Seq<int>| #[trigger] anchored(t.spec_tiles(), notes, anchors)
    &&& t.spec_tiles() == track_tiles(notes, notes.len() as int, repeater_coarseness(coarse), t.spec_cols())
    &&& delays_ok(t.spec_tiles())
    &&& notes.len() == 0 ==> t.spec_tiles().len() == 0
    &&& notes.len() > 0 ==> delay_sum(t.spec_tiles(), t.spec_tiles().len() as int) == notes.last().0 + 1
    &&& l.spec_easting() == clamp_i32(t.spec_rows() * 2 + 1)
    &&& l.spec_southing() == clamp_i32(t.spec_cols_or_len())
}

impl CompactLayout {
    /// The track.
    pub closed spec fn spec_track(&self) -> Track {
        self.track
    }

    /// The extent east: two blocks per row and one more (saturated).
    pub closed spec fn spec_easting(&self) -> i32 {
        self.easting
    }

    /// The extent south: the row width (saturated).
    pub closed spec fn spec_southing(&self) -> i32 {
        self.southing
    }


    /// Builds a compact layout from notes grouped by redstone tick (one
    /// redstone sub-track, ticks increasing), with an optional repeater
    /// coarseness in game ticks and an optional row wrap in tiles.
    pub fn new(notes: Vec<(Tick, Vec<Note>)>, coarse: Option<Tick>, wrap_length: Option<usize>) -> (r: Self)
        requires
            forall|i: int, j: int| 0 <= i < j < notes@.len() ==> (#[trigger] notes@[i]).0 < (#[trigger] notes@[j]).0,
            forall|i: int| 0 <= i < notes@.len() ==> (#[trigger] notes@[i]).0 < u32::MAX,
            wrap_length matches Some(c) ==> 0 < c <= usize::MAX / 2,
        ensures
            lays_out(r, notes@, coarse, wrap_length),
    {
        let ghost input = notes@;
        let (track, anchors) = Track::new(notes, coarse, wrap_length);
        let rows = track.rows();
        let easting = if rows > 1073741822 {
            2147483647
        } else {
            (rows * 2 + 1) as i32
        };
        let southing = to_i32(track.cols_or_len());
        proof {
            assert(anchored(track.tiles@, input, anchors@));
        }
        CompactLayout { track, easting, southing }
    }


}

/// The block of the track's tile at `col` in row `row` at slot `index`, or
/// air where there is no tile.
pub open spec fn track_block(t: Track, row: int, col: int, index: int) -> Block {
    let w = t.spec_cols_or_len();
    if row >= 0 && row * w + col < t.spec_tiles().len() {
        spec_tile_block(t.spec_tiles()[row * w + col], index as u8, facing_at(row, col))
    } else {
        Block::Air
    }
}

impl Layout for CompactLayout {
    /// Any compact layout is well formed.
    open spec fn wf(&self) -> bool {
        true
    }

    /// The extents east and south, three blocks high.
    open spec fn spec_size(&self) -> BlockPos {
        BlockPos { x: self.spec_easting(), y: ELEVATION, z: self.spec_southing() }
    }

    /// The block at a position inside the layout: the north and south edges
    /// hold the turns between rows, odd columns east the trunk of a row,
    /// even columns its teeth, which zigzag between the rows on either side.
    open spec fn spec_block(&self, pos: BlockPos) -> Block {
        let t = self.spec_track();
        let x = pos.x as int;
        let y = pos.y as int;
        let z = pos.z as int;
        if z == 0 {
            let e = x + 1;
            let group = e % 4;
            track_block(t, e / 4 * 2, group / 2, y + (group % 2) * 3)
        } else if z + 1 == self.spec_southing() {
            let e = x + 3;
            let group = e % 4;
            track_block(t, e / 4 * 2 - 1, group / 2, y + (group % 2) * 3)
        } else if x % 2 == 1 {
            let row = x / 2;
            track_block(t, row, tile_col(z, row, self.spec_southing() as int), y)
        } else {
            let cell = x / 2;
            let zig = (cell + z) % 2;
            let row = cell - zig;
            track_block(t, row, tile_col(z, row, self.spec_southing() as int), y + 3 + zig * 3)
        }
    }

    fn size(&self) -> (r: BlockPos) {
        BlockPos { x: self.easting, y: ELEVATION, z: self.southing }
    }

    /// The block at a position inside the layout.
    fn get_block(&self, pos: BlockPos) -> (r: Block) {
        let x = pos.x as i64;
        let y = pos.y as i64;
        let z = pos.z as i64;
        let southing = self.southing as i64;
        if z == 0 {
            let e = x + 1;
            let group = e % 4;
            self.track.block_at(e / 4 * 2, (group / 2) as usize, (y + (group % 2) * 3) as u8)
        } else if z + 1 == southing {
            let e = x + 3;
            let group = e % 4;
            self.track.block_at(e / 4 * 2 - 1, (group / 2) as usize, (y + (group % 2) * 3) as u8)
        } else if x % 2 == 1 {
            let row = x / 2;
            let col = if row % 2 == 0 {
                z + 1
            } else {
                southing - z
            };
            self.track.block_at(row, col as usize, y as u8)
        } else {
            let cell = x / 2;
            let zig = (cell + z) % 2;
            let row = cell - zig;
            let col = if row % 2 == 0 {
                z + 1
            } else {
                southing - z
            };
            self.track.block_at(row, col as usize, (y + 3 + zig * 3) as u8)
        }
    }
}

// Splitting by redstone tick
//
// ++++++++++++============++++++++++++============++++++++++++============

/// The notes of the entries at game tick `t` among the first `n`, in input
/// order.
pub open spec fn notes_at(tracks: Seq<(Tick, Vec<Note>)>, t: int, n: int) -> Seq<Note>
    decreases n,
{
    if n <= 0 {
        Seq::empty()
    } else {
        notes_at(tracks, t, n - 1) + if tracks[n - 1].0 == t { tracks[n - 1].1@ } else { Seq::empty() }
    }
}

/// Some entry among the first `n` is at game tick `t`.
pub open spec fn has_tick(tracks: Seq<(Tick, Vec<Note>)>, t: int, n: int) -> bool {
    exists|i: int| 0 <= i < n && (#[trigger] tracks[i]).0 == t
}

/// `bucket` gathers, by redstone tick in increasing order, the notes of the
/// first `n` entries at the game ticks of parity `parity`: the redstone tick
/// is the game tick halved.
pub open spec fn is_bucket(bucket: Seq<(Tick, Vec<Note>)>, tracks: Seq<(Tick, Vec<Note>)>, parity: int, n: int) -> bool {
    &&& forall|a: int, b: int| 0 <= a < b < bucket.len() ==> (#[trigger] bucket[a]).0 < (#[trigger] bucket[b]).0
    &&& forall|j: int|
        0 <= j < bucket.len() ==> has_tick(tracks, 2 * (#[trigger] bucket[j]).0 + parity, n) && bucket[j].1@ == notes_at(
            tracks,
            2 * bucket[j].0 + parity,
            n,
        )
    &&& forall|i: int|
        0 <= i < n && (#[trigger] tracks[i]).0 % 2 == parity ==> exists|j: int|
            0 <= j < bucket.len() && bucket[j].0 == tracks[i].0 / 2
}

/// Adds notes under the redstone tick `key` of a bucket ordered by key,
/// returning where they stand.
fn add_to_bucket(bucket: &mut Vec<(Tick, Vec<Note>)>, key: Tick, notes: Vec<Note>) -> (r: usize)
    requires
        forall|a: int, b: int| 0 <= a < b < old(bucket)@.len() ==> (#[trigger] old(bucket)@[a]).0 < (#[trigger] old(bucket)@[b]).0,
    ensures
        forall|a: int, b: int| 0 <= a < b < final(bucket)@.len() ==> (#[trigger] final(bucket)@[a]).0 < (#[trigger] final(bucket)@[b]).0,
        r < final(bucket)@.len(),
        final(bucket)@[r as int].0 == key,
        (exists|j: int| 0 <= j < old(bucket)@.len() && old(bucket)@[j].0 == key) ==> {
            &&& final(bucket)@.len() == old(bucket)@.len()
            &&& old(bucket)@[r as int].0 == key
            &&& final(bucket)@[r as int].1@ == old(bucket)@[r as int].1@ + notes@
            &&& forall|j: int| 0 <= j < old(bucket)@.len() && j != r ==> #[trigger] final(bucket)@[j] == old(bucket)@[j]
        },
        !(exists|j: int| 0 <= j < old(bucket)@.len() && old(bucket)@[j].0 == key) ==> {
            &&& r <= old(bucket)@.len()
            &&& final(bucket)@ == old(bucket)@.insert(r as int, final(bucket)@[r as int])
            &&& final(bucket)@[r as int].1@ == notes@
        },
{
    let mut i: usize = 0;
    while i < bucket.len() && bucket[i].0 < key
        invariant
            i <= bucket@.len(),
            bucket@ == old(bucket)@,
            forall|a: int, b: int| 0 <= a < b < bucket@.len() ==> (#[trigger] bucket@[a]).0 < (#[trigger] bucket@[b]).0,
            forall|j: int| 0 <= j < i ==> (#[trigger] bucket@[j]).0 < key,
        decreases bucket@.len() - i,
    {
        i = i + 1;
    }
    if i < bucket.len() && bucket[i].0 == key {
        let (k, mut existing) = bucket.remove(i);
        let mut more = notes;
        existing.append(&mut more);
        bucket.insert(i, (k, existing));
        proof {
            assert forall|j: int| 0 <= j < old(bucket)@.len() && j != i implies #[trigger] bucket@[j] == old(bucket)@[j] by {}
        }
        i
    } else {
        proof {
            assert forall|j: int| 0 <= j < old(bucket)@.len() implies old(bucket)@[j].0 != key by {
                if j >= i as int {
                    if j > i as int {
                        assert(old(bucket)@[i as int].0 < old(bucket)@[j].0);
                    }
                }
            }
        }
        bucket.insert(i, (key, notes));
        i
    }
}

proof fn lemma_no_tick(tracks: Seq<(Tick, Vec<Note>)>, t: int, n: int)
    requires
        0 <= n <= tracks.len(),
        !has_tick(tracks, t, n),
    ensures
        notes_at(tracks, t, n) == Seq::<Note>::empty(),
    decreases n,
{
    if n > 0 {
        assert(!has_tick(tracks, t, n - 1)) by {
            if has_tick(tracks, t, n - 1) {
                let i = choose|i: int| 0 <= i < n - 1 && (#[trigger] tracks[i]).0 == t;
                assert(0 <= i < n && tracks[i].0 == t);
            }
        }
        lemma_no_tick(tracks, t, n - 1);
        assert(tracks[n - 1].0 != t);
    }
}

/// Adding the `n`-th entry to the bucket of its parity keeps both buckets
/// gathering the entries so far.
#[verifier::spinoff_prover]
#[verifier::rlimit(50)]
proof fn lemma_bucket_step(
    old_b: Seq<(Tick, Vec<Note>)>,
    new_b: Seq<(Tick, Vec<Note>)>,
    tracks: Seq<(Tick, Vec<Note>)>,
    parity: int,
    n: int,
    r: int,
)
    requires
        0 <= n < tracks.len(),
        parity == 0 || parity == 1,
        is_bucket(old_b, tracks, parity, n),
        tracks[n].0 % 2 == parity,
        forall|a: int, b: int| 0 <= a < b < new_b.len() ==> (#[trigger] new_b[a]).0 < (#[trigger] new_b[b]).0,
        0 <= r < new_b.len(),
        new_b[r].0 == tracks[n].0 / 2,
        (exists|j: int| 0 <= j < old_b.len() && old_b[j].0 == tracks[n].0 / 2) ==> {
            &&& new_b.len() == old_b.len()
            &&& old_b[r].0 == tracks[n].0 / 2
            &&& new_b[r].1@ == old_b[r].1@ + tracks[n].1@
            &&& forall|j: int| 0 <= j < old_b.len() && j != r ==> #[trigger] new_b[j] == old_b[j]
        },
        !(exists|j: int| 0 <= j < old_b.len() && old_b[j].0 == tracks[n].0 / 2) ==> {
            &&& r <= old_b.len()
            &&& new_b == old_b.insert(r, new_b[r])
            &&& new_b[r].1@ == tracks[n].1@
        },
    ensures
        is_bucket(new_b, tracks, parity, n + 1),
{
    let t = tracks[n].0 as int;
    let key = tracks[n].0 / 2;
    assert(2 * key + parity == t);
    let found = exists|j: int| 0 <= j < old_b.len() && old_b[j].0 == key;
    assert forall|j: int|
        0 <= j < new_b.len() implies has_tick(tracks, 2 * (#[trigger] new_b[j]).0 + parity, n + 1) && new_b[j].1@
        == notes_at(tracks, 2 * new_b[j].0 + parity, n + 1) by {
        if j == r {
            assert(0 <= n < n + 1 && tracks[n].0 == t);
            if !found {
                assert(!has_tick(tracks, t, n)) by {
                    if has_tick(tracks, t, n) {
                        let i = choose|i: int| 0 <= i < n && (#[trigger] tracks[i]).0 == t;
                        assert(tracks[i].0 % 2 == parity);
                        let j2 = choose|j2: int| 0 <= j2 < old_b.len() && old_b[j2].0 == tracks[i].0 / 2;
                        assert(old_b[j2].0 == key);
                    }
                }
                lemma_no_tick(tracks, t, n);
                assert(notes_at(tracks, t, n + 1) =~= tracks[n].1@);
            }
        } else {
            let oj = if found || j < r { j } else { j - 1 };
            if !found {
                let x = new_b[r];
                old_b.insert_ensures(r, x);
                assert(old_b.insert(r, x)[j] == old_b[oj]);
            }
            assert(new_b[j] == old_b[oj]);
            assert(old_b[oj].0 != key) by {
                if found {
                    assert(old_b[r].0 == key);
                    if oj < r {
                        assert(old_b[oj].0 < old_b[r].0);
                    } else {
                        assert(old_b[r].0 < old_b[oj].0);
                    }
                }
            }
            assert(has_tick(tracks, 2 * old_b[oj].0 + parity, n));
            let i = choose|i: int| 0 <= i < n && (#[trigger] tracks[i]).0 == 2 * old_b[oj].0 + parity;
            assert(0 <= i < n + 1);
            assert(notes_at(tracks, 2 * new_b[j].0 + parity, n + 1) == notes_at(tracks, 2 * new_b[j].0 + parity, n));
        }
    }
    assert forall|i: int|
        0 <= i < n + 1 && (#[trigger] tracks[i]).0 % 2 == parity implies exists|j: int|
            0 <= j < new_b.len() && new_b[j].0 == tracks[i].0 / 2 by {
        if i == n {
            assert(new_b[r].0 == tracks[i].0 / 2);
        } else {
            let j = choose|j: int| 0 <= j < old_b.len() && old_b[j].0 == tracks[i].0 / 2;
            if !found {
                old_b.insert_ensures(r, new_b[r]);
            }
            if found || j < r {
                if j == r && found {
                    assert(new_b[r].0 == tracks[i].0 / 2);
                } else {
                    assert(new_b[j] == old_b[j]);
                }
            } else {
                assert(new_b[j + 1] == old_b[j]);
            }
        }
    }
}

/// An entry of the other parity leaves a bucket gathering the entries so
/// far.
proof fn lemma_bucket_other(b: Seq<(Tick, Vec<Note>)>, tracks: Seq<(Tick, Vec<Note>)>, parity: int, n: int)
    requires
        0 <= n < tracks.len(),
        parity == 0 || parity == 1,
        is_bucket(b, tracks, parity, n),
        tracks[n].0 % 2 != parity,
    ensures
        is_bucket(b, tracks, parity, n + 1),
{
    assert forall|j: int|
        0 <= j < b.len() implies has_tick(tracks, 2 * (#[trigger] b[j]).0 + parity, n + 1) && b[j].1@ == notes_at(
        tracks,
        2 * b[j].0 + parity,
        n + 1,
    ) by {
        let i = choose|i: int| 0 <= i < n && (#[trigger] tracks[i]).0 == 2 * b[j].0 + parity;
        assert(0 <= i < n + 1);
        assert(tracks[n].0 != 2 * b[j].0 + parity);
    }
}

/// Splits notes grouped by game tick into the even and the odd redstone
/// sub-tracks: a game tick's notes go to the redstone tick that is its
/// half, in the sub-track of its parity, after those of earlier entries at
/// that game tick.
pub fn split_even_odd(tracks: Vec<(Tick, Vec<Note>)>) -> (r: (Vec<(Tick, Vec<Note>)>, Vec<(Tick, Vec<Note>)>))
    ensures
        is_bucket(r.0@, tracks@, 0, tracks@.len() as int),
        is_bucket(r.1@, tracks@, 1, tracks@.len() as int),
{
    let ghost all = tracks@;
    let n = tracks.len();
    let mut queue = reversed(tracks);
    let mut even: Vec<(Tick, Vec<Note>)> = Vec::new();
    let mut odd: Vec<(Tick, Vec<Note>)> = Vec::new();
    let mut i: usize = 0;
    while i < n
        invariant
            n == all.len(),
            i <= n,
            queue@ == all.subrange(i as int, n as int).reverse(),
            is_bucket(even@, all, 0, i as int),
            is_bucket(odd@, all, 1, i as int),
        decreases n - i,
    {
        let (tick, notes) = match queue.pop() {
            Some(entry) => entry,
            None => (0, Vec::new()),
        };
        proof {
            assert(all.subrange(i as int, n as int).reverse().last() == all[i as int]);
        }
        let ghost old_even = even@;
        let ghost old_odd = odd@;
        if tick % 2 == 0 {
            let r = add_to_bucket(&mut even, tick / 2, notes);
            proof {
                lemma_bucket_step(old_even, even@, all, 0, i as int, r as int);
                lemma_bucket_other(odd@, all, 1, i as int);
            }
        } else {
            let r = add_to_bucket(&mut odd, tick / 2, notes);
            proof {
                lemma_bucket_step(old_odd, odd@, all, 1, i as int, r as int);
                lemma_bucket_other(even@, all, 0, i as int);
            }
        }
        proof {
            assert(queue@ =~= all.subrange(i + 1, n as int).reverse());
        }
        i = i + 1;
    }
    (even, odd)
}


/// Some entry of the track is at a game tick of parity `parity`.
pub open spec fn has_parity(track: Seq<(Tick, Vec<Note>)>, parity: int) -> bool {
    exists|i: int| 0 <= i < track.len() && (#[trigger] track[i]).0 % 2 == parity
}

/// A bucket of all of a track's entries holds some redstone tick exactly
/// when the track has an entry of its parity.
proof fn lemma_bucket_nonempty(b: Seq<(Tick, Vec<Note>)>, track: Seq<(Tick, Vec<Note>)>, parity: int)
    requires
        parity == 0 || parity == 1,
        is_bucket(b, track, parity, track.len() as int),
    ensures
        b.len() > 0 <==> has_parity(track, parity),
        forall|j: int| 0 <= j < b.len() ==> (#[trigger] b[j]).0 < u32::MAX,
{
    if has_parity(track, parity) {
        let i = choose|i: int| 0 <= i < track.len() && (#[trigger] track[i]).0 % 2 == parity;
        assert(exists|j: int| 0 <= j < b.len() && b[j].0 == track[i].0 / 2);
    }
    if b.len() > 0 {
        assert(has_tick(track, 2 * b[0].0 + parity, track.len() as int));
        let i = choose|i: int| 0 <= i < track.len() && (#[trigger] track[i]).0 == 2 * b[0].0 + parity;
        assert(track[i].0 % 2 == parity);
    }
    assert forall|j: int| 0 <= j < b.len() implies (#[trigger] b[j]).0 < u32::MAX by {
        assert(has_tick(track, 2 * b[j].0 + parity, track.len() as int));
        let i = choose|i: int| 0 <= i < track.len() && (#[trigger] track[i]).0 == 2 * b[j].0 + parity;
    }
}

// MultiCompactLayout
//
// ++++++++++++============++++++++++++============++++++++++++============

/// The sub-tracks that become bands, in order: each song track's even and
/// then odd redstone sub-track, where it holds some note entry.
pub open spec fn band_origins(tracks: Seq<(Vec<(Tick, Vec<Note>)>, Option<Tick>)>, n: int) -> Seq<(int, int)>
    decreases n,
{
    if n <= 0 {
        Seq::empty()
    } else {
        let t = tracks[n - 1].0@;
        band_origins(tracks, n - 1) + (if has_parity(t, 0) {
            seq![(n - 1, 0int)]
        } else {
            Seq::empty()
        }) + (if has_parity(t, 1) {
            seq![(n - 1, 1int)]
        } else {
            Seq::empty()
        })
    }
}

/// `l` lays out the sub-track of parity `parity` of a song track.
pub open spec fn band_of(
    l: CompactLayout,
    track: Seq<(Tick, Vec<Note>)>,
    parity: int,
    coarse: Option<Tick>,
    wrap_length: Option<usize>,
) -> bool {
    exists|b: Seq<(Tick, Vec<Note>)>| #[trigger] is_bucket(b, track, parity, track.len() as int) && lays_out(l, b, coarse, wrap_length)
}

/// The bands stand side by side from east 0, each `gap` blocks east of the
/// previous one's extent (saturated).
pub open spec fn spaced(bands: Seq<(CompactLayout, i32)>, gap: int) -> bool {
    &&& bands.len() > 0 ==> bands[0].1 == 0
    &&& forall|k: int|
        0 < k < bands.len() ==> (#[trigger] bands[k]).1 == clamp_i32(
            bands[k - 1].1 + bands[k - 1].0.spec_easting() + gap,
        )
}

/// `s` is the largest extent south of the bands, or 0 without bands.
pub open spec fn is_max_southing(bands: Seq<(CompactLayout, i32)>, s: i32) -> bool {
    &&& bands.len() == 0 ==> s == 0
    &&& forall|k: int| 0 <= k < bands.len() ==> s >= (#[trigger] bands[k]).0.spec_southing()
    &&& bands.len() > 0 ==> exists|k: int| 0 <= k < bands.len() && s == (#[trigger] bands[k]).0.spec_southing()
}

/// The last band that starts at or west of `x` among the first `n`, or -1.
pub open spec fn band_index(bands: Seq<(CompactLayout, i32)>, x: int, n: int) -> int
    decreases n,
{
    if n <= 0 {
        -1
    } else if bands[n - 1].1 <= x {
        n - 1
    } else {
        band_index(bands, x, n - 1)
    }
}

/// `after` is `before` with the bands of a song track's even and then odd
/// sub-tracks added, those that hold some note entry.
pub open spec fn placed_track(
    before: Seq<(CompactLayout, i32)>,
    after: Seq<(CompactLayout, i32)>,
    track: Seq<(Tick, Vec<Note>)>,
    coarse: Option<Tick>,
    wrap_length: Option<usize>,
) -> bool {
    let e: int = if has_parity(track, 0) { 1 } else { 0 };
    let o: int = if has_parity(track, 1) { 1 } else { 0 };
    &&& after.len() == before.len() + e + o
    &&& forall|k: int| 0 <= k < before.len() ==> #[trigger] after[k] == before[k]
    &&& e == 1 ==> band_of(after[before.len() as int].0, track, 0, coarse, wrap_length)
    &&& o == 1 ==> band_of(after[before.len() + e].0, track, 1, coarse, wrap_length)
}

/// Placing a song track's bands extends the bands of the earlier tracks by
/// those of its sub-tracks.
proof fn lemma_origins_step(
    all: Seq<(Vec<(Tick, Vec<Note>)>, Option<Tick>)>,
    i: int,
    before: Seq<(CompactLayout, i32)>,
    after: Seq<(CompactLayout, i32)>,
    wrap_length: Option<usize>,
)
    requires
        0 <= i < all.len(),
        before.len() == band_origins(all, i).len(),
        forall|k: int|
            0 <= k < before.len() ==> {
                let o = band_origins(all, i)[k];
                band_of((#[trigger] before[k]).0, all[o.0].0@, o.1, all[o.0].1, wrap_length)
            },
        placed_track(before, after, all[i].0@, all[i].1, wrap_length),
    ensures
        after.len() == band_origins(all, i + 1).len(),
        forall|k: int|
            0 <= k < after.len() ==> {
                let o = band_origins(all, i + 1)[k];
                band_of((#[trigger] after[k]).0, all[o.0].0@, o.1, all[o.0].1, wrap_length)
            },
{
    let track = all[i].0@;
    let origins = band_origins(all, i);
    let next = band_origins(all, i + 1);
    let e: int = if has_parity(track, 0) { 1 } else { 0 };
    assert(next == origins + (if has_parity(track, 0) {
        seq![(i, 0int)]
    } else {
        Seq::empty()
    }) + (if has_parity(track, 1) {
        seq![(i, 1int)]
    } else {
        Seq::empty()
    }));
    assert forall|k: int| 0 <= k < after.len() implies {
        let o = next[k];
        band_of((#[trigger] after[k]).0, all[o.0].0@, o.1, all[o.0].1, wrap_length)
    } by {
        if k < before.len() {
            assert(after[k] == before[k]);
            assert(next[k] == origins[k]);
        } else if k < before.len() + e {
            assert(next[k] == (i, 0int));
        } else {
            assert(next[k] == (i, 1int));
        }
    }
}

/// Several compact tracks side by side: each song track is split into its
/// even and odd redstone sub-tracks, each laid out as a [`CompactLayout`]
/// band, and the bands are arranged west to east with a gap between them.
pub struct MultiCompactLayout {
    bands: Vec<(CompactLayout, i32)>,
    easting: i32,
    southing: i32,
}

/// `v` (not negative) as an `i32`, saturated at `i32::MAX`.
fn saturate_i32(v: i64) -> (r: i32)
    requires
        v >= 0,
    ensures
        r == clamp_i32(v as int),
{
    if v > 2147483647 {
        2147483647
    } else {
        v as i32
    }
}

impl MultiCompactLayout {
    /// The bands with the east where each starts.
    pub closed spec fn spec_bands(&self) -> Seq<(CompactLayout, i32)> {
        self.bands@
    }

    /// The extent east.
    pub closed spec fn spec_easting(&self) -> i32 {
        self.easting
    }

    /// The extent south.
    pub closed spec fn spec_southing(&self) -> i32 {
        self.southing
    }



    /// Places `band` east of the last band, `gap` blocks away.
    fn place(bands: &mut Vec<(CompactLayout, i32)>, southing: &mut i32, band: CompactLayout, gap: u32)
        requires
            gap <= i32::MAX,
            spaced(old(bands)@, gap as int),
            is_max_southing(old(bands)@, *old(southing)),
            forall|k: int| 0 <= k < old(bands)@.len() ==> (#[trigger] old(bands)@[k]).1 >= 0,
            forall|k: int| 0 <= k < old(bands)@.len() ==> (#[trigger] old(bands)@[k]).0.spec_easting() >= 0,
            band.spec_easting() >= 0,
        ensures
            final(bands)@.len() == old(bands)@.len() + 1,
            final(bands)@ == old(bands)@.push(final(bands)@.last()),
            final(bands)@.last().0 == band,
            spaced(final(bands)@, gap as int),
            is_max_southing(final(bands)@, *final(southing)),
            forall|k: int| 0 <= k < final(bands)@.len() ==> (#[trigger] final(bands)@[k]).1 >= 0,
            forall|k: int| 0 <= k < final(bands)@.len() ==> (#[trigger] final(bands)@[k]).0.spec_easting() >= 0,
    {
        let n = bands.len();
        let start: i32 = if n == 0 {
            0
        } else {
            let prev_start = bands[n - 1].1;
            let prev_easting = bands[n - 1].0.easting;
            saturate_i32(prev_start as i64 + prev_easting as i64 + gap as i64)
        };
        if band.southing > *southing || n == 0 {
            *southing = band.southing;
        }
        let ghost before = bands@;
        bands.push((band, start));
        proof {
            assert forall|k: int| 0 < k < bands@.len() implies (#[trigger] bands@[k]).1 == clamp_i32(
                bands@[k - 1].1 + bands@[k - 1].0.spec_easting() + gap,
            ) by {
                if k < n {
                    assert(bands@[k] == before[k]);
                }
            }
            assert forall|k: int| 0 <= k < bands@.len() implies *southing >= (#[trigger] bands@[k]).0.spec_southing() by {
                if k < n {
                    assert(bands@[k] == before[k]);
                }
            }
            if *southing != bands@[n as int].0.spec_southing() {
                let k = choose|k: int| 0 <= k < before.len() && *southing == (#[trigger] before[k]).0.spec_southing();
                assert(bands@[k] == before[k]);
            }
        }
    }

    /// Places the bands of one song track's even and odd sub-tracks, where
    /// they hold some note entry.
    fn place_track(
        bands: &mut Vec<(CompactLayout, i32)>,
        southing: &mut i32,
        notes: Vec<(Tick, Vec<Note>)>,
        coarse: Option<Tick>,
        wrap_length: Option<usize>,
        gap: u32,
    )
        requires
            gap <= i32::MAX,
            wrap_length matches Some(c) ==> 0 < c <= usize::MAX / 2,
            spaced(old(bands)@, gap as int),
            is_max_southing(old(bands)@, *old(southing)),
            forall|k: int| 0 <= k < old(bands)@.len() ==> (#[trigger] old(bands)@[k]).1 >= 0,
            forall|k: int| 0 <= k < old(bands)@.len() ==> (#[trigger] old(bands)@[k]).0.spec_easting() >= 0,
        ensures
            placed_track(old(bands)@, final(bands)@, notes@, coarse, wrap_length),
            spaced(final(bands)@, gap as int),
            is_max_southing(final(bands)@, *final(southing)),
            forall|k: int| 0 <= k < final(bands)@.len() ==> (#[trigger] final(bands)@[k]).1 >= 0,
            forall|k: int| 0 <= k < final(bands)@.len() ==> (#[trigger] final(bands)@[k]).0.spec_easting() >= 0,
    {
        let ghost track = notes@;
        let ghost before = bands@;
        let (even, odd) = split_even_odd(notes);
        proof {
            lemma_bucket_nonempty(even@, track, 0);
            lemma_bucket_nonempty(odd@, track, 1);
        }
        let ghost even_seq = even@;
        let ghost odd_seq = odd@;
        if even.len() > 0 {
            let band = CompactLayout::new(even, coarse, wrap_length);
            proof {
                assert(is_bucket(even_seq, track, 0, track.len() as int) && lays_out(band, even_seq, coarse, wrap_length));
            }
            Self::place(bands, southing, band, gap);
        }
        let ghost mid = bands@;
        if odd.len() > 0 {
            let band = CompactLayout::new(odd, coarse, wrap_length);
            proof {
                assert(is_bucket(odd_seq, track, 1, track.len() as int) && lays_out(band, odd_seq, coarse, wrap_length));
            }
            Self::place(bands, southing, band, gap);
        }
        proof {
            assert forall|k: int| 0 <= k < before.len() implies #[trigger] bands@[k] == before[k] by {
                assert(mid[k] == before[k]);
            }
        }
    }

    /// Builds the layout of several song tracks, each notes grouped by game
    /// tick with an optional repeater coarseness, rows wrapped at an
    /// optional length, the bands `gap` blocks apart.
    pub fn new(tracks: Vec<(Vec<(Tick, Vec<Note>)>, Option<Tick>)>, wrap_length: Option<usize>, gap: u32) -> (r: Self)
        requires
            wrap_length matches Some(c) ==> 0 < c <= usize::MAX / 2,
            gap <= i32::MAX,
        ensures
            r.wf(),
            r.spec_bands().len() == band_origins(tracks@, tracks@.len() as int).len(),
            forall|k: int|
                0 <= k < r.spec_bands().len() ==> {
                    let o = band_origins(tracks@, tracks@.len() as int)[k];
                    band_of((#[trigger] r.spec_bands()[k]).0, tracks@[o.0].0@, o.1, tracks@[o.0].1, wrap_length)
                },
            spaced(r.spec_bands(), gap as int),
            r.spec_easting() == if r.spec_bands().len() == 0 {
                -(gap as int)
            } else {
                clamp_i32(r.spec_bands().last().1 + r.spec_bands().last().0.spec_easting()) as int
            },
    {
        let ghost all = tracks@;
        let n = tracks.len();
        let mut queue = reversed(tracks);
        let mut bands: Vec<(CompactLayout, i32)> = Vec::new();
        let mut southing: i32 = 0;
        let mut i: usize = 0;
        while i < n
            invariant
                n == all.len(),
                i <= n,
                gap <= i32::MAX,
                wrap_length matches Some(c) ==> 0 < c <= usize::MAX / 2,
                queue@ == all.subrange(i as int, n as int).reverse(),
                bands@.len() == band_origins(all, i as int).len(),
                forall|k: int|
                    0 <= k < bands@.len() ==> {
                        let o = band_origins(all, i as int)[k];
                        band_of((#[trigger] bands@[k]).0, all[o.0].0@, o.1, all[o.0].1, wrap_length)
                    },
                spaced(bands@, gap as int),
                is_max_southing(bands@, southing),
                forall|k: int| 0 <= k < bands@.len() ==> (#[trigger] bands@[k]).1 >= 0,
                forall|k: int| 0 <= k < bands@.len() ==> (#[trigger] bands@[k]).0.spec_easting() >= 0,
            decreases n - i,
        {
            let (notes, coarse) = match queue.pop() {
                Some(entry) => entry,
                None => (Vec::new(), None),
            };
            proof {
                assert(all.subrange(i as int, n as int).reverse().last() == all[i as int]);
            }
            let ghost before = bands@;
            Self::place_track(&mut bands, &mut southing, notes, coarse, wrap_length, gap);
            proof {
                lemma_origins_step(all, i as int, before, bands@, wrap_length);
                assert(queue@ =~= all.subrange(i + 1, n as int).reverse());
            }
            i = i + 1;
        }
        let nb = bands.len();
        let easting: i32 = if nb == 0 {
            -(gap as i32)
        } else {
            saturate_i32(bands[nb - 1].1 as i64 + bands[nb - 1].0.easting as i64)
        };
        MultiCompactLayout { bands, easting, southing }
    }


}

impl Layout for MultiCompactLayout {
    /// The first band starts at east 0, and the extent south is the
    /// largest of the bands'.
    open spec fn wf(&self) -> bool {
        &&& self.spec_bands().len() > 0 ==> self.spec_bands()[0].1 == 0
        &&& forall|k: int| 0 <= k < self.spec_bands().len() ==> (#[trigger] self.spec_bands()[k]).1 >= 0
        &&& is_max_southing(self.spec_bands(), self.spec_southing())
    }

    /// The extents east and south, three blocks high.
    open spec fn spec_size(&self) -> BlockPos {
        BlockPos { x: self.spec_easting(), y: ELEVATION, z: self.spec_southing() }
    }

    /// The block at a position: that of the band starting last at or west
    /// of it, where the position falls inside that band, else air.
    open spec fn spec_block(&self, pos: BlockPos) -> Block {
        let bands = self.spec_bands();
        let k = band_index(bands, pos.x as int, bands.len() as int);
        if k < 0 {
            Block::Air
        } else {
            let band = bands[k].0;
            let local = pos.x - bands[k].1;
            if local < band.spec_easting() && pos.z < band.spec_southing() {
                band.spec_block(BlockPos { x: local as i32, y: pos.y, z: pos.z })
            } else {
                Block::Air
            }
        }
    }

    fn size(&self) -> (r: BlockPos) {
        BlockPos { x: self.easting, y: ELEVATION, z: self.southing }
    }

    fn get_block(&self, pos: BlockPos) -> (r: Block) {
        let ghost bands = self.bands@;
        let len = self.bands.len();
        proof {
            if len == 0 {
                assert(self.spec_southing() == 0);
            }
        }
        let mut i = len;
        while i > 0 && self.bands[i - 1].1 > pos.x
            invariant
                bands == self.bands@,
                len == bands.len(),
                len > 0,
                bands[0].1 == 0,
                0 <= pos.x,
                1 <= i <= len,
                band_index(bands, pos.x as int, len as int) == band_index(bands, pos.x as int, i as int),
            decreases i,
        {
            i = i - 1;
        }
        let k = i - 1;
        let (band, start) = (&self.bands[k].0, self.bands[k].1);
        let local = pos.x - start;
        if local < band.easting && pos.z < band.southing {
            band.get_block(BlockPos { x: local, y: pos.y, z: pos.z })
        } else {
            Block::Air
        }
    }
}

} // verus!
