//! Linear layouts: a song track's ticks laid out in proportion along rows of
//! note cells that zigzag south and north, two blocks high.

use crate::compact::{tone_of, Block, BlockPos, Facing, Fallback};
use crate::layout::{inside, Layout, WithFloor};
use crate::note::{Note, Tone};
use crate::notes::Notes;
use crate::types::{Index, Position, Tick};
use vstd::prelude::*;

verus! {

broadcast use {Position::lemma_at_fields, Position::lemma_at_of};

/// The height of linear layouts.
pub const LINEAR_ELEVATION: i32 = 2;

// Sizing
//
// ++++++++++++============++++++++++++============++++++++++++============

/// Tracks of scale 1 or 3 strike their branch notes with pistons.
pub open spec fn is_piston(scale: Tick) -> bool {
    scale == 1 || scale == 3
}

/// The width of a cell column: pistons widen the branch band.
pub open spec fn column_width(scale: Tick) -> int {
    if is_piston(scale) { 5 } else { 4 }
}

/// The number of spans of `scale * 2 * multiplier` ticks that cover the
/// song, rounded up.
pub open spec fn units(song_length: Tick, scale: Tick, multiplier: Tick) -> int {
    let d = scale * 2 * multiplier;
    (song_length + d - 1) / d
}

/// The number of rows: one without wrapping, else the wrap spans that cover
/// the song.
pub open spec fn track_rows(song_length: Tick, scale: Tick, wrap_length: Option<Tick>) -> int {
    match wrap_length {
        None => 1,
        Some(w) => units(song_length, scale, w),
    }
}

/// The number of cells in a row: the wrap length, or all the cells of the
/// song without wrapping.
pub open spec fn track_cols(song_length: Tick, scale: Tick, wrap_length: Option<Tick>) -> int {
    match wrap_length {
        None => units(song_length, scale, 1),
        Some(w) => w as int,
    }
}

/// The extent east: each row's column and the gap after it, less the last
/// gap, and one more.
pub open spec fn linear_easting(song_length: Tick, scale: Tick, wrap_length: Option<Tick>, gap: u32) -> int {
    (column_width(scale) + gap) * track_rows(song_length, scale, wrap_length) - gap + 1
}

/// The extent south: two blocks per cell and the two turn lines.
pub open spec fn linear_southing(song_length: Tick, scale: Tick, wrap_length: Option<Tick>) -> int {
    track_cols(song_length, scale, wrap_length) * 2 + 2
}

/// The scale is one of 1 to 4, the wrap length positive, and the layout's
/// sizes, block coordinates and ticks stay within 32-bit integers.
pub open spec fn linear_fits(song_length: Tick, scale: Tick, wrap_length: Option<Tick>, gap: u32) -> bool {
    let p = column_width(scale) + gap;
    let rows = track_rows(song_length, scale, wrap_length);
    let cols = track_cols(song_length, scale, wrap_length);
    &&& 1 <= scale <= 4
    &&& wrap_length matches Some(w) ==> 0 < w && scale * 2 * w <= u32::MAX
    &&& gap <= i32::MAX
    &&& p * rows >= gap
    &&& p * (rows + 2) + 2 <= i32::MAX
    &&& cols * 2 + 2 <= i32::MAX
    &&& ((rows + 1) * cols + 2) * scale * 2 + 3 <= i32::MAX
}

proof fn lemma_units_nonneg(song_length: Tick, scale: Tick, multiplier: Tick)
    requires
        scale * 2 * multiplier > 0,
    ensures
        units(song_length, scale, multiplier) >= 0,
{
    let d = scale * 2 * multiplier;
    assert((song_length + d - 1) / d >= 0) by (nonlinear_arith)
        requires
            d > 0,
            song_length >= 0,
    ;
}

/// The number of spans of `scale * 2 * multiplier` ticks that cover the
/// song, rounded up.
fn length_in_units(song_length: Tick, scale: Tick, multiplier: Tick) -> (r: u32)
    requires
        1 <= scale <= 4,
        0 < multiplier,
        scale * 2 * multiplier <= u32::MAX,
    ensures
        r == units(song_length, scale, multiplier),
{
    proof {
        assert(2 <= scale * 2 * multiplier) by (nonlinear_arith)
            requires
                1 <= scale,
                0 < multiplier,
        ;
    }
    let d: u32 = scale * 2 * multiplier;
    let q = song_length / d;
    proof {
        assert(q < u32::MAX) by (nonlinear_arith)
            requires
                d >= 2,
                q == song_length / d,
                song_length <= u32::MAX,
        ;
    }
    let r = song_length % d;
    proof {
        assert(units(song_length, scale, multiplier) == q + if r == 0 { 0int } else { 1int }) by (nonlinear_arith)
            requires
                d > 0,
                d == scale * 2 * multiplier,
                q == song_length / d,
                r == song_length % d,
                song_length >= 0,
        {
            assert(song_length == q * d + r);
        }
    }
    if r == 0 {
        q
    } else {
        q + 1
    }
}

// Track
//
// ++++++++++++============++++++++++++============++++++++++++============

/// A linear track: the notes and how they are laid out.
pub struct Track {
    notes: Notes<Note>,
    song_length: Tick,
    scale: Tick,
    wrap_length: Option<Tick>,
    gap: u32,
}

/// The note at layer `layer`, `tick` ticks into the group of the cell at
/// `col` in row `row`: each group spans `scale * 2` ticks, and on scale 1
/// the groups start one group early.
pub open spec fn group_note(
    notes: Map<Position, Note>,
    scale: Tick,
    cols: int,
    row: int,
    col: int,
    tick: int,
    layer: Index,
) -> Option<Note> {
    let head: int = if scale == 1 { 1 } else { 0 };
    let t = tick + (row * cols + col - head) * scale * 2;
    if 0 <= t <= u32::MAX && notes.contains_key(Position::spec_at(t as u32, layer)) {
        Some(notes[Position::spec_at(t as u32, layer)])
    } else {
        None
    }
}

/// The block of a cell at `(e, y, z)` (the east already shifted past the
/// piston band on non-piston tracks): the branch band (piston, or repeater
/// and branch notes), the main column with its repeater facing `facing`
/// and main notes, and the spare note of cells without a branch.
pub open spec fn cell_block(
    has_branch: bool,
    piston: bool,
    e: int,
    z: int,
    y: int,
    facing: Facing,
    scale: Tick,
    b0: Option<Note>,
    b1: Option<Note>,
    n0: Option<Note>,
    n1: Option<Note>,
    n2: Option<Note>,
) -> Block {
    if has_branch && piston && e == 3 && z == 1 && y == 1 {
        Block::StickyPiston(Facing::West)
    } else if has_branch && piston && e == 2 && z == 1 && y == 1 {
        Block::RedstoneBlock
    } else if has_branch && piston && e == 1 && z == 2 && y == 0 {
        Block::InstrumentBase(tone_of(b0), Fallback::Air)
    } else if has_branch && piston && e == 1 && z == 2 && y == 1 {
        Block::NoteBlock(tone_of(b0), Fallback::Air)
    } else if has_branch && piston && e == 0 && z == 1 && y == 0 {
        Block::InstrumentBase(tone_of(b1), Fallback::Air)
    } else if has_branch && piston && e == 0 && z == 1 && y == 1 {
        Block::NoteBlock(tone_of(b1), Fallback::Air)
    } else if has_branch && !piston && e == 3 && z == 1 && y == 0 {
        Block::Chain
    } else if has_branch && !piston && e == 3 && z == 1 && y == 1 {
        Block::Repeater(scale / 2, Facing::East)
    } else if has_branch && !piston && e == 1 && z == 1 && y == 0 {
        Block::InstrumentBase(tone_of(b0), Fallback::Chain)
    } else if has_branch && !piston && e == 1 && z == 1 && y == 1 {
        Block::NoteBlock(tone_of(b0), Fallback::Chain)
    } else if has_branch && !piston && e == 0 && z == 1 && y == 0 {
        Block::InstrumentBase(tone_of(b1), Fallback::Air)
    } else if has_branch && !piston && e == 0 && z == 1 && y == 1 {
        Block::NoteBlock(tone_of(b1), Fallback::Air)
    } else if e == 4 && z == 0 && y == 0 {
        Block::Chain
    } else if e == 4 && z == 0 && y == 1 {
        Block::Repeater(scale, facing)
    } else if e == 4 && z == 1 && y == 0 {
        Block::InstrumentBase(tone_of(n0), Fallback::Chain)
    } else if e == 4 && z == 1 && y == 1 {
        Block::NoteBlock(tone_of(n0), Fallback::Chain)
    } else if e == 5 && z == 1 && y == 0 {
        Block::InstrumentBase(tone_of(n1), Fallback::Air)
    } else if e == 5 && z == 1 && y == 1 {
        Block::NoteBlock(tone_of(n1), Fallback::Air)
    } else if !has_branch && e == 3 && z == 1 && y == 0 {
        Block::InstrumentBase(tone_of(n2), Fallback::Air)
    } else if !has_branch && e == 3 && z == 1 && y == 1 {
        Block::NoteBlock(tone_of(n2), Fallback::Air)
    } else {
        Block::Air
    }
}

impl Track {
    /// The notes.
    pub closed spec fn spec_notes(&self) -> Notes<Note> {
        self.notes
    }

    /// The tick count of the song.
    pub closed spec fn spec_song_length(&self) -> Tick {
        self.song_length
    }

    /// The ticks per half cell.
    pub closed spec fn spec_scale(&self) -> Tick {
        self.scale
    }

    /// The cells per row, if rows wrap.
    pub closed spec fn spec_wrap_length(&self) -> Option<Tick> {
        self.wrap_length
    }

    /// The gap between rows.
    pub closed spec fn spec_gap(&self) -> u32 {
        self.gap
    }

    /// The notes are well formed and the layout fits.
    pub open spec fn wf(&self) -> bool {
        &&& self.spec_notes().wf()
        &&& linear_fits(self.spec_song_length(), self.spec_scale(), self.spec_wrap_length(), self.spec_gap())
    }

    /// The number of rows.
    pub open spec fn spec_rows(&self) -> int {
        track_rows(self.spec_song_length(), self.spec_scale(), self.spec_wrap_length())
    }

    /// The number of cells in a row.
    pub open spec fn spec_cols(&self) -> int {
        track_cols(self.spec_song_length(), self.spec_scale(), self.spec_wrap_length())
    }

    /// The block at `local` in the cell at `col` of row `row`.
    pub open spec fn spec_block(&self, row: int, col: int, local: BlockPos) -> Block {
        let scale = self.spec_scale();
        let piston = is_piston(scale);
        let bt: int = if piston { 3 } else { scale as int };
        let e: int = if !piston && local.x > 1 { local.x + 1 } else { local.x as int };
        let m = self.spec_notes()@;
        let cols = self.spec_cols();
        let b0 = group_note(m, scale, cols, row, col, bt, 0);
        let b1 = group_note(m, scale, cols, row, col, bt, 1);
        cell_block(
            b0 is Some || b1 is Some,
            piston,
            e,
            local.z as int,
            local.y as int,
            if row % 2 == 0 { Facing::North } else { Facing::South },
            scale,
            b0,
            b1,
            group_note(m, scale, cols, row, col, 0, 0),
            group_note(m, scale, cols, row, col, 0, 1),
            group_note(m, scale, cols, row, col, 0, 2),
        )
    }

    fn is_piston(&self) -> (r: bool)
        requires
            1 <= self.spec_scale() <= 4,
        ensures
            r == is_piston(self.spec_scale()),
    {
        self.scale == 3 || self.scale == 1
    }

    fn width(&self) -> (r: i64)
        requires
            1 <= self.spec_scale() <= 4,
        ensures
            r == column_width(self.spec_scale()),
    {
        if self.is_piston() {
            5
        } else {
            4
        }
    }

    fn wrap_rows(&self) -> (r: u32)
        requires
            self.wf(),
        ensures
            r == self.spec_rows(),
    {
        match self.wrap_length {
            None => 1,
            Some(w) => length_in_units(self.song_length, self.scale, w),
        }
    }

    fn cols_per_row(&self) -> (r: u32)
        requires
            self.wf(),
        ensures
            r == self.spec_cols(),
    {
        match self.wrap_length {
            None => length_in_units(self.song_length, self.scale, 1),
            Some(w) => w,
        }
    }

    /// The note at layer `layer`, `tick` ticks into the group of the cell at
    /// `col` in row `row`.
    fn note(&self, row: i64, col: i64, tick: i64, layer: Index) -> (r: Option<Note>)
        requires
            self.wf(),
            -1 <= row <= self.spec_rows(),
            -1 <= col <= self.spec_cols(),
            0 <= tick <= 4,
        ensures
            r == group_note(self.spec_notes()@, self.spec_scale(), self.spec_cols(), row as int, col as int, tick as int, layer),
    {
        let cols = self.cols_per_row() as i64;
        let scale = self.scale as i64;
        let head: i64 = if self.scale == 1 {
            1
        } else {
            0
        };
        let ghost rows = self.spec_rows();
        proof {
            if let Some(w) = self.wrap_length {
                assert(self.scale * 2 * w > 0) by (nonlinear_arith)
                    requires
                        1 <= self.scale,
                        0 < w,
                ;
                lemma_units_nonneg(self.song_length, self.scale, w);
            }
            let bound = (rows + 1) * cols + 2;
            assert(-(cols + 2) <= row * cols + col - head <= (rows + 1) * cols + 2) by (nonlinear_arith)
                requires
                    -1 <= row <= rows,
                    -1 <= col <= cols,
                    0 <= head <= 1,
                    cols >= 0,
                    rows >= 0,
            ;
            assert(cols + 2 <= bound) by (nonlinear_arith)
                requires
                    bound == (rows + 1) * cols + 2,
                    rows >= 0,
                    cols >= 0,
            ;
            assert(-bound <= row * cols <= bound) by (nonlinear_arith)
                requires
                    -1 <= row <= rows,
                    bound == (rows + 1) * cols + 2,
                    cols >= 0,
                    rows >= 0,
            ;
            assert(bound <= i32::MAX) by (nonlinear_arith)
                requires
                    bound * scale * 2 + 3 <= i32::MAX,
                    1 <= scale,
                    bound >= 0,
            ;
            let x = row * cols + col - head;
            assert(-(bound * scale * 2) <= x * scale * 2 <= bound * scale * 2) by (nonlinear_arith)
                requires
                    -bound <= x <= bound,
                    1 <= scale <= 4,
            ;
        }
        let t = tick + (row * cols + col - head) * scale * 2;
        if t < 0 || t > 4294967295 {
            None
        } else {
            match self.notes.get(Position::new(t as u32, layer)) {
                Some(n) => Some(*n),
                None => None,
            }
        }
    }

    /// The block at `local` in the cell at `col` of row `row`.
    fn get_block(&self, row: i64, col: i64, local: BlockPos) -> (r: Block)
        requires
            self.wf(),
            -1 <= row <= self.spec_rows(),
            -1 <= col <= self.spec_cols(),
        ensures
            r == self.spec_block(row as int, col as int, local),
    {
        let piston = self.is_piston();
        let scale = self.scale;
        let bt: i64 = if piston {
            3
        } else {
            scale as i64
        };
        let e: i64 = if !piston && local.x > 1 {
            local.x as i64 + 1
        } else {
            local.x as i64
        };
        let b0 = self.note(row, col, bt, 0);
        let b1 = self.note(row, col, bt, 1);
        let has_branch = b0.is_some() || b1.is_some();
        let facing = if row % 2 == 0 {
            Facing::North
        } else {
            Facing::South
        };
        let z = local.z as i64;
        let y = local.y as i64;
        if has_branch && piston && e == 3 && z == 1 && y == 1 {
            Block::StickyPiston(Facing::West)
        } else if has_branch && piston && e == 2 && z == 1 && y == 1 {
            Block::RedstoneBlock
        } else if has_branch && piston && e == 1 && z == 2 && y == 0 {
            Block::InstrumentBase(tone_of(b0), Fallback::Air)
        } else if has_branch && piston && e == 1 && z == 2 && y == 1 {
            Block::NoteBlock(tone_of(b0), Fallback::Air)
        } else if has_branch && piston && e == 0 && z == 1 && y == 0 {
            Block::InstrumentBase(tone_of(b1), Fallback::Air)
        } else if has_branch && piston && e == 0 && z == 1 && y == 1 {
            Block::NoteBlock(tone_of(b1), Fallback::Air)
        } else if has_branch && !piston && e == 3 && z == 1 && y == 0 {
            Block::Chain
        } else if has_branch && !piston && e == 3 && z == 1 && y == 1 {
            Block::Repeater(scale / 2, Facing::East)
        } else if has_branch && !piston && e == 1 && z == 1 && y == 0 {
            Block::InstrumentBase(tone_of(b0), Fallback::Chain)
        } else if has_branch && !piston && e == 1 && z == 1 && y == 1 {
            Block::NoteBlock(tone_of(b0), Fallback::Chain)
        } else if has_branch && !piston && e == 0 && z == 1 && y == 0 {
            Block::InstrumentBase(tone_of(b1), Fallback::Air)
        } else if has_branch && !piston && e == 0 && z == 1 && y == 1 {
            Block::NoteBlock(tone_of(b1), Fallback::Air)
        } else if e == 4 && z == 0 && y == 0 {
            Block::Chain
        } else if e == 4 && z == 0 && y == 1 {
            Block::Repeater(scale, facing)
        } else if e == 4 && z == 1 && y == 0 {
            Block::InstrumentBase(tone_of(self.note(row, col, 0, 0)), Fallback::Chain)
        } else if e == 4 && z == 1 && y == 1 {
            Block::NoteBlock(tone_of(self.note(row, col, 0, 0)), Fallback::Chain)
        } else if e == 5 && z == 1 && y == 0 {
            Block::InstrumentBase(tone_of(self.note(row, col, 0, 1)), Fallback::Air)
        } else if e == 5 && z == 1 && y == 1 {
            Block::NoteBlock(tone_of(self.note(row, col, 0, 1)), Fallback::Air)
        } else if !has_branch && e == 3 && z == 1 && y == 0 {
            Block::InstrumentBase(tone_of(self.note(row, col, 0, 2)), Fallback::Air)
        } else if !has_branch && e == 3 && z == 1 && y == 1 {
            Block::NoteBlock(tone_of(self.note(row, col, 0, 2)), Fallback::Air)
        } else {
            Block::Air
        }
    }
}


// LinearLayout
//
// ++++++++++++============++++++++++++============++++++++++++============

/// The block of a turn line between rows: the chain below, the wire above.
pub open spec fn turn_block(y: int) -> Block {
    if y == 0 {
        Block::Chain
    } else if y == 1 {
        Block::Wire
    } else {
        Block::Air
    }
}

/// A single linear track layout: each row runs a column of cells south or
/// north (alternately), with turn lines at the north and south edges that
/// lead the signal from one row to the next.
pub struct LinearLayout {
    track: Track,
    easting: i32,
    southing: i32,
}

impl LinearLayout {
    /// The track.
    pub closed spec fn spec_track(&self) -> Track {
        self.track
    }

    /// The extent east.
    pub closed spec fn spec_easting(&self) -> i32 {
        self.easting
    }

    /// The extent south.
    pub closed spec fn spec_southing(&self) -> i32 {
        self.southing
    }



    /// Lays out notes of a song of `song_length` ticks, `scale` ticks per
    /// half cell, rows wrapped at `wrap_length` cells (if any), with `gap`
    /// blocks between rows.
    pub fn new(notes: Notes<Note>, song_length: Tick, scale: Tick, wrap_length: Option<Tick>, gap: u32) -> (r: Self)
        requires
            notes.wf(),
            linear_fits(song_length, scale, wrap_length, gap),
        ensures
            r.wf(),
            r.spec_track().spec_notes() == notes,
            r.spec_track().spec_song_length() == song_length,
            r.spec_track().spec_scale() == scale,
            r.spec_track().spec_wrap_length() == wrap_length,
            r.spec_track().spec_gap() == gap,
    {
        let track = Track { notes, song_length, scale, wrap_length, gap };
        let rows = track.wrap_rows() as i64;
        let cols = track.cols_per_row() as i64;
        let p = track.width() + gap as i64;
        proof {
            assert(0 <= p * rows <= i32::MAX - 2) by (nonlinear_arith)
                requires
                    p * (rows + 2) + 2 <= i32::MAX,
                    p >= 4,
                    rows >= 0,
            ;
        }
        let e = p * rows - gap as i64 + 1;
        let so = cols * 2 + 2;
        proof {
            assert(p * rows >= gap);
            assert(e <= i32::MAX);
            assert(1 <= e);
            assert(2 <= so <= i32::MAX);
        }
        let easting = e as i32;
        let southing = so as i32;
        proof {
            assert(easting == e);
            assert(southing == so);
        }
        LinearLayout { track, easting, southing }
    }


}

impl Layout for LinearLayout {
    /// The track fits and the extents are those of its rows and cells.
    open spec fn wf(&self) -> bool {
        let t = self.spec_track();
        &&& t.wf()
        &&& self.spec_easting() == linear_easting(t.spec_song_length(), t.spec_scale(), t.spec_wrap_length(), t.spec_gap())
        &&& self.spec_southing() == linear_southing(t.spec_song_length(), t.spec_scale(), t.spec_wrap_length())
    }

    /// The extents east and south, two blocks high.
    open spec fn spec_size(&self) -> BlockPos {
        BlockPos { x: self.spec_easting(), y: LINEAR_ELEVATION, z: self.spec_southing() }
    }

    /// The block at a position inside the layout: the turn lines on the
    /// north and south edges (where the rows link up), the link columns
    /// between rows, the repeaters and main notes of each row, and the cells
    /// of each row's column.
    open spec fn spec_block(&self, pos: BlockPos) -> Block {
        let t = self.spec_track();
        let w = column_width(t.spec_scale());
        let g = t.spec_gap() as int;
        let p = w + g;
        let s = self.spec_southing() as int;
        let x = pos.x as int;
        let y = pos.y as int;
        let z = pos.z as int;
        if (z == 0 && (x + 1 + g) % (2 * p) <= p) || (z + 1 == s && (x + p + 1 + g) % (2 * p) <= p) {
            turn_block(y)
        } else if z > 0 && z + 1 < s && x % p == 0 {
            let cell = x / p;
            let zig = (cell + z) % 2;
            if zig == 1 && g != 0 {
                Block::Air
            } else {
                let row = cell - zig;
                let col = if z % 2 == 0 { (z - 1) / 2 } else { (s - z - 2) / 2 };
                let lx = if zig == 0 { 0 } else { w };
                t.spec_block(row, col, BlockPos { x: lx as i32, y: pos.y, z: 1 })
            }
        } else if x % p == 1 {
            let row = x / p;
            let col = if row % 2 == 0 { (z - 2) / 2 } else { (s - z - 3) / 2 };
            let lz = if row % 2 == 0 { (z - 2) % 2 + 1 } else { (s - z - 3) % 2 + 1 };
            t.spec_block(row, col, BlockPos { x: 1, y: pos.y, z: lz as i32 })
        } else if z > 0 && z + 1 < s && x % p >= 2 {
            let row = x / p;
            let col = if row % 2 == 0 { (z - 1) / 2 } else { (s - z - 2) / 2 };
            let lz = if row % 2 == 0 { (z - 1) % 2 } else { (s - z - 2) % 2 };
            t.spec_block(row, col, BlockPos { x: (x - row * p) as i32, y: pos.y, z: lz as i32 })
        } else {
            Block::Air
        }
    }

    fn size(&self) -> (r: BlockPos) {
        BlockPos { x: self.easting, y: LINEAR_ELEVATION, z: self.southing }
    }

    fn get_block(&self, pos: BlockPos) -> (r: Block) {
        let w = self.track.width();
        let g = self.track.gap as i64;
        let p = w + g;
        let s = self.southing as i64;
        let x = pos.x as i64;
        let y = pos.y as i64;
        let z = pos.z as i64;
        let ghost rows = self.track.spec_rows();
        let ghost cols = self.track.spec_cols();
        proof {
            if let Some(wl) = self.track.wrap_length {
                assert(self.track.scale * 2 * wl > 0) by (nonlinear_arith)
                    requires
                        1 <= self.track.scale,
                        0 < wl,
                ;
                lemma_units_nonneg(self.track.song_length, self.track.scale, wl);
            } else {
                lemma_units_nonneg(self.track.song_length, self.track.scale, 1);
            }
            assert(x / p <= rows) by (nonlinear_arith)
                requires
                    0 <= x < p * rows - g + 1,
                    p > g >= 0,
                    rows >= 0,
            ;
            assert(x / p >= 0 && x % p >= 0) by (nonlinear_arith)
                requires
                    0 <= x,
                    p > 0,
            ;
        }
        if (z == 0 && (x + 1 + g) % (2 * p) <= p) || (z + 1 == s && (x + p + 1 + g) % (2 * p) <= p) {
            if y == 0 {
                Block::Chain
            } else if y == 1 {
                Block::Wire
            } else {
                Block::Air
            }
        } else if z > 0 && z + 1 < s && x % p == 0 {
            let cell = x / p;
            let zig = (cell + z) % 2;
            if zig == 1 && g != 0 {
                Block::Air
            } else {
                let row = cell - zig;
                let col = if z % 2 == 0 {
                    (z - 1) / 2
                } else {
                    (s - z - 2) / 2
                };
                let lx: i32 = if zig == 0 {
                    0
                } else {
                    w as i32
                };
                self.track.get_block(row, col, BlockPos { x: lx, y: pos.y, z: 1 })
            }
        } else if x % p == 1 {
            let row = x / p;
            let (col, lz) = if row % 2 == 0 {
                (div_euclid(z - 2, 2), rem_euclid(z - 2, 2) + 1)
            } else {
                (div_euclid(s - z - 3, 2), rem_euclid(s - z - 3, 2) + 1)
            };
            self.track.get_block(row, col, BlockPos { x: 1, y: pos.y, z: lz as i32 })
        } else if z > 0 && z + 1 < s && x % p >= 2 {
            let row = x / p;
            let (col, lz) = if row % 2 == 0 {
                ((z - 1) / 2, (z - 1) % 2)
            } else {
                ((s - z - 2) / 2, (s - z - 2) % 2)
            };
            proof {
                assert(0 <= x - row * p < p) by (nonlinear_arith)
                    requires
                        row == x / p,
                        p > 0,
                        x >= 0,
                ;
            }
            self.track.get_block(row, col, BlockPos { x: (x - row * p) as i32, y: pos.y, z: lz as i32 })
        } else {
            Block::Air
        }
    }
}

/// Floor division by a positive divisor.
fn div_euclid(a: i64, b: i64) -> (r: i64)
    requires
        b > 0,
    ensures
        r == a / b,
{
    proof {
        assert(a < 0 ==> a <= a / b < 0) by (nonlinear_arith)
            requires
                b > 0,
        ;
        assert(a >= 0 ==> 0 <= a / b <= a) by (nonlinear_arith)
            requires
                b > 0,
        ;
    }
    match a.checked_div_euclid(b) {
        Some(q) => q,
        None => 0,
    }
}

/// The remainder of floor division by a positive divisor.
fn rem_euclid(a: i64, b: i64) -> (r: i64)
    requires
        b > 0,
    ensures
        r == a % b,
        0 <= r < b,
{
    match a.checked_rem_euclid(b) {
        Some(m) => m,
        None => 0,
    }
}


// LinearLayoutMeta
//
// ++++++++++++============++++++++++++============++++++++++++============

/// The ticks of a track's notes, in order.
pub open spec fn track_ticks(notes: Notes<Note>) -> Seq<Tick> {
    notes.entries().map_values(|e: (Position, Note)| e.0.spec_tick())
}

/// The ticks of the notes of the first `n` tracks, track after track.
pub open spec fn all_ticks(tracks: Seq<Notes<Note>>, n: int) -> Seq<Tick>
    decreases n,
{
    if n <= 0 {
        Seq::empty()
    } else {
        all_ticks(tracks, n - 1) + track_ticks(tracks[n - 1])
    }
}

/// Each of the first `n` ticks is a multiple of `d`.
pub open spec fn multiples(ticks: Seq<Tick>, d: int, n: int) -> bool
    decreases n,
{
    n <= 0 || (multiples(ticks, d, n - 1) && ticks[n - 1] as int % d == 0)
}

/// The scale of the tracks: the first of 4, 2 and 3 that divides every
/// tick, else 1.
pub open spec fn meta_scale(ticks: Seq<Tick>) -> Tick {
    let n = ticks.len() as int;
    if multiples(ticks, 4, n) {
        4
    } else if multiples(ticks, 2, n) {
        2
    } else if multiples(ticks, 3, n) {
        3
    } else {
        1
    }
}

/// The largest of the first `n` ticks, or -1.
pub open spec fn last_tick(ticks: Seq<Tick>, n: int) -> int
    decreases n,
{
    if n <= 0 {
        -1
    } else {
        let below = last_tick(ticks, n - 1);
        if ticks[n - 1] > below { ticks[n - 1] as int } else { below }
    }
}

/// The song length of the tracks: their last tick plus one, 0 without
/// notes.
pub open spec fn meta_song_length(ticks: Seq<Tick>) -> int {
    last_tick(ticks, ticks.len() as int) + 1
}


/// The first `n` ticks are multiples of `d` exactly when each of them is.
pub proof fn lemma_multiples(ticks: Seq<Tick>, d: int, n: int)
    requires
        0 <= n <= ticks.len(),
    ensures
        multiples(ticks, d, n) <==> forall|i: int| 0 <= i < n ==> #[trigger] ticks[i] as int % d == 0,
    decreases n,
{
    if n > 0 {
        lemma_multiples(ticks, d, n - 1);
    }
}

/// Law: the scale divides every tick, and it is the first of 4, 2 and 3
/// that does (1 when none does).
pub proof fn lemma_meta_scale(ticks: Seq<Tick>)
    ensures
        forall|i: int| 0 <= i < ticks.len() ==> #[trigger] ticks[i] as int % meta_scale(ticks) as int == 0,
        (forall|i: int| 0 <= i < ticks.len() ==> #[trigger] ticks[i] as int % 4 == 0) <==> meta_scale(ticks) == 4,
        meta_scale(ticks) == 2 <==> (!(forall|i: int| 0 <= i < ticks.len() ==> #[trigger] ticks[i] as int % 4 == 0)
            && forall|i: int| 0 <= i < ticks.len() ==> #[trigger] ticks[i] as int % 2 == 0),
        meta_scale(ticks) == 3 <==> (!(forall|i: int| 0 <= i < ticks.len() ==> #[trigger] ticks[i] as int % 2 == 0)
            && forall|i: int| 0 <= i < ticks.len() ==> #[trigger] ticks[i] as int % 3 == 0),
        meta_scale(ticks) == 1 <==> (!(forall|i: int| 0 <= i < ticks.len() ==> #[trigger] ticks[i] as int % 2 == 0)
            && !(forall|i: int| 0 <= i < ticks.len() ==> #[trigger] ticks[i] as int % 3 == 0)),
{
    let n = ticks.len() as int;
    lemma_multiples(ticks, 4, n);
    lemma_multiples(ticks, 2, n);
    lemma_multiples(ticks, 3, n);
    assert forall|i: int| 0 <= i < n && #[trigger] ticks[i] as int % 4 == 0 implies ticks[i] as int % 2 == 0 by {
        let t = ticks[i] as int;
        assert(t % 4 == 0 ==> t % 2 == 0) by (nonlinear_arith);
    }
}

/// Law: the song length is one past the last tick: no tick reaches it, and
/// the tick before it is a tick (0 without ticks).
pub proof fn lemma_meta_song_length(ticks: Seq<Tick>)
    ensures
        forall|i: int| 0 <= i < ticks.len() ==> #[trigger] ticks[i] < meta_song_length(ticks),
        ticks.len() > 0 ==> exists|i: int| 0 <= i < ticks.len() && #[trigger] ticks[i] == meta_song_length(ticks) - 1,
        ticks.len() == 0 ==> meta_song_length(ticks) == 0,
{
    lemma_last_tick(ticks, ticks.len() as int);
}

proof fn lemma_last_tick(ticks: Seq<Tick>, n: int)
    requires
        0 <= n <= ticks.len(),
    ensures
        forall|i: int| 0 <= i < n ==> #[trigger] ticks[i] <= last_tick(ticks, n),
        n > 0 ==> exists|i: int| 0 <= i < n && #[trigger] ticks[i] == last_tick(ticks, n),
        n == 0 ==> last_tick(ticks, n) == -1,
    decreases n,
{
    if n > 0 {
        lemma_last_tick(ticks, n - 1);
        if n > 1 {
            let j = choose|j: int| 0 <= j < n - 1 && #[trigger] ticks[j] == last_tick(ticks, n - 1);
        }
        if ticks[n - 1] as int > last_tick(ticks, n - 1) {
            assert(ticks[n - 1] == last_tick(ticks, n));
        }
    }
}

/// The song length and the scale that linear layouts of several tracks
/// share.
#[derive(Clone, Copy)]
pub struct LinearLayoutMeta {
    pub song_length: Tick,
    pub scale: Tick,
}

impl LinearLayoutMeta {
    /// The song length (the last tick of any note plus one, 0 without notes)
    /// and the scale of the tracks' notes.
    pub fn new(tracks: &Vec<Notes<Note>>) -> (r: Self)
        requires
            forall|i: int|
                0 <= i < all_ticks(tracks@, tracks@.len() as int).len() ==> #[trigger] all_ticks(
                    tracks@,
                    tracks@.len() as int,
                )[i] < u32::MAX,
        ensures
            r.scale == meta_scale(all_ticks(tracks@, tracks@.len() as int)),
            r.song_length == meta_song_length(all_ticks(tracks@, tracks@.len() as int)),
    {
        let ghost all = all_ticks(tracks@, tracks@.len() as int);
        let mut ticks: Vec<Tick> = Vec::new();
        let mut k: usize = 0;
        while k < tracks.len()
            invariant
                k <= tracks@.len(),
                ticks@ == all_ticks(tracks@, k as int),
            decreases tracks@.len() - k,
        {
            let notes = &tracks[k];
            let mut e: usize = 0;
            let ghost before = ticks@;
            while e < notes.len()
                invariant
                    e <= notes.entries().len(),
                    ticks@ == before + track_ticks(*notes).take(e as int),
                decreases notes.entries().len() - e,
            {
                ticks.push(notes.position_at(e).tick());
                proof {
                    assert(track_ticks(*notes).take(e + 1) =~= track_ticks(*notes).take(e as int).push(
                        notes.entries()[e as int].0.spec_tick(),
                    ));
                }
                e = e + 1;
            }
            proof {
                assert(track_ticks(*notes).take(e as int) =~= track_ticks(*notes));
            }
            k = k + 1;
        }
        let mut by4 = true;
        let mut by2 = true;
        let mut by3 = true;
        let mut top: u32 = 0;
        let mut i: usize = 0;
        while i < ticks.len()
            invariant
                ticks@ == all,
                i <= all.len(),
                forall|j: int| 0 <= j < all.len() ==> #[trigger] all[j] < u32::MAX,
                by4 == multiples(all, 4, i as int),
                by2 == multiples(all, 2, i as int),
                by3 == multiples(all, 3, i as int),
                i > 0 ==> top == last_tick(all, i as int),
                i == 0 ==> last_tick(all, i as int) == -1,
                -1 <= last_tick(all, i as int) < u32::MAX,
            decreases all.len() - i,
        {
            let t = ticks[i];
            by4 = by4 && t % 4 == 0;
            by2 = by2 && t % 2 == 0;
            by3 = by3 && t % 3 == 0;
            if i == 0 || t > top {
                top = t;
            }
            i = i + 1;
        }
        let scale: Tick = if by4 {
            4
        } else if by2 {
            2
        } else if by3 {
            3
        } else {
            1
        };
        let song_length = if ticks.len() == 0 {
            0
        } else {
            top + 1
        };
        LinearLayoutMeta { song_length, scale }
    }
}

// MultiLinearLayout
//
// ++++++++++++============++++++++++++============++++++++++++============

/// The tracks' common layout parameters, for `gap` blocks between rows and
/// rows of 16 cells, fit, and the tracks side by side, `gap` blocks apart,
/// fit within 32-bit coordinates.
pub open spec fn multi_linear_fits(tracks: Seq<Notes<Note>>, gap: u32) -> bool {
    let ticks = all_ticks(tracks, tracks.len() as int);
    let song_length = meta_song_length(ticks) as Tick;
    let scale = meta_scale(ticks);
    &&& forall|i: int| 0 <= i < ticks.len() ==> #[trigger] ticks[i] < u32::MAX
    &&& linear_fits(song_length, scale, Some(16), gap)
    &&& tracks.len() * (linear_easting(song_length, scale, Some(16), gap) + gap) <= i32::MAX
}

/// Linear tracks side by side, west to east, `gap` blocks apart, all laid
/// out with the same song length and scale and rows of 16 cells.
pub struct MultiLinearLayout {
    layouts: Vec<LinearLayout>,
    pitch: i32,
    size: BlockPos,
}

impl MultiLinearLayout {
    /// The layouts of the tracks.
    pub closed spec fn spec_layouts(&self) -> Seq<LinearLayout> {
        self.layouts@
    }

    /// The distance from one track's start to the next one's.
    pub closed spec fn spec_pitch(&self) -> i32 {
        self.pitch
    }

    /// The size of the bounding box.
    pub closed spec fn spec_extent(&self) -> BlockPos {
        self.size
    }




    /// Lays out each track's notes with the tracks' common song length and
    /// scale, rows of 16 cells, and `gap` blocks between rows and between
    /// tracks.
    #[verifier::spinoff_prover]
    pub fn new(tracks: Vec<Notes<Note>>, gap: u32) -> (r: Self)
        requires
            forall|k: int| 0 <= k < tracks@.len() ==> (#[trigger] tracks@[k]).wf(),
            multi_linear_fits(tracks@, gap),
        ensures
            r.wf(),
            r.spec_layouts().len() == tracks@.len(),
            forall|k: int|
                0 <= k < tracks@.len() ==> {
                    let t = (#[trigger] r.spec_layouts()[k]).spec_track();
                    let ticks = all_ticks(tracks@, tracks@.len() as int);
                    &&& t.spec_notes() == tracks@[k]
                    &&& t.spec_scale() == meta_scale(ticks)
                    &&& t.spec_song_length() == meta_song_length(ticks)
                    &&& t.spec_wrap_length() == Some(16u32)
                    &&& t.spec_gap() == gap
                },
            tracks@.len() > 0 ==> r.spec_pitch() == linear_easting(
                r.spec_layouts()[0].spec_track().spec_song_length(),
                r.spec_layouts()[0].spec_track().spec_scale(),
                Some(16),
                gap,
            ) + gap,
            tracks@.len() == 0 ==> r.spec_size() == (BlockPos { x: 0, y: 0, z: 0 }),
            tracks@.len() > 0 ==> r.spec_size() == (BlockPos {
                x: (tracks@.len() * r.spec_pitch() - gap) as i32,
                y: LINEAR_ELEVATION,
                z: r.spec_layouts()[0].spec_southing(),
            }),
    {
        let ghost all = tracks@;
        let ghost ticks = all_ticks(all, all.len() as int);
        let meta = LinearLayoutMeta::new(&tracks);
        let n = tracks.len();
        let mut queue = crate::notes::reversed(tracks);
        let mut layouts: Vec<LinearLayout> = Vec::new();
        let ghost easting = linear_easting(meta.song_length, meta.scale, Some(16), gap);
        let ghost southing = linear_southing(meta.song_length, meta.scale, Some(16));
        let mut k: usize = 0;
        while k < n
            invariant
                n == all.len(),
                k <= n,
                queue@ == all.subrange(k as int, n as int).reverse(),
                forall|j: int| 0 <= j < n ==> (#[trigger] all[j]).wf(),
                linear_fits(meta.song_length, meta.scale, Some(16), gap),
                easting == linear_easting(meta.song_length, meta.scale, Some(16), gap),
                southing == linear_southing(meta.song_length, meta.scale, Some(16)),
                layouts@.len() == k,
                forall|j: int|
                    0 <= j < k ==> {
                        let l = #[trigger] layouts@[j];
                        &&& l.wf()
                        &&& l.spec_track().spec_notes() == all[j]
                        &&& l.spec_track().spec_song_length() == meta.song_length
                        &&& l.spec_track().spec_scale() == meta.scale
                        &&& l.spec_track().spec_wrap_length() == Some(16u32)
                        &&& l.spec_track().spec_gap() == gap
                        &&& l.spec_easting() == easting
                        &&& l.spec_southing() == southing
                    },
            decreases n - k,
        {
            let notes = match queue.pop() {
                Some(notes) => notes,
                None => Notes::new(),
            };
            proof {
                assert(all.subrange(k as int, n as int).reverse().last() == all[k as int]);
            }
            let layout = LinearLayout::new(notes, meta.song_length, meta.scale, Some(16), gap);
            layouts.push(layout);
            proof {
                assert(queue@ =~= all.subrange(k + 1, n as int).reverse());
            }
            k = k + 1;
        }
        if n == 0 {
            let r = MultiLinearLayout { layouts, pitch: 1, size: BlockPos { x: 0, y: 0, z: 0 } };
            proof {
                assert(r.spec_layouts().len() == 0);
                assert(r.spec_size() == (BlockPos { x: 0, y: 0, z: 0 }));
                assert(r.wf());
            }
            return r;
        }
        let first = &layouts[0];
        proof {
            assert(meta.song_length == meta_song_length(ticks) as Tick);
            assert(n * (easting + gap) <= i32::MAX);
            assert(easting + gap <= n * (easting + gap)) by (nonlinear_arith)
                requires
                    n >= 1,
                    easting + gap >= 0,
            ;
            assert(first.spec_easting() == easting);
        }
        let pitch = first.easting + gap as i32;
        proof {
            assert(pitch == easting + gap);
            assert(n * pitch <= i32::MAX);
            assert(n * pitch >= pitch && n * pitch >= n) by (nonlinear_arith)
                requires
                    n >= 1,
                    pitch >= 1,
            ;
        }
        let width = (n as i64 * pitch as i64 - gap as i64) as i32;
        proof {
            assert(n * pitch - gap <= n * pitch);
        }
        let size = BlockPos { x: width, y: LINEAR_ELEVATION, z: first.southing };
        MultiLinearLayout { layouts, pitch, size }
    }


}

impl Layout for MultiLinearLayout {
    /// Each track is laid out, each starts a pitch east of the previous one
    /// and spans at most the pitch, and the size spans them all.
    open spec fn wf(&self) -> bool {
        let ls = self.spec_layouts();
        &&& forall|k: int| 0 <= k < ls.len() ==> (#[trigger] ls[k]).wf()
        &&& forall|k: int| 0 <= k < ls.len() ==> (#[trigger] ls[k]).spec_easting() <= self.spec_pitch()
        &&& forall|k: int|
            0 <= k < ls.len() ==> (#[trigger] ls[k]).spec_southing() == self.spec_size().z
        &&& self.spec_pitch() > 0
        &&& ls.len() * self.spec_pitch() <= i32::MAX
        &&& ls.len() == 0 ==> self.spec_size() == (BlockPos { x: 0, y: 0, z: 0 })
        &&& ls.len() > 0 ==> self.spec_size().x <= ls.len() * self.spec_pitch()
        &&& ls.len() > 0 ==> self.spec_size().y == LINEAR_ELEVATION
    }

    /// The size of the bounding box.
    open spec fn spec_size(&self) -> BlockPos {
        self.spec_extent()
    }

    /// The block at a position: that of the track it falls in, else air.
    open spec fn spec_block(&self, pos: BlockPos) -> Block {
        let k = pos.x / self.spec_pitch();
        let lx = pos.x - k * self.spec_pitch();
        let l = self.spec_layouts()[k];
        if lx < l.spec_easting() {
            l.spec_block(BlockPos { x: lx as i32, y: pos.y, z: pos.z })
        } else {
            Block::Air
        }
    }

    fn size(&self) -> (r: BlockPos) {
        self.size
    }

    fn get_block(&self, pos: BlockPos) -> (r: Block) {
        let n = self.layouts.len();
        let p = self.pitch as i64;
        let x = pos.x as i64;
        let k = x / p;
        proof {
            assert(n > 0);
            assert(0 <= k < n && 0 <= x - k * p < p) by (nonlinear_arith)
                requires
                    k == x / p,
                    0 <= x < n * p,
                    p > 0,
            ;
        }
        let layout = &self.layouts[k as usize];
        let lx = x - k * p;
        if lx < layout.easting as i64 {
            layout.get_block(BlockPos { x: lx as i32, y: pos.y, z: pos.z })
        } else {
            Block::Air
        }
    }
}


// StackedLinearLayout
//
// ++++++++++++============++++++++++++============++++++++++++============

/// The tracks can be stacked: their notes lie before the last tick, their
/// common layout fits, and the stack's height fits in 32 bits.
pub open spec fn stacked_linear_fits(tracks: Seq<Notes<Note>>, wrap_length: Option<Tick>, gap: u32) -> bool {
    let ticks = all_ticks(tracks, tracks.len() as int);
    &&& forall|i: int| 0 <= i < ticks.len() ==> #[trigger] ticks[i] < u32::MAX
    &&& linear_fits(meta_song_length(ticks) as Tick, meta_scale(ticks), wrap_length, gap)
    &&& tracks.len() * 4 <= i32::MAX
}

/// Linear tracks each on its own floor, stacked four blocks apart from the
/// bottom up, all laid out with the same song length and scale.
pub struct StackedLinearLayout {
    layers: Vec<WithFloor<LinearLayout>>,
    size: BlockPos,
}

impl StackedLinearLayout {
    /// The floored layouts of the tracks, from the bottom up.
    pub closed spec fn spec_layers(&self) -> Seq<WithFloor<LinearLayout>> {
        self.layers@
    }

    /// The size of the bounding box.
    pub closed spec fn spec_extent(&self) -> BlockPos {
        self.size
    }

    /// Whether the tracks can be stacked (see [`stacked_linear_fits`]).
    pub fn fits(tracks: &Vec<Notes<Note>>, wrap_length: Option<Tick>, gap: u32) -> (r: bool)
        ensures
            r == stacked_linear_fits(tracks@, wrap_length, gap),
    {
        if !below_last_tick(tracks) {
            return false;
        }
        let meta = LinearLayoutMeta::new(tracks);
        linear_layout_fits(meta.song_length, meta.scale, wrap_length, gap) && tracks.len() <= 536870911
    }

    /// Lays out each track's notes with the tracks' common song length and
    /// scale, rows wrapped at `wrap_length` cells, `gap` blocks between
    /// rows, each on a floor (full, or only under the blocks that need it).
    pub fn new(tracks: Vec<Notes<Note>>, wrap_length: Option<Tick>, gap: u32, full: bool) -> (r: Self)
        requires
            forall|k: int| 0 <= k < tracks@.len() ==> (#[trigger] tracks@[k]).wf(),
            stacked_linear_fits(tracks@, wrap_length, gap),
        ensures
            r.wf(),
            r.spec_layers().len() == tracks@.len(),
            forall|k: int|
                0 <= k < tracks@.len() ==> {
                    let f = #[trigger] r.spec_layers()[k];
                    let t = f.spec_layout().spec_track();
                    let ticks = all_ticks(tracks@, tracks@.len() as int);
                    &&& f.spec_full() == full
                    &&& t.spec_notes() == tracks@[k]
                    &&& t.spec_scale() == meta_scale(ticks)
                    &&& t.spec_song_length() == meta_song_length(ticks)
                    &&& t.spec_wrap_length() == wrap_length
                    &&& t.spec_gap() == gap
                },
    {
        let ghost all = tracks@;
        let ghost ticks = all_ticks(all, all.len() as int);
        let meta = LinearLayoutMeta::new(&tracks);
        let n = tracks.len();
        let mut queue = crate::notes::reversed(tracks);
        let mut layers: Vec<WithFloor<LinearLayout>> = Vec::new();
        let ghost lsize = BlockPos {
            x: linear_easting(meta.song_length, meta.scale, wrap_length, gap) as i32,
            y: 3i32,
            z: linear_southing(meta.song_length, meta.scale, wrap_length) as i32,
        };
        let mut k: usize = 0;
        while k < n
            invariant
                n == all.len(),
                k <= n,
                queue@ == all.subrange(k as int, n as int).reverse(),
                forall|j: int| 0 <= j < n ==> (#[trigger] all[j]).wf(),
                linear_fits(meta.song_length, meta.scale, wrap_length, gap),
                meta.song_length == meta_song_length(ticks) as Tick,
                meta.scale == meta_scale(ticks),
                lsize == (BlockPos {
                    x: linear_easting(meta.song_length, meta.scale, wrap_length, gap) as i32,
                    y: 3i32,
                    z: linear_southing(meta.song_length, meta.scale, wrap_length) as i32,
                }),
                layers@.len() == k,
                forall|j: int|
                    0 <= j < k ==> {
                        let f = #[trigger] layers@[j];
                        let t = f.spec_layout().spec_track();
                        &&& f.wf()
                        &&& f.spec_size() == lsize
                        &&& f.spec_full() == full
                        &&& t.spec_notes() == all[j]
                        &&& t.spec_song_length() == meta.song_length
                        &&& t.spec_scale() == meta.scale
                        &&& t.spec_wrap_length() == wrap_length
                        &&& t.spec_gap() == gap
                    },
            decreases n - k,
        {
            let notes = match queue.pop() {
                Some(notes) => notes,
                None => Notes::new(),
            };
            proof {
                assert(all.subrange(k as int, n as int).reverse().last() == all[k as int]);
            }
            let layout = LinearLayout::new(notes, meta.song_length, meta.scale, wrap_length, gap);
            let floored = WithFloor::new(layout, full);
            layers.push(floored);
            proof {
                assert(queue@ =~= all.subrange(k + 1, n as int).reverse());
            }
            k = k + 1;
        }
        if n == 0 {
            return StackedLinearLayout { layers, size: BlockPos { x: 0, y: 0, z: 0 } };
        }
        let first = layers[0].size();
        let size = BlockPos { x: first.x, y: 4 * (n as i32 - 1) + 3, z: first.z };
        StackedLinearLayout { layers, size }
    }
}

impl Layout for StackedLinearLayout {
    /// Every layer is well formed and of one size, as wide and deep as the
    /// stack, whose height reaches the top of the last layer.
    open spec fn wf(&self) -> bool {
        let ls = self.spec_layers();
        let s = self.spec_extent();
        &&& forall|k: int|
            0 <= k < ls.len() ==> (#[trigger] ls[k]).wf() && ls[k].spec_size() == (BlockPos {
                x: s.x,
                y: 3i32,
                z: s.z,
            })
        &&& ls.len() * 4 <= i32::MAX
        &&& ls.len() == 0 ==> s == (BlockPos { x: 0, y: 0, z: 0 })
        &&& ls.len() > 0 ==> s.y == 4 * (ls.len() - 1) + 3
    }

    /// The size of the bounding box.
    open spec fn spec_size(&self) -> BlockPos {
        self.spec_extent()
    }

    /// The block of the layer that starts at or below the position, four
    /// blocks per layer, where the position falls inside that layer, else air.
    open spec fn spec_block(&self, pos: BlockPos) -> Block {
        let k = pos.y / 4;
        let y = pos.y % 4;
        if y < LINEAR_ELEVATION + 1 {
            self.spec_layers()[k].spec_block(BlockPos { x: pos.x, y: y as i32, z: pos.z })
        } else {
            Block::Air
        }
    }

    fn size(&self) -> (r: BlockPos) {
        self.size
    }

    fn get_block(&self, pos: BlockPos) -> (r: Block) {
        let k = pos.y / 4;
        let y = pos.y % 4;
        proof {
            assert(0 <= k < self.layers@.len()) by {
                assert(pos.y < 4 * (self.layers@.len() - 1) + 3);
            }
        }
        if y < LINEAR_ELEVATION + 1 {
            self.layers[k as usize].get_block(BlockPos { x: pos.x, y, z: pos.z })
        } else {
            Block::Air
        }
    }
}

// Templates
//
// ++++++++++++============++++++++++++============++++++++++++============

/// A repeater tile: its delay (the track scale) and facing.
#[derive(Debug, Clone, Copy, PartialEq, Eq, Structural)]
pub struct Repeater {
    delay: u8,
    facing: Facing,
}

impl Repeater {
    /// A repeater of `delay` facing `facing`.
    pub fn new(delay: u8, facing: Facing) -> (r: Self)
        ensures
            r.spec_delay() == delay,
            r.spec_facing() == facing,
    {
        Repeater { delay, facing }
    }

    /// The delay.
    pub closed spec fn spec_delay(&self) -> u8 {
        self.delay
    }

    /// The facing.
    pub closed spec fn spec_facing(&self) -> Facing {
        self.facing
    }

    /// The signal repeater: the full delay, facing the way the data runs.
    pub open spec fn spec_signal(&self) -> Block {
        Block::Repeater(self.spec_delay() as u32, self.spec_facing())
    }

    /// The logic repeater of a branch: half the delay, facing west.
    pub open spec fn spec_logic(&self) -> Block {
        Block::Repeater((self.spec_delay() / 2) as u32, Facing::West)
    }

    /// The signal repeater block.
    pub fn block(self) -> (r: Block)
        ensures
            r == self.spec_signal(),
    {
        Block::Repeater(self.delay as u32, self.facing)
    }

    /// The logic repeater block.
    pub fn logic_block(self) -> (r: Block)
        ensures
            r == self.spec_logic(),
    {
        Block::Repeater((self.delay / 2) as u32, Facing::West)
    }
}

/// A fixed-shape cell of a linear track, 6 by 2 by 2 blocks, its notes
/// baked in.
#[derive(Debug, Clone, Copy, PartialEq, Eq)]
pub enum Template {
    /// Repeater branch cell: logic column at x3, branch notes at x0/x1,
    /// main notes at x4/x5.
    Branch { repeater: Repeater, branch: [Option<Tone>; 2], notes: [Option<Tone>; 2] },
    /// Piston branch cell: piston column at x2/x3, branch notes at x0,
    /// main notes at x4/x5.
    Piston { repeater: Repeater, branch: [Option<Tone>; 2], notes: [Option<Tone>; 2] },
    /// Note cell: spare note at x3, main notes at x4/x5.
    Note { repeater: Repeater, notes: [Option<Tone>; 3] },
}

/// The main column of a cell: the repeater over a chain at z0, the first
/// main note over its instrument at x4 and the second at x5, both at z1.
pub open spec fn main_column(repeater: Repeater, n0: Option<Tone>, n1: Option<Tone>, x: int, y: int, z: int) -> Option<Block> {
    if x == 4 && y == 0 && z == 0 {
        Some(Block::Chain)
    } else if x == 4 && y == 1 && z == 0 {
        Some(repeater.spec_signal())
    } else if x == 4 && y == 0 && z == 1 {
        Some(Block::InstrumentBase(n0, Fallback::Chain))
    } else if x == 4 && y == 1 && z == 1 {
        Some(Block::NoteBlock(n0, Fallback::Chain))
    } else if x == 5 && y == 0 && z == 1 {
        Some(Block::InstrumentBase(n1, Fallback::Air))
    } else if x == 5 && y == 1 && z == 1 {
        Some(Block::NoteBlock(n1, Fallback::Air))
    } else {
        None
    }
}

impl Template {
    /// The block at a position of the cell, if the cell has one there.
    pub open spec fn spec_block_at(&self, pos: BlockPos) -> Option<Block> {
        let x = pos.x as int;
        let y = pos.y as int;
        let z = pos.z as int;
        match *self {
            Template::Branch { repeater, branch, notes } => {
                if x == 0 && y == 0 && z == 1 {
                    Some(Block::InstrumentBase(branch[1], Fallback::Air))
                } else if x == 0 && y == 1 && z == 1 {
                    Some(Block::NoteBlock(branch[1], Fallback::Air))
                } else if x == 1 && y == 0 && z == 1 {
                    Some(Block::InstrumentBase(branch[0], Fallback::Chain))
                } else if x == 1 && y == 1 && z == 1 {
                    Some(Block::NoteBlock(branch[0], Fallback::Chain))
                } else if x == 3 && y == 0 && z == 1 {
                    Some(Block::Chain)
                } else if x == 3 && y == 1 && z == 1 {
                    Some(repeater.spec_logic())
                } else {
                    main_column(repeater, notes[0], notes[1], x, y, z)
                }
            },
            Template::Piston { repeater, branch, notes } => {
                if x == 0 && y == 0 && z == 1 {
                    Some(Block::InstrumentBase(branch[1], Fallback::Air))
                } else if x == 0 && y == 1 && z == 1 {
                    Some(Block::NoteBlock(branch[1], Fallback::Air))
                } else if x == 2 && y == 1 && z == 1 {
                    Some(Block::RedstoneBlock)
                } else if x == 3 && y == 1 && z == 1 {
                    Some(Block::StickyPiston(Facing::West))
                } else {
                    main_column(repeater, notes[0], notes[1], x, y, z)
                }
            },
            Template::Note { repeater, notes } => {
                if x == 3 && y == 0 && z == 1 {
                    Some(Block::InstrumentBase(notes[2], Fallback::Air))
                } else if x == 3 && y == 1 && z == 1 {
                    Some(Block::NoteBlock(notes[2], Fallback::Air))
                } else {
                    main_column(repeater, notes[0], notes[1], x, y, z)
                }
            },
        }
    }

    /// The block at a position of the cell, if the cell has one there.
    pub fn block_at(&self, pos: BlockPos) -> (r: Option<Block>)
        ensures
            r == self.spec_block_at(pos),
    {
        let (x, y, z) = (pos.x, pos.y, pos.z);
        match *self {
            Template::Branch { repeater, branch, notes } => {
                if x == 0 && y == 0 && z == 1 {
                    Some(Block::InstrumentBase(branch[1], Fallback::Air))
                } else if x == 0 && y == 1 && z == 1 {
                    Some(Block::NoteBlock(branch[1], Fallback::Air))
                } else if x == 1 && y == 0 && z == 1 {
                    Some(Block::InstrumentBase(branch[0], Fallback::Chain))
                } else if x == 1 && y == 1 && z == 1 {
                    Some(Block::NoteBlock(branch[0], Fallback::Chain))
                } else if x == 3 && y == 0 && z == 1 {
                    Some(Block::Chain)
                } else if x == 3 && y == 1 && z == 1 {
                    Some(repeater.logic_block())
                } else {
                    main_column_block(repeater, notes[0], notes[1], x, y, z)
                }
            },
            Template::Piston { repeater, branch, notes } => {
                if x == 0 && y == 0 && z == 1 {
                    Some(Block::InstrumentBase(branch[1], Fallback::Air))
                } else if x == 0 && y == 1 && z == 1 {
                    Some(Block::NoteBlock(branch[1], Fallback::Air))
                } else if x == 2 && y == 1 && z == 1 {
                    Some(Block::RedstoneBlock)
                } else if x == 3 && y == 1 && z == 1 {
                    Some(Block::StickyPiston(Facing::West))
                } else {
                    main_column_block(repeater, notes[0], notes[1], x, y, z)
                }
            },
            Template::Note { repeater, notes } => {
                if x == 3 && y == 0 && z == 1 {
                    Some(Block::InstrumentBase(notes[2], Fallback::Air))
                } else if x == 3 && y == 1 && z == 1 {
                    Some(Block::NoteBlock(notes[2], Fallback::Air))
                } else {
                    main_column_block(repeater, notes[0], notes[1], x, y, z)
                }
            },
        }
    }

    /// The size of a cell.
    pub fn size(&self) -> (r: BlockPos)
        ensures
            r == (BlockPos { x: 6, y: 2, z: 2 }),
    {
        BlockPos { x: 6, y: 2, z: 2 }
    }
}

fn main_column_block(repeater: Repeater, n0: Option<Tone>, n1: Option<Tone>, x: i32, y: i32, z: i32) -> (r: Option<Block>)
    ensures
        r == main_column(repeater, n0, n1, x as int, y as int, z as int),
{
    if x == 4 && y == 0 && z == 0 {
        Some(Block::Chain)
    } else if x == 4 && y == 1 && z == 0 {
        Some(repeater.block())
    } else if x == 4 && y == 0 && z == 1 {
        Some(Block::InstrumentBase(n0, Fallback::Chain))
    } else if x == 4 && y == 1 && z == 1 {
        Some(Block::NoteBlock(n0, Fallback::Chain))
    } else if x == 5 && y == 0 && z == 1 {
        Some(Block::InstrumentBase(n1, Fallback::Air))
    } else if x == 5 && y == 1 && z == 1 {
        Some(Block::NoteBlock(n1, Fallback::Air))
    } else {
        None
    }
}


/// Whether a linear layout with these parameters fits (see [`linear_fits`]).
pub fn linear_layout_fits(song_length: Tick, scale: Tick, wrap_length: Option<Tick>, gap: u32) -> (r: bool)
    ensures
        r == linear_fits(song_length, scale, wrap_length, gap),
{
    if scale < 1 || scale > 4 || gap > 2147483647 {
        return false;
    }
    if let Some(w) = wrap_length {
        proof {
            assert(scale as u64 * 2 * w as u64 <= 8 * 4294967295) by (nonlinear_arith)
                requires
                    scale <= 4,
                    w <= 4294967295,
            ;
        }
        if w == 0 || scale as u64 * 2 * w as u64 > 4294967295 {
            return false;
        }
    }
    let rows: u32 = match wrap_length {
        None => 1,
        Some(w) => length_in_units(song_length, scale, w),
    };
    let cols: u32 = match wrap_length {
        None => length_in_units(song_length, scale, 1),
        Some(w) => w,
    };
    let width: u128 = if scale == 1 || scale == 3 {
        5
    } else {
        4
    };
    let p: u128 = width + gap as u128;
    let rows = rows as u128;
    let cols = cols as u128;
    let scale = scale as u128;
    proof {
        assert(p * (rows + 2) <= 8589934592 * 4294967297) by (nonlinear_arith)
            requires
                p <= 8589934592,
                rows <= 4294967295,
        ;
        assert((rows + 1) * cols <= 4294967296 * 4294967295) by (nonlinear_arith)
            requires
                cols <= 4294967295,
                rows <= 4294967295,
        ;
        assert(((rows + 1) * cols + 2) * scale * 2 <= (4294967296 * 4294967295 + 2) * 8) by (nonlinear_arith)
            requires
                (rows + 1) * cols <= 4294967296 * 4294967295,
                scale <= 4,
        ;
        assert(p * rows <= p * (rows + 2)) by (nonlinear_arith)
            requires
                p >= 0,
                rows >= 0,
        ;
    }
    p * rows >= gap as u128 && p * (rows + 2) + 2 <= 2147483647 && cols * 2 + 2 <= 2147483647 && ((rows + 1) * cols
        + 2) * scale * 2 + 3 <= 2147483647
}

/// Whether every note of the tracks lies before the last tick.
fn below_last_tick(tracks: &Vec<Notes<Note>>) -> (r: bool)
    ensures
        r == forall|i: int|
            0 <= i < all_ticks(tracks@, tracks@.len() as int).len() ==> #[trigger] all_ticks(tracks@, tracks@.len() as int)[i]
                < u32::MAX,
{
        let mut k: usize = 0;
        while k < tracks.len()
            invariant
                k <= tracks@.len(),
                forall|i: int|
                    0 <= i < all_ticks(tracks@, k as int).len() ==> #[trigger] all_ticks(tracks@, k as int)[i] < u32::MAX,
            decreases tracks@.len() - k,
        {
            let notes = &tracks[k];
            let ghost before = all_ticks(tracks@, k as int);
            let mut e: usize = 0;
            while e < notes.len()
                invariant
                    k < tracks@.len(),
                    *notes == tracks@[k as int],
                    e <= notes.entries().len(),
                    before == all_ticks(tracks@, k as int),
                    forall|i: int| 0 <= i < before.len() ==> #[trigger] before[i] < u32::MAX,
                    forall|i: int| 0 <= i < e ==> #[trigger] track_ticks(*notes)[i] < u32::MAX,
                decreases notes.entries().len() - e,
            {
                if notes.position_at(e).tick() == 4294967295 {
                    proof {
                        let at = all_ticks(tracks@, k + 1);
                        assert(at == before + track_ticks(tracks@[k as int]));
                        assert(at[before.len() + e] == track_ticks(*notes)[e as int]);
                        assert(track_ticks(*notes)[e as int] == u32::MAX);
                        lemma_all_ticks_prefix(tracks@, k + 1, tracks@.len() as int);
                        let whole = all_ticks(tracks@, tracks@.len() as int);
                        assert(whole[before.len() + e] == u32::MAX);
                    }
                    return false;
                }
                e = e + 1;
            }
            proof {
                let at = all_ticks(tracks@, k + 1);
                assert(at == before + track_ticks(tracks@[k as int]));
                assert forall|i: int| 0 <= i < at.len() implies #[trigger] at[i] < u32::MAX by {
                    if i >= before.len() {
                        assert(at[i] == track_ticks(*notes)[i - before.len()]);
                    }
                }
            }
            k = k + 1;
        }
        true
}

impl MultiLinearLayout {
    /// Whether the tracks' layouts fit (see [`multi_linear_fits`]).
    pub fn fits(tracks: &Vec<Notes<Note>>, gap: u32) -> (r: bool)
        ensures
            r == multi_linear_fits(tracks@, gap),
    {
        if !below_last_tick(tracks) {
            return false;
        }
        let meta = LinearLayoutMeta::new(tracks);
        if !linear_layout_fits(meta.song_length, meta.scale, Some(16), gap) {
            return false;
        }
        let rows = length_in_units(meta.song_length, meta.scale, 16) as u128;
        let width: u128 = if meta.scale == 1 || meta.scale == 3 {
            5
        } else {
            4
        };
        proof {
            assert((width + gap) * rows >= gap);
            assert((width + gap) * (rows + 2) + 2 <= i32::MAX);
            assert((width + gap) * rows <= (width + gap) * (rows + 2)) by (nonlinear_arith)
                requires
                    width + gap >= 0,
                    rows >= 0,
            ;
        }
        let easting: u128 = (width + gap as u128) * rows - gap as u128 + 1;
        let n = tracks.len();
        proof {
            assert(n == tracks@.len());
            assert(tracks@.len() * (easting + gap) <= 18446744073709551615 * 4294967296u128) by (nonlinear_arith)
                requires
                    easting + gap <= 4294967296,
                    tracks@.len() <= 18446744073709551615,
            ;
        }
        n as u128 * (easting + gap as u128) <= 2147483647
    }
}

/// The ticks of the first `k` tracks begin the ticks of the first `n`.
proof fn lemma_all_ticks_prefix(tracks: Seq<Notes<Note>>, k: int, n: int)
    requires
        0 <= k <= n,
    ensures
        all_ticks(tracks, k).len() <= all_ticks(tracks, n).len(),
        forall|i: int| 0 <= i < all_ticks(tracks, k).len() ==> #[trigger] all_ticks(tracks, n)[i] == all_ticks(tracks, k)[i],
    decreases n,
{
    if k < n {
        lemma_all_ticks_prefix(tracks, k, n - 1);
    }
}

} // verus!
