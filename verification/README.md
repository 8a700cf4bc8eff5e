# rsnbs

A library for songs of [Open Note Block Studio](https://opennbs.org/) (`.nbs`
files), with layouts that turn a song into a Minecraft note block structure and
an analysis that finds repeated patterns a delay line can replay. The library is
written in Verus: its functions carry `requires`/`ensures` contracts, and Verus
proves that the code meets them.

## Layout

- `src/` — the verified library
  - `types.rs`, `error.rs` — versions, positions, volumes, pannings, errors
  - `note.rs`, `notes.rs` — instruments, keys, tones, notes; the ordered note
    set and its splitting and stacking operations
  - `bytes.rs`, `codec.rs`, `song.rs`, `translate.rs` — the NBS file format:
    byte-level reading and writing, headers, note streams, layers, custom
    instruments, and the translation of instruments for older versions
  - `roundtrip.rs` — the proof that reading a written song gives it back
  - `util.rs`, `layering.rs` — pattern matching over notes, and stacking note
    slices on separate layers
  - `layout.rs` — the `Layout` trait (a box of blocks, with a function from
    a position to a block) and the floor put under a layout
  - `compact.rs`, `linear.rs` — the compact and linear note block layouts,
    side by side or (linear) stacked on floors
  - `analysis.rs`, `reuse.rs`, `tec.rs` — the time/event plane, the reuse
    flows that peel arithmetic layers off it (`M = K (+) S + R`), and the
    translation equivalence classes built from a plan; the kernel that a
    flow takes for a scatter is stated as a function of what is left
    (`greedy_kernel`: anchors taken fewest conflicts first, ties by the
    smaller tick, each with the least capacity of the ticks it covers), and
    the beam flow's choice is stated as a relation between beam levels
    (`beam_round`: stable sorts by gain and by accumulated gain, the best
    path of the last level reached committed)
- `tests/` — tests on hand-worked inputs
- `app/` — the command line front end: file I/O, tempo rescaling (floating
  point), rendering blocks as Minecraft block states and writing litematic
  schematics

## Trust

The library reads and writes Windows-1252 text through `encoding_rs`; the
contracts of those calls are stated, not proved, in `bytes.rs`, as are those
of the standard library calls that build an I/O error for a truncated file
and render the text of an I/O or integer conversion error (`error.rs`).
