//! Instrument translation between a song and a file of an older NBS version.
//! A version stores the vanilla instruments below its vanilla count only;
//! the others travel as custom instruments with their standard definitions
//! ("presets") at the head of the custom instrument table, and reading a
//! file folds such entries back into vanilla instruments.

use crate::note::{
    lemma_definitions_distinct, lemma_vanilla_at, spec_nbs_definition, spec_vanilla_at, spec_vanilla_index, Instrument,
    Note, Tone,
};
use crate::notes::{map_of, Notes};
use crate::song::{CustomInstrument, Song};
use crate::types::{Position, Version};
use vstd::prelude::*;
use vstd::string::StringExecFns;

verus! {

broadcast use vstd::seq_lib::group_seq_properties;

/// The definition of the vanilla instrument at index `k`.
pub open spec fn preset_definition(k: int) -> (Seq<char>, Seq<char>) {
    spec_nbs_definition(spec_vanilla_at(k as u8).unwrap()).unwrap()
}

/// The first vanilla instrument at an index from `k` up whose definition is
/// `(name, file)`.
pub open spec fn preset_from(k: int, name: Seq<char>, file: Seq<char>) -> Option<Instrument>
    decreases 20 - k,
{
    if k < 0 || k >= 20 {
        None
    } else if preset_definition(k) == (name, file) {
        spec_vanilla_at(k as u8)
    } else {
        preset_from(k + 1, name, file)
    }
}

/// The vanilla instrument that the custom entry `c` stands for in a file
/// whose custom instruments start at `fci`: the first preset (a vanilla
/// instrument the file cannot store) with the entry's name and file.
pub open spec fn fold_target(fci: u8, c: CustomInstrument) -> Option<Instrument> {
    preset_from(fci as int, c.name@, c.file@)
}

/// The number of entries among the first `n` that stand for presets.
pub open spec fn presets_below(fci: u8, cs: Seq<CustomInstrument>, n: int) -> int
    decreases n,
{
    if n <= 0 {
        0
    } else {
        presets_below(fci, cs, n - 1) + if fold_target(fci, cs[n - 1]) is Some { 1int } else { 0int }
    }
}

/// The instrument `i` after folding the table `cs`: a custom slot of a
/// preset entry becomes its vanilla instrument, any other custom slot moves
/// down by the preset entries before it; other instruments stay.
pub open spec fn folded_instrument(fci: u8, cs: Seq<CustomInstrument>, i: Instrument) -> Instrument {
    match i {
        Instrument::Custom(slot) => if (slot as int) < cs.len() && fold_target(fci, cs[slot as int]) is Some {
            fold_target(fci, cs[slot as int]).unwrap()
        } else {
            Instrument::Custom(
                (slot - presets_below(fci, cs, if (slot as int) < cs.len() { slot as int } else { cs.len() as int })) as u8,
            )
        },
        _ => i,
    }
}

/// The note `n` with its instrument folded.
pub open spec fn folded_note(fci: u8, cs: Seq<CustomInstrument>, n: Note) -> Note {
    Note { tone: Tone { instrument: folded_instrument(fci, cs, n.tone.instrument), key: n.tone.key }, ..n }
}

/// The entries that do not stand for presets, in order.
pub open spec fn kept_entries(fci: u8, cs: Seq<CustomInstrument>) -> Seq<CustomInstrument> {
    cs.filter(|c: CustomInstrument| fold_target(fci, c) is None)
}

/// The preset definitions a file whose custom instruments start at `fci`
/// puts at the head of its table: one per vanilla index from `fci` up.
pub open spec fn is_preset_table(fci: u8, t: Seq<CustomInstrument>) -> bool {
    &&& t.len() == 20 - fci
    &&& forall|j: int|
        0 <= j < t.len() ==> (#[trigger] t[j]).name@ == preset_definition(fci + j).0 && t[j].file@
            == preset_definition(fci + j).1 && t[j].pitch == 45 && t[j].press_key
}

/// The custom instrument that carries the vanilla instrument at index `k`.
fn preset_entry(k: u8) -> (r: CustomInstrument)
    requires
        k < 20,
    ensures
        r.name@ == preset_definition(k as int).0,
        r.file@ == preset_definition(k as int).1,
        r.pitch == 45,
        r.press_key,
{
    let instrument = match Instrument::from_vanilla_index(k) {
        Some(i) => i,
        None => Instrument::Harp,
    };
    match instrument.nbs_definition() {
        Some((name, file)) => CustomInstrument {
            name: String::from_str(name),
            file: String::from_str(file),
            pitch: 45,
            press_key: true,
        },
        None => CustomInstrument { name: String::new(), file: String::new(), pitch: 45, press_key: true },
    }
}

/// The preset definitions written at the head of the custom table of a file
/// whose custom instruments start at `fci`.
pub fn preset_definitions(fci: u8) -> (r: Vec<CustomInstrument>)
    requires
        fci <= 20,
    ensures
        is_preset_table(fci, r@),
{
    let mut table: Vec<CustomInstrument> = Vec::new();
    let mut k: u8 = fci;
    while k < 20
        invariant
            fci <= k <= 20,
            table@.len() == k - fci,
            forall|j: int|
                0 <= j < table@.len() ==> (#[trigger] table@[j]).name@ == preset_definition(fci + j).0
                    && table@[j].file@ == preset_definition(fci + j).1 && table@[j].pitch == 45 && table@[j].press_key,
        decreases 20 - k,
    {
        table.push(preset_entry(k));
        k = k + 1;
    }
    table
}

/// The vanilla instrument matching a preset custom entry, if any.
pub fn fold_instrument(fci: u8, custom: &CustomInstrument) -> (r: Option<Instrument>)
    requires
        fci <= 20,
    ensures
        r == fold_target(fci, *custom),
{
    let mut k: u8 = fci;
    while k < 20
        invariant
            fci <= k <= 20,
            fold_target(fci, *custom) == preset_from(k as int, custom.name@, custom.file@),
        decreases 20 - k,
    {
        let entry = preset_entry(k);
        if entry.name == custom.name && entry.file == custom.file {
            return Instrument::from_vanilla_index(k);
        }
        k = k + 1;
    }
    None
}

/// The instrument `i` after folding the table whose entries stand for the
/// vanilla instruments `targets` (or for none).
fn fold_one(fci: u8, cs: Ghost<Seq<CustomInstrument>>, targets: &Vec<Option<Instrument>>, i: Instrument) -> (r: Instrument)
    requires
        targets@.len() == cs@.len(),
        cs@.len() <= 256,
        forall|j: int| 0 <= j < cs@.len() ==> #[trigger] targets@[j] == fold_target(fci, cs@[j]),
    ensures
        r == folded_instrument(fci, cs@, i),
{
    match i {
        Instrument::Custom(slot) => {
            if (slot as usize) < targets.len() {
                if let Some(v) = targets[slot as usize] {
                    return v;
                }
            }
            let limit: usize = if (slot as usize) < targets.len() {
                slot as usize
            } else {
                targets.len()
            };
            let mut below: u8 = 0;
            let mut k: usize = 0;
            while k < limit
                invariant
                    limit <= targets@.len(),
                    limit <= slot,
                    targets@.len() == cs@.len(),
                    forall|j: int| 0 <= j < cs@.len() ==> #[trigger] targets@[j] == fold_target(fci, cs@[j]),
                    k <= limit,
                    below == presets_below(fci, cs@, k as int),
                    below <= k,
                decreases limit - k,
            {
                if targets[k].is_some() {
                    below = below + 1;
                }
                k = k + 1;
            }
            Instrument::Custom(slot - below)
        },
        _ => i,
    }
}

/// Folds preset entries back into vanilla instruments: notes on a preset
/// entry's slot get its vanilla instrument, other custom slots move down
/// past the removed entries, and the table keeps the other entries in
/// order.
pub fn fold_preset_instruments(fci: u8, notes: Notes<Note>, customs: Vec<CustomInstrument>) -> (r: (
    Notes<Note>,
    Vec<CustomInstrument>,
))
    requires
        fci <= 20,
        notes.wf(),
        customs@.len() <= 256,
    ensures
        r.0.wf(),
        r.0.entries().len() == notes.entries().len(),
        forall|i: int|
            0 <= i < notes.entries().len() ==> (#[trigger] r.0.entries()[i]).0 == notes.entries()[i].0
                && r.0.entries()[i].1 == folded_note(fci, customs@, notes.entries()[i].1),
        r.1@ == kept_entries(fci, customs@),
{
    let ghost cs = customs@;
    let mut targets: Vec<Option<Instrument>> = Vec::new();
    let mut j: usize = 0;
    while j < customs.len()
        invariant
            customs@ == cs,
            fci <= 20,
            j <= cs.len(),
            targets@.len() == j,
            forall|q: int| 0 <= q < j ==> #[trigger] targets@[q] == fold_target(fci, cs[q]),
        decreases cs.len() - j,
    {
        targets.push(fold_instrument(fci, &customs[j]));
        j = j + 1;
    }
    let mut kept: Vec<CustomInstrument> = Vec::new();
    let mut j: usize = 0;
    while j < customs.len()
        invariant
            customs@ == cs,
            targets@.len() == cs.len(),
            forall|q: int| 0 <= q < cs.len() ==> #[trigger] targets@[q] == fold_target(fci, cs[q]),
            j <= cs.len(),
            kept@ == kept_entries(fci, cs.take(j as int)),
        decreases cs.len() - j,
    {
        proof {
            assert(cs.take(j + 1) =~= cs.take(j as int).push(cs[j as int]));
            cs.take(j as int).lemma_filter_push(cs[j as int], |c: CustomInstrument| fold_target(fci, c) is None);
        }
        if targets[j].is_none() {
            let c = &customs[j];
            kept.push(CustomInstrument { name: c.name.clone(), file: c.file.clone(), pitch: c.pitch, press_key: c.press_key });
        }
        j = j + 1;
    }
    proof {
        assert(cs.take(cs.len() as int) =~= cs);
    }
    let mut notes = notes;
    let ghost before = notes.entries();
    let mut i: usize = 0;
    while i < notes.len()
        invariant
            customs@ == cs,
            cs.len() <= 256,
            targets@.len() == cs.len(),
            forall|q: int| 0 <= q < cs.len() ==> #[trigger] targets@[q] == fold_target(fci, cs[q]),
            notes.entries().len() == before.len(),
            sorted_like(before, notes.entries()),
            i <= before.len(),
            forall|q: int|
                0 <= q < before.len() ==> (#[trigger] notes.entries()[q]).1 == if q < i {
                    folded_note(fci, cs, before[q].1)
                } else {
                    before[q].1
                },
        decreases before.len() - i,
    {
        let (_, note) = notes.entry_at(i);
        let mut note = *note;
        let instrument = fold_one(fci, Ghost(cs), &targets, note.tone.instrument);
        note.set_instrument(instrument);
        notes.set_value_at(i, note);
        i = i + 1;
    }
    (notes, kept)
}

/// `t` has the positions of `s`, in order.
pub open spec fn sorted_like(s: Seq<(crate::types::Position, Note)>, t: Seq<(crate::types::Position, Note)>) -> bool {
    &&& t.len() == s.len()
    &&& forall|i: int| 0 <= i < s.len() ==> (#[trigger] t[i]).0 == s[i].0
}

/// `a + b` saturated to a byte.
pub open spec fn sat_add(a: u8, b: u8) -> u8 {
    if a + b > 255 { 255 } else { (a + b) as u8 }
}

/// The instrument a song's instrument is stored as in a file whose custom
/// instruments start at `fci`: a vanilla instrument the file cannot store
/// becomes the custom slot of its preset, and a custom slot moves up past
/// the presets (saturating at 255).
pub open spec fn encoded_instrument(fci: u8, i: Instrument) -> Instrument {
    match i {
        Instrument::Custom(slot) => Instrument::Custom(sat_add(slot, (20 - fci) as u8)),
        _ => match spec_vanilla_index(i) {
            Some(k) => if k >= fci { Instrument::Custom((k - fci) as u8) } else { i },
            None => i,
        },
    }
}

/// Maps vanilla indices from `fci` up into their preset slots and moves
/// custom slots past the presets.
pub fn encode_instrument(fci: u8, instrument: Instrument) -> (r: Instrument)
    requires
        fci <= 20,
    ensures
        r == encoded_instrument(fci, instrument),
{
    let offset = Instrument::vanilla_count() - fci;
    match instrument {
        Instrument::Custom(slot) => Instrument::Custom(if slot as u16 + offset as u16 > 255 {
            255
        } else {
            slot + offset
        }),
        inst => match inst.vanilla_index() {
            Some(i) => if i >= fci {
                Instrument::Custom(i - fci)
            } else {
                inst
            },
            None => inst,
        },
    }
}


// Adapting a song to an older version
//
// ++++++++++++============++++++++++++============++++++++++++============

/// A file whose vanilla instrument count is `fci` cannot store `i`.
pub open spec fn unsupported(fci: u8, i: Instrument) -> bool {
    spec_vanilla_index(i) matches Some(k) && k >= fci
}

/// The first index of `i` among the first `n` elements of `s`, or -1.
pub open spec fn index_in(s: Seq<Instrument>, i: Instrument, n: int) -> int
    decreases n,
{
    if n <= 0 {
        -1
    } else {
        let f = index_in(s, i, n - 1);
        if f >= 0 {
            f
        } else if s[n - 1] == i {
            n - 1
        } else {
            -1
        }
    }
}

/// The instruments that the first `n` notes use and that a file whose
/// vanilla count is `fci` cannot store, in order of first use.
pub open spec fn needed_instruments(fci: u8, notes: Seq<(Position, Note)>, n: int) -> Seq<Instrument>
    decreases n,
{
    if n <= 0 {
        Seq::empty()
    } else {
        let prev = needed_instruments(fci, notes, n - 1);
        let i = notes[n - 1].1.tone.instrument;
        if unsupported(fci, i) && index_in(prev, i, prev.len() as int) < 0 {
            prev.push(i)
        } else {
            prev
        }
    }
}

/// `c` carries the standard definition of the vanilla instrument `i`.
pub open spec fn carries(c: CustomInstrument, i: Instrument) -> bool {
    spec_nbs_definition(i) == Some((c.name@, c.file@))
}

/// The first of the first `n` entries that carries `i`, or -1.
pub open spec fn first_carrier(cs: Seq<CustomInstrument>, i: Instrument, n: int) -> int
    decreases n,
{
    if n <= 0 {
        -1
    } else {
        let f = first_carrier(cs, i, n - 1);
        if f >= 0 {
            f
        } else if carries(cs[n - 1], i) {
            n - 1
        } else {
            -1
        }
    }
}

/// The first `k` needed instruments that no entry of `cs` carries, in
/// order: those that get a new entry.
pub open spec fn added_instruments(cs: Seq<CustomInstrument>, needed: Seq<Instrument>, k: int) -> Seq<Instrument>
    decreases k,
{
    if k <= 0 {
        Seq::empty()
    } else {
        let p = added_instruments(cs, needed, k - 1);
        if first_carrier(cs, needed[k - 1], cs.len() as int) < 0 {
            p.push(needed[k - 1])
        } else {
            p
        }
    }
}

/// The custom slot that stands for `i`: that of the first entry of `cs`
/// carrying it (truncated to a byte), else that of its new entry after
/// `cs` (capped at 255).
pub open spec fn adapted_slot(cs: Seq<CustomInstrument>, added: Seq<Instrument>, i: Instrument) -> u8 {
    let f = first_carrier(cs, i, cs.len() as int);
    if f >= 0 {
        f as u8
    } else {
        let j = cs.len() + index_in(added, i, added.len() as int);
        if j > 255 { 255 } else { j as u8 }
    }
}

/// The note `n` with an instrument the file cannot store moved to the
/// custom slot that stands for it.
pub open spec fn adapted_note(fci: u8, cs: Seq<CustomInstrument>, added: Seq<Instrument>, n: Note) -> Note {
    if unsupported(fci, n.tone.instrument) {
        Note {
            tone: Tone { instrument: Instrument::Custom(adapted_slot(cs, added, n.tone.instrument)), key: n.tone.key },
            ..n
        }
    } else {
        n
    }
}

/// `after` is `before` adapted to a file whose vanilla count is `fci`: the
/// custom table gains, after its entries, an entry (pitch 45, key press)
/// for each needed instrument that none of them carries, in order of first
/// use; each note with an instrument the file cannot store moves to the
/// slot that stands for it; nothing else changes.
pub open spec fn adapts(before: Song, after: Song, fci: u8) -> bool {
    let cs = before.custom_instruments@;
    let entries = before.notes.entries();
    let needed = needed_instruments(fci, entries, entries.len() as int);
    let added = added_instruments(cs, needed, needed.len() as int);
    &&& after.custom_instruments@.len() == cs.len() + added.len()
    &&& forall|j: int| 0 <= j < cs.len() ==> #[trigger] after.custom_instruments@[j] == cs[j]
    &&& forall|j: int|
        0 <= j < added.len() ==> {
            let c = #[trigger] after.custom_instruments@[cs.len() + j];
            carries(c, added[j]) && c.pitch == 45 && c.press_key
        }
    &&& after.notes.entries().len() == entries.len()
    &&& forall|e: int|
        0 <= e < entries.len() ==> #[trigger] after.notes.entries()[e] == (
            entries[e].0,
            adapted_note(fci, cs, added, entries[e].1),
        )
    &&& after.header == before.header
    &&& after.layers == before.layers
}

proof fn lemma_index_in(s: Seq<Instrument>, i: Instrument, n: int)
    requires
        0 <= n <= s.len(),
    ensures
        index_in(s, i, n) < 0 <==> forall|j: int| 0 <= j < n ==> s[j] != i,
        index_in(s, i, n) >= 0 ==> index_in(s, i, n) < n && s[index_in(s, i, n)] == i && forall|j: int|
            0 <= j < index_in(s, i, n) ==> s[j] != i,
    decreases n,
{
    if n > 0 {
        lemma_index_in(s, i, n - 1);
    }
}

proof fn lemma_first_carrier(cs: Seq<CustomInstrument>, i: Instrument, n: int)
    requires
        0 <= n <= cs.len(),
    ensures
        first_carrier(cs, i, n) < 0 <==> forall|j: int| 0 <= j < n ==> !carries(cs[j], i),
        first_carrier(cs, i, n) >= 0 ==> first_carrier(cs, i, n) < n && carries(cs[first_carrier(cs, i, n)], i)
            && forall|j: int| 0 <= j < first_carrier(cs, i, n) ==> !carries(cs[j], i),
    decreases n,
{
    if n > 0 {
        lemma_first_carrier(cs, i, n - 1);
    }
}

/// The index of an element does not change when elements are pushed after it.
proof fn lemma_index_push(s: Seq<Instrument>, x: Instrument, i: Instrument, n: int)
    requires
        0 <= n <= s.len(),
    ensures
        index_in(s.push(x), i, n) == index_in(s, i, n),
    decreases n,
{
    if n > 0 {
        lemma_index_push(s, x, i, n - 1);
    }
}

/// The needed instruments are distinct, cannot be stored, and include the
/// instrument of each of the first `n` notes that cannot be stored.
proof fn lemma_needed(fci: u8, notes: Seq<(Position, Note)>, n: int)
    requires
        0 <= n <= notes.len(),
    ensures
        forall|a: int, b: int|
            0 <= a < b < needed_instruments(fci, notes, n).len() ==> #[trigger] needed_instruments(fci, notes, n)[a]
                != #[trigger] needed_instruments(fci, notes, n)[b],
        forall|a: int|
            0 <= a < needed_instruments(fci, notes, n).len() ==> unsupported(
                fci,
                #[trigger] needed_instruments(fci, notes, n)[a],
            ),
        forall|e: int|
            0 <= e < n && unsupported(fci, (#[trigger] notes[e]).1.tone.instrument) ==> index_in(
                needed_instruments(fci, notes, n),
                notes[e].1.tone.instrument,
                needed_instruments(fci, notes, n).len() as int,
            ) >= 0,
    decreases n,
{
    if n > 0 {
        lemma_needed(fci, notes, n - 1);
        let prev = needed_instruments(fci, notes, n - 1);
        let i = notes[n - 1].1.tone.instrument;
        lemma_index_in(prev, i, prev.len() as int);
        if unsupported(fci, i) && index_in(prev, i, prev.len() as int) < 0 {
            let next = prev.push(i);
            lemma_index_in(next, i, next.len() as int);
            assert forall|e: int| 0 <= e < n && unsupported(fci, (#[trigger] notes[e]).1.tone.instrument) implies index_in(
                next,
                notes[e].1.tone.instrument,
                next.len() as int,
            ) >= 0 by {
                let ie = notes[e].1.tone.instrument;
                if e < n - 1 {
                    lemma_index_push(prev, i, ie, prev.len() as int);
                    lemma_index_in(prev, ie, prev.len() as int);
                    lemma_index_in(next, ie, next.len() as int);
                    assert(next[index_in(prev, ie, prev.len() as int)] == ie);
                }
            }
        } else {
            assert forall|e: int| 0 <= e < n && unsupported(fci, (#[trigger] notes[e]).1.tone.instrument) implies index_in(
                prev,
                notes[e].1.tone.instrument,
                prev.len() as int,
            ) >= 0 by {}
        }
    }
}

/// The first `k` added instruments come from the first `k` needed ones, in
/// order of the needed ones, and the added list grows by pushing.
proof fn lemma_added(cs: Seq<CustomInstrument>, needed: Seq<Instrument>, k: int)
    requires
        0 <= k <= needed.len(),
    ensures
        forall|j: int|
            0 <= j < added_instruments(cs, needed, k).len() ==> exists|m: int|
                0 <= m < k && #[trigger] needed[m] == #[trigger] added_instruments(cs, needed, k)[j],
        added_instruments(cs, needed, k).len() <= k,
    decreases k,
{
    if k > 0 {
        lemma_added(cs, needed, k - 1);
        let p = added_instruments(cs, needed, k - 1);
        let q = added_instruments(cs, needed, k);
        assert forall|j: int| 0 <= j < q.len() implies exists|m: int| 0 <= m < k && #[trigger] needed[m] == #[trigger] q[j] by {
            if j < p.len() {
                let m = choose|m: int| 0 <= m < k - 1 && #[trigger] needed[m] == p[j];
                assert(needed[m] == q[j]);
            } else {
                assert(needed[k - 1] == q[j]);
            }
        }
    }
}

/// The added list of the first `k` needed instruments is a prefix of the
/// whole added list.
proof fn lemma_added_prefix(cs: Seq<CustomInstrument>, needed: Seq<Instrument>, k: int, n: int)
    requires
        0 <= k <= n <= needed.len(),
    ensures
        added_instruments(cs, needed, k).len() <= added_instruments(cs, needed, n).len(),
        forall|j: int|
            0 <= j < added_instruments(cs, needed, k).len() ==> #[trigger] added_instruments(cs, needed, n)[j]
                == added_instruments(cs, needed, k)[j],
    decreases n,
{
    if k < n {
        lemma_added_prefix(cs, needed, k, n - 1);
    }
}

/// The slot of a needed instrument does not change once it is decided.
proof fn lemma_slot_stable(cs: Seq<CustomInstrument>, needed: Seq<Instrument>, k: int, n: int, i: Instrument)
    requires
        0 <= k <= n <= needed.len(),
        first_carrier(cs, i, cs.len() as int) >= 0 || index_in(
            added_instruments(cs, needed, k),
            i,
            added_instruments(cs, needed, k).len() as int,
        ) >= 0,
    ensures
        adapted_slot(cs, added_instruments(cs, needed, k), i) == adapted_slot(cs, added_instruments(cs, needed, n), i),
    decreases n,
{
    if k < n {
        lemma_slot_stable(cs, needed, k, n - 1, i);
        let p = added_instruments(cs, needed, n - 1);
        if first_carrier(cs, needed[n - 1], cs.len() as int) < 0 && first_carrier(cs, i, cs.len() as int) < 0 {
            lemma_added_prefix(cs, needed, k, n - 1);
            let a = added_instruments(cs, needed, k);
            lemma_index_in(a, i, a.len() as int);
            lemma_index_in(p, i, p.len() as int);
            let f = index_in(a, i, a.len() as int);
            assert(p[f] == i);
            lemma_index_push(p, needed[n - 1], i, p.len() as int);
            lemma_index_in(p.push(needed[n - 1]), i, p.len() + 1int);
            assert(index_in(p.push(needed[n - 1]), i, p.len() + 1int) == index_in(p.push(needed[n - 1]), i, p.len() as int));
        }
    }
}

/// The entry that carries the definition of the vanilla instrument `i`.
fn definition_entry(i: Instrument) -> (r: CustomInstrument)
    requires
        spec_nbs_definition(i) is Some,
    ensures
        carries(r, i),
        r.pitch == 45,
        r.press_key,
{
    match i.nbs_definition() {
        Some((name, file)) => CustomInstrument {
            name: String::from_str(name),
            file: String::from_str(file),
            pitch: 45,
            press_key: true,
        },
        None => CustomInstrument { name: String::new(), file: String::new(), pitch: 45, press_key: true },
    }
}

/// Where `i` stands in `s`.
fn find_instrument(s: &Vec<Instrument>, i: Instrument) -> (r: Option<usize>)
    ensures
        r is None <==> index_in(s@, i, s@.len() as int) < 0,
        r matches Some(k) ==> k == index_in(s@, i, s@.len() as int),
{
    let mut k: usize = 0;
    while k < s.len()
        invariant
            k <= s@.len(),
            forall|j: int| 0 <= j < k ==> s@[j] != i,
        decreases s@.len() - k,
    {
        if s[k] == i {
            proof {
                lemma_index_in(s@, i, s@.len() as int);
            }
            return Some(k);
        }
        k = k + 1;
    }
    proof {
        lemma_index_in(s@, i, s@.len() as int);
    }
    None
}

impl Song {
    /// Converts the vanilla instruments that a file of `version` cannot
    /// store into custom instruments carrying their standard definitions,
    /// so that their sound survives saving the song in that version.
    pub fn adapt_instruments_to_version(&mut self, version: Version)
        ensures
            adapts(*old(self), *final(self), Version::spec_vanilla_instruments(version.spec_get())),
    {
        let fci = version.vanilla_instruments();
        let ghost cs = self.custom_instruments@;
        let ghost entries = self.notes.entries();
        let count = self.notes.len();
        // the instruments to carry, in order of first use
        let mut needed: Vec<Instrument> = Vec::new();
        let mut e: usize = 0;
        while e < count
            invariant
                count == entries.len(),
                e <= count,
                entries == self.notes.entries(),
                needed@ == needed_instruments(fci, entries, e as int),
                self.custom_instruments@ == cs,
                self.header == old(self).header,
                self.layers == old(self).layers,
            decreases count - e,
        {
            let (_, note) = self.notes.entry_at(e);
            let i = note.tone.instrument;
            let unsupported_here = match i.vanilla_index() {
                Some(k) => k >= fci,
                None => false,
            };
            if unsupported_here && find_instrument(&needed, i).is_none() {
                needed.push(i);
            }
            e = e + 1;
        }
        proof {
            lemma_needed(fci, entries, entries.len() as int);
        }
        let ghost all = needed@;
        let ghost added = added_instruments(cs, all, all.len() as int);
        // the slot that stands for each of them
        let mut slots: Vec<u8> = Vec::new();
        let mut k: usize = 0;
        while k < needed.len()
            invariant
                needed@ == all,
                all == needed_instruments(fci, entries, entries.len() as int),
                added == added_instruments(cs, all, all.len() as int),
                forall|a: int, b: int| 0 <= a < b < all.len() ==> #[trigger] all[a] != #[trigger] all[b],
                forall|a: int| 0 <= a < all.len() ==> unsupported(fci, #[trigger] all[a]),
                k <= all.len(),
                slots@.len() == k,
                self.custom_instruments@.len() == cs.len() + added_instruments(cs, all, k as int).len(),
                forall|j: int| 0 <= j < cs.len() ==> #[trigger] self.custom_instruments@[j] == cs[j],
                forall|j: int|
                    0 <= j < added_instruments(cs, all, k as int).len() ==> {
                        let c = #[trigger] self.custom_instruments@[cs.len() + j];
                        carries(c, added_instruments(cs, all, k as int)[j]) && c.pitch == 45 && c.press_key
                    },
                forall|m: int| 0 <= m < k ==> #[trigger] slots@[m] == adapted_slot(cs, added, all[m]),
                self.notes.entries() == entries,
                self.header == old(self).header,
                self.layers == old(self).layers,
            decreases all.len() - k,
        {
            let i = needed[k];
            let ghost before = self.custom_instruments@;
            let ghost done = added_instruments(cs, all, k as int);
            let target = definition_entry(i);
            let mut j: usize = 0;
            let len = self.custom_instruments.len();
            while j < len && !(self.custom_instruments[j].name == target.name
                && self.custom_instruments[j].file == target.file)
                invariant
                    before == self.custom_instruments@,
                    len == before.len(),
                    j <= len,
                    carries(target, i),
                    forall|j2: int| 0 <= j2 < j ==> !carries(#[trigger] before[j2], i),
                decreases len - j,
            {
                j = j + 1;
            }
            proof {
                lemma_added(cs, all, k as int);
                lemma_first_carrier(cs, i, cs.len() as int);
                lemma_index_in(done, i, done.len() as int);
                assert forall|j2: int| 0 <= j2 < done.len() implies #[trigger] done[j2] != i by {
                    let m = choose|m: int| 0 <= m < k && #[trigger] all[m] == done[j2];
                    assert(all[m] != all[k as int]);
                }
                if j < len && j >= cs.len() {
                    let jj = j - cs.len();
                    let d = done[jj];
                    assert(carries(self.custom_instruments@[cs.len() + jj], d));
                    assert(carries(before[j as int], i));
                    lemma_definitions_distinct(d, i);
                }
            }
            let slot: u8 = if j < len {
                proof {
                    assert(j < cs.len());
                    assert forall|j2: int| 0 <= j2 < j implies !carries(#[trigger] cs[j2], i) by {
                        assert(before[j2] == cs[j2]);
                    }
                    assert(before[j as int] == cs[j as int]);
                }
                j as u8
            } else {
                proof {
                    assert forall|j2: int| 0 <= j2 < cs.len() implies !carries(#[trigger] cs[j2], i) by {
                        assert(before[j2] == cs[j2]);
                    }
                }
                self.custom_instruments.push(target);
                if len > 255 {
                    255
                } else {
                    len as u8
                }
            };
            proof {
                lemma_first_carrier(cs, i, cs.len() as int);
                let next = added_instruments(cs, all, k + 1);
                if j >= len {
                    assert(next == done.push(i));
                    lemma_index_push(done, i, i, done.len() as int);
                    lemma_index_in(next, i, next.len() as int);
                    assert(index_in(next, i, next.len() as int) == done.len());
                }
                lemma_slot_stable(cs, all, k + 1, all.len() as int, i);
                assert forall|m: int| 0 <= m < k implies #[trigger] slots@.push(slot)[m] == adapted_slot(cs, added, all[m]) by {}
                assert forall|jj: int| 0 <= jj < cs.len() implies #[trigger] self.custom_instruments@[jj] == cs[jj] by {
                    assert(before[jj] == cs[jj]);
                }
                assert forall|jj: int| 0 <= jj < next.len() implies {
                    let c = #[trigger] self.custom_instruments@[cs.len() + jj];
                    carries(c, next[jj]) && c.pitch == 45 && c.press_key
                } by {
                    if jj < done.len() {
                        assert(self.custom_instruments@[cs.len() + jj] == before[cs.len() + jj]);
                    }
                }
            }
            slots.push(slot);
            k = k + 1;
        }
        // move the notes
        let ghost table = self.custom_instruments;
        let mut e: usize = 0;
        while e < count
            invariant
                count == entries.len(),
                e <= count,
                needed@ == all,
                all == needed_instruments(fci, entries, entries.len() as int),
                added == added_instruments(cs, all, all.len() as int),
                slots@.len() == all.len(),
                forall|m: int| 0 <= m < all.len() ==> #[trigger] slots@[m] == adapted_slot(cs, added, all[m]),
                forall|e2: int|
                    0 <= e2 < entries.len() && unsupported(fci, (#[trigger] entries[e2]).1.tone.instrument) ==> index_in(
                        all,
                        entries[e2].1.tone.instrument,
                        all.len() as int,
                    ) >= 0,
                self.notes.entries().len() == entries.len(),
                forall|e2: int|
                    0 <= e2 < e ==> #[trigger] self.notes.entries()[e2] == (
                        entries[e2].0,
                        adapted_note(fci, cs, added, entries[e2].1),
                    ),
                forall|e2: int| e <= e2 < count ==> #[trigger] self.notes.entries()[e2] == entries[e2],
                self.custom_instruments == table,
                self.header == old(self).header,
                self.layers == old(self).layers,
            decreases count - e,
        {
            let (_, note_ref) = self.notes.entry_at(e);
            let note = *note_ref;
            let i = note.tone.instrument;
            let unsupported_here = match i.vanilla_index() {
                Some(v) => v >= fci,
                None => false,
            };
            if unsupported_here {
                proof {
                    assert(self.notes.entries()[e as int] == entries[e as int]);
                    lemma_index_in(all, i, all.len() as int);
                }
                match find_instrument(&needed, i) {
                    Some(m) => {
                        let slot = slots[m];
                        let moved = Note { tone: Tone { instrument: Instrument::Custom(slot), key: note.tone.key }, ..note };
                        self.notes.set_value_at(e, moved);
                    },
                    None => {},
                }
            }
            e = e + 1;
        }
    }
}

} // verus!
