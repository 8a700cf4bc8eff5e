//! Stacking several note sequences on layers of their own.

use crate::note::{ImitateInstrument, Instrument, Note};
use crate::notes::{map_of, reversed, Notes};
use crate::types::{Index, Position, Tick};
use vstd::prelude::*;
use vstd::relations::{sorted_by, total_ordering};

verus! {

broadcast use {Position::lemma_at_fields, Position::lemma_at_of};

// Ordering notes
//
// ++++++++++++============++++++++++++============++++++++++++============

/// The place of a mob head among the mob heads.
pub open spec fn imitate_rank(x: ImitateInstrument) -> int {
    match x {
        ImitateInstrument::Creeper => 0,
        ImitateInstrument::Skeleton => 1,
        ImitateInstrument::Dragon => 2,
        ImitateInstrument::WitherSkeleton => 3,
        ImitateInstrument::Piglin => 4,
        ImitateInstrument::Zombie => 5,
        ImitateInstrument::CustomHead => 6,
    }
}

/// The place of an instrument's variant among the instrument variants.
pub open spec fn instrument_variant(i: Instrument) -> int {
    match i {
        Instrument::Harp => 0,
        Instrument::DoubleBass => 1,
        Instrument::BassDrum => 2,
        Instrument::SnareDrum => 3,
        Instrument::Click => 4,
        Instrument::Guitar => 5,
        Instrument::Flute => 6,
        Instrument::Bell => 7,
        Instrument::Chime => 8,
        Instrument::Xylophone => 9,
        Instrument::IronXylophone => 10,
        Instrument::CowBell => 11,
        Instrument::Didgeridoo => 12,
        Instrument::Bit => 13,
        Instrument::Banjo => 14,
        Instrument::Pling => 15,
        Instrument::Trumpet => 16,
        Instrument::TrumpetExposed => 17,
        Instrument::TrumpetWeathered => 18,
        Instrument::TrumpetOxidized => 19,
        Instrument::Imitate(_) => 20,
        Instrument::Custom(_) => 21,
    }
}

/// What an instrument's variant carries: the mob head's place or the
/// custom slot, else 0.
pub open spec fn instrument_payload(i: Instrument) -> int {
    match i {
        Instrument::Imitate(x) => imitate_rank(x),
        Instrument::Custom(c) => c as int,
        _ => 0,
    }
}

/// The rank of a note in the order of its fields: instrument (variant,
/// then what it carries), key, velocity, panning and pitch, each compared
/// only where the earlier ones are equal.
pub open spec fn note_rank(n: Note) -> int {
    ((((instrument_variant(n.tone.instrument) * 256 + instrument_payload(n.tone.instrument)) * 256
        + n.tone.key.spec_value()) * 256 + n.velocity.spec_get()) * 256 + (n.panning.spec_get() + 128))
        * 65536 + (n.pitch + 32768)
}

/// The bound on note ranks.
pub open spec fn note_rank_bound() -> int {
    9007199254740992
}

/// The rank of a tick and note: by tick, then by note.
pub open spec fn pair_rank(e: (Tick, Note)) -> int {
    e.0 * note_rank_bound() + note_rank(e.1)
}

/// The order of ticked notes by rank.
pub open spec fn by_rank() -> spec_fn((Tick, Note), (Tick, Note)) -> bool {
    |a: (Tick, Note), b: (Tick, Note)| pair_rank(a) <= pair_rank(b)
}

proof fn lemma_digit(x: int, a: int, y: int, b: int, m: int)
    by (nonlinear_arith)
    requires
        m > 0,
        0 <= a < m,
        0 <= b < m,
        x * m + a == y * m + b,
    ensures
        x == y,
        a == b,
{
}

/// Note ranks lie in `0..note_rank_bound()`.
pub proof fn lemma_note_rank_range(n: Note)
    ensures
        0 <= note_rank(n) < note_rank_bound(),
{
    let i = n.tone.instrument;
    assert(0 <= instrument_variant(i) <= 21);
    assert(0 <= instrument_payload(i) <= 255);
}

/// Equal ranks belong to equal notes.
pub proof fn lemma_note_rank_injective(a: Note, b: Note)
    requires
        note_rank(a) == note_rank(b),
    ensures
        a == b,
{
    let (ia, ib) = (a.tone.instrument, b.tone.instrument);
    let x5a = instrument_variant(ia) * 256 + instrument_payload(ia);
    let x5b = instrument_variant(ib) * 256 + instrument_payload(ib);
    let x4a = x5a * 256 + a.tone.key.spec_value();
    let x4b = x5b * 256 + b.tone.key.spec_value();
    let x3a = x4a * 256 + a.velocity.spec_get();
    let x3b = x4b * 256 + b.velocity.spec_get();
    let x2a = x3a * 256 + (a.panning.spec_get() + 128);
    let x2b = x3b * 256 + (b.panning.spec_get() + 128);
    assert(0 <= instrument_variant(ia) <= 21 && 0 <= instrument_payload(ia) <= 255);
    assert(0 <= instrument_variant(ib) <= 21 && 0 <= instrument_payload(ib) <= 255);
    lemma_digit(x2a, a.pitch + 32768, x2b, b.pitch + 32768, 65536);
    lemma_digit(x3a, a.panning.spec_get() + 128, x3b, b.panning.spec_get() + 128, 256);
    lemma_digit(x4a, a.velocity.spec_get() as int, x4b, b.velocity.spec_get() as int, 256);
    lemma_digit(x5a, a.tone.key.spec_value() as int, x5b, b.tone.key.spec_value() as int, 256);
    lemma_digit(instrument_variant(ia), instrument_payload(ia), instrument_variant(ib), instrument_payload(ib), 256);
    assert(ia == ib);
    a.tone.key.lemma_value_eq(b.tone.key);
    a.velocity.lemma_get_eq(b.velocity);
    a.panning.lemma_get_eq(b.panning);
}

/// Ordering by rank is a total order.
pub proof fn lemma_by_rank_total()
    ensures
        total_ordering(by_rank()),
{
    assert forall|a: (Tick, Note), b: (Tick, Note)| #[trigger] by_rank()(a, b) && #[trigger] by_rank()(b, a) implies a == b by {
        lemma_note_rank_range(a.1);
        lemma_note_rank_range(b.1);
        lemma_digit(a.0 as int, note_rank(a.1), b.0 as int, note_rank(b.1), note_rank_bound());
        lemma_note_rank_injective(a.1, b.1);
    }
}

fn instrument_rank(i: Instrument) -> (r: u32)
    ensures
        r == instrument_variant(i) * 256 + instrument_payload(i),
{
    match i {
        Instrument::Harp => 0,
        Instrument::DoubleBass => 256,
        Instrument::BassDrum => 512,
        Instrument::SnareDrum => 768,
        Instrument::Click => 1024,
        Instrument::Guitar => 1280,
        Instrument::Flute => 1536,
        Instrument::Bell => 1792,
        Instrument::Chime => 2048,
        Instrument::Xylophone => 2304,
        Instrument::IronXylophone => 2560,
        Instrument::CowBell => 2816,
        Instrument::Didgeridoo => 3072,
        Instrument::Bit => 3328,
        Instrument::Banjo => 3584,
        Instrument::Pling => 3840,
        Instrument::Trumpet => 4096,
        Instrument::TrumpetExposed => 4352,
        Instrument::TrumpetWeathered => 4608,
        Instrument::TrumpetOxidized => 4864,
        Instrument::Imitate(x) => 5120 + match x {
            ImitateInstrument::Creeper => 0,
            ImitateInstrument::Skeleton => 1,
            ImitateInstrument::Dragon => 2,
            ImitateInstrument::WitherSkeleton => 3,
            ImitateInstrument::Piglin => 4,
            ImitateInstrument::Zombie => 5,
            ImitateInstrument::CustomHead => 6,
        },
        Instrument::Custom(c) => 5376 + c as u32,
    }
}

/// The rank of a ticked note.
fn rank_of(e: &(Tick, Note)) -> (r: u128)
    ensures
        r == pair_rank(*e),
{
    let n = e.1;
    let key: u8 = u8::from(n.tone.key);
    let velocity = n.velocity.get();
    let panning = n.panning.get();
    let inst = instrument_rank(n.tone.instrument) as u128;
    let rank: u128 = ((((inst * 256 + key as u128) * 256 + velocity as u128) * 256 + (panning as i16 + 128) as u128)
        * 65536 + (n.pitch as i32 + 32768) as u128);
    proof {
        lemma_note_rank_range(n);
    }
    e.0 as u128 * 9007199254740992 + rank
}

/// Sorts ticked notes by rank.
pub fn sort_by_rank(v: Vec<(Tick, Note)>) -> (r: Vec<(Tick, Note)>)
    ensures
        r@ == v@.sort_by(by_rank()),
{
    let mut out: Vec<(Tick, Note)> = Vec::new();
    let mut k: usize = 0;
    proof {
        assert(out@ =~= v@.take(0));
    }
    while k < v.len()
        invariant
            k <= v@.len(),
            out@.to_multiset() == v@.take(k as int).to_multiset(),
            forall|a: int, b: int| 0 <= a < b < out@.len() ==> pair_rank(#[trigger] out@[a]) <= pair_rank(#[trigger] out@[b]),
        decreases v@.len() - k,
    {
        let x = v[k];
        let rx = rank_of(&x);
        let mut i: usize = 0;
        while i < out.len() && rank_of(&out[i]) <= rx
            invariant
                i <= out@.len(),
                rx == pair_rank(x),
                forall|j: int| 0 <= j < i ==> pair_rank(#[trigger] out@[j]) <= rx,
            decreases out@.len() - i,
        {
            i = i + 1;
        }
        let ghost before = out@;
        out.insert(i, x);
        proof {
            broadcast use vstd::seq_lib::to_multiset_insert, vstd::seq_lib::to_multiset_build;

            assert(out@ == before.insert(i as int, x));
            assert(v@.take(k + 1) =~= v@.take(k as int).push(x));
            assert forall|a: int, b: int| 0 <= a < b < out@.len() implies pair_rank(#[trigger] out@[a]) <= pair_rank(
                #[trigger] out@[b],
            ) by {
                if i < before.len() {
                    assert(rx < pair_rank(before[i as int]));
                }
                if b < i {
                    assert(out@[a] == before[a] && out@[b] == before[b]);
                } else if b == i {
                    assert(out@[a] == before[a]);
                } else if a < i {
                    assert(out@[a] == before[a] && out@[b] == before[b - 1]);
                    assert(pair_rank(before[i as int]) <= pair_rank(before[b - 1]));
                } else if a == i {
                    assert(out@[b] == before[b - 1]);
                    assert(pair_rank(before[i as int]) <= pair_rank(before[b - 1]));
                } else {
                    assert(out@[a] == before[a - 1] && out@[b] == before[b - 1]);
                }
            }
        }
        k = k + 1;
    }
    proof {
        assert(v@.take(v@.len() as int) =~= v@);
        lemma_by_rank_total();
        v@.lemma_sort_by_ensures(by_rank());
        assert(sorted_by(out@, by_rank())) by {
            assert forall|a: int, b: int| 0 <= a < b < out@.len() implies #[trigger] by_rank()(out@[a], out@[b]) by {
                assert(pair_rank(out@[a]) <= pair_rank(out@[b]));
            }
        }
        vstd::seq_lib::lemma_sorted_unique(out@, v@.sort_by(by_rank()), by_rank());
    }
    out
}


// Reassigning layers
//
// ++++++++++++============++++++++++++============++++++++++++============

/// The layer, above the slice's base, of the `k`-th note of a sorted slice:
/// notes at one tick stack up from layer 0 in order, except that the very
/// first note starts at layer 1 when its tick is the largest tick.
pub open spec fn stack_layer(s: Seq<(Tick, Note)>, k: int) -> int
    decreases k,
{
    if k <= 0 {
        if s[0].0 == u32::MAX { 1 } else { 0 }
    } else if s[k].0 == s[k - 1].0 {
        stack_layer(s, k - 1) + 1
    } else {
        0
    }
}

/// The layers that the first `n` notes of a sorted slice take up, `gap`
/// free layers above each stack included, 0 without notes.
pub open spec fn span(s: Seq<(Tick, Note)>, gap: int, n: int) -> int
    decreases n,
{
    if n <= 0 {
        0
    } else {
        let top = stack_layer(s, n - 1) + 1 + gap;
        let below = span(s, gap, n - 1);
        if top > below { top } else { below }
    }
}

/// The placed notes of a sorted slice stacked from layer `base`.
pub open spec fn slice_entries(s: Seq<(Tick, Note)>, base: int) -> Seq<(Position, Note)> {
    Seq::new(s.len(), |k: int| (Position::spec_at(s[k].0, (base + stack_layer(s, k)) as Index), s[k].1))
}

/// The placed notes of the first `n` slices, each sorted by rank and
/// stacked above the layers that the slices before it take up, with the
/// layers they take up in all.
pub open spec fn stacked_slices(slices: Seq<Vec<(Tick, Note)>>, gap: int, n: int) -> (Seq<(Position, Note)>, int)
    decreases n,
{
    if n <= 0 {
        (Seq::empty(), 0)
    } else {
        let prev = stacked_slices(slices, gap, n - 1);
        let s = slices[n - 1]@.sort_by(by_rank());
        (prev.0 + slice_entries(s, prev.1), prev.1 + span(s, gap, s.len() as int))
    }
}

proof fn lemma_stack_layer_nonneg(s: Seq<(Tick, Note)>, k: int)
    ensures
        stack_layer(s, k) >= 0,
    decreases k,
{
    if k > 0 {
        lemma_stack_layer_nonneg(s, k - 1);
    }
}

/// The span covers each stack with its gap, and grows with `n`.
proof fn lemma_span_covers(s: Seq<(Tick, Note)>, gap: int, k: int, n: int)
    requires
        gap >= 0,
        0 <= k < n,
    ensures
        stack_layer(s, k) + 1 + gap <= span(s, gap, n),
        span(s, gap, k) <= span(s, gap, n),
    decreases n,
{
    if k < n - 1 {
        lemma_span_covers(s, gap, k, n - 1);
    }
}

proof fn lemma_span_nonneg(s: Seq<(Tick, Note)>, gap: int, n: int)
    requires
        gap >= 0,
    ensures
        span(s, gap, n) >= 0,
    decreases n,
{
    if n > 0 {
        lemma_span_nonneg(s, gap, n - 1);
    }
}

/// The layers taken up grow with the slices.
proof fn lemma_stacked_mono(slices: Seq<Vec<(Tick, Note)>>, gap: int, i: int, n: int)
    requires
        gap >= 0,
        0 <= i <= n,
    ensures
        0 <= stacked_slices(slices, gap, i).1 <= stacked_slices(slices, gap, n).1,
    decreases n,
{
    if n > 0 {
        if i < n {
            lemma_stacked_mono(slices, gap, i, n - 1);
        } else {
            lemma_stacked_mono(slices, gap, n - 1, n - 1);
        }
        let s = slices[n - 1]@.sort_by(by_rank());
        lemma_span_nonneg(s, gap, s.len() as int);
    }
}

proof fn lemma_digit_le(x: int, a: int, y: int, b: int, m: int)
    by (nonlinear_arith)
    requires
        m > 0,
        0 <= a < m,
        0 <= b < m,
        x * m + a <= y * m + b,
    ensures
        x <= y,
{
}

/// Ordering by rank orders by tick first.
proof fn lemma_rank_tick(a: (Tick, Note), b: (Tick, Note))
    requires
        pair_rank(a) <= pair_rank(b),
    ensures
        a.0 <= b.0,
{
    lemma_note_rank_range(a.1);
    lemma_note_rank_range(b.1);
    lemma_digit_le(a.0 as int, note_rank(a.1), b.0 as int, note_rank(b.1), note_rank_bound());
}

/// In a sorted slice, later notes at the same tick stack higher.
proof fn lemma_stack_increasing(s: Seq<(Tick, Note)>, j1: int, j2: int)
    requires
        sorted_by(s, by_rank()),
        0 <= j1 < j2 < s.len(),
        s[j1].0 == s[j2].0,
    ensures
        stack_layer(s, j1) < stack_layer(s, j2),
    decreases j2,
{
    assert(by_rank()(s[j1], s[j2 - 1]) || j1 == j2 - 1);
    assert(by_rank()(s[j2 - 1], s[j2]));
    if j1 < j2 - 1 {
        lemma_rank_tick(s[j1], s[j2 - 1]);
    }
    lemma_rank_tick(s[j2 - 1], s[j2]);
    assert(s[j2 - 1].0 == s[j2].0);
    if j1 < j2 - 1 {
        lemma_stack_increasing(s, j1, j2 - 1);
    }
}

/// The placed notes of the first `n` slices lie on distinct positions, on
/// layers below those that the slices take up.
proof fn lemma_stacked_apart(slices: Seq<Vec<(Tick, Note)>>, gap: int, n: int, total: int)
    requires
        gap >= 0,
        0 <= n,
        stacked_slices(slices, gap, n).1 <= total <= u32::MAX,
    ensures
        forall|p: int|
            0 <= p < stacked_slices(slices, gap, n).0.len() ==> (#[trigger] stacked_slices(slices, gap, n).0[p]).0.spec_layer()
                < stacked_slices(slices, gap, n).1,
        forall|p: int, q: int|
            0 <= p < q < stacked_slices(slices, gap, n).0.len() ==> (#[trigger] stacked_slices(slices, gap, n).0[p]).0
                != (#[trigger] stacked_slices(slices, gap, n).0[q]).0,
    decreases n,
{
    if n > 0 {
        let prev = stacked_slices(slices, gap, n - 1);
        let s = slices[n - 1]@.sort_by(by_rank());
        let base = prev.1;
        let entries = stacked_slices(slices, gap, n).0;
        lemma_span_nonneg(s, gap, s.len() as int);
        lemma_stacked_apart(slices, gap, n - 1, total);
        lemma_by_rank_total();
        slices[n - 1]@.lemma_sort_by_ensures(by_rank());
        let fresh = slice_entries(s, base);
        assert(entries == prev.0 + fresh);
        assert(stacked_slices(slices, gap, n).1 == base + span(s, gap, s.len() as int));
        lemma_stacked_mono(slices, gap, n - 1, n);
        assert forall|j: int| 0 <= j < s.len() implies base <= (#[trigger] fresh[j]).0.spec_layer() < base + span(
            s,
            gap,
            s.len() as int,
        ) by {
            lemma_span_covers(s, gap, j, s.len() as int);
            lemma_stack_layer_nonneg(s, j);
            assert(0 <= base + stack_layer(s, j) <= u32::MAX);
            assert(fresh[j].0 == Position::spec_at(s[j].0, (base + stack_layer(s, j)) as Index));
        }
        assert forall|p: int| 0 <= p < entries.len() implies (#[trigger] entries[p]).0.spec_layer() < stacked_slices(
            slices,
            gap,
            n,
        ).1 by {
            if p < prev.0.len() {
                assert(entries[p] == prev.0[p]);
            } else {
                assert(entries[p] == fresh[p - prev.0.len()]);
            }
        }
        assert forall|p: int, q: int| 0 <= p < q < entries.len() implies (#[trigger] entries[p]).0 != (
        #[trigger] entries[q]).0 by {
            let m = prev.0.len() as int;
            if q < m {
                assert(entries[p] == prev.0[p] && entries[q] == prev.0[q]);
            } else if p < m {
                assert(entries[p] == prev.0[p] && entries[q] == fresh[q - m]);
            } else {
                assert(entries[p] == fresh[p - m] && entries[q] == fresh[q - m]);
                assert(fresh[p - m].0.spec_tick() == s[p - m].0);
                assert(fresh[q - m].0.spec_tick() == s[q - m].0);
                if s[p - m].0 == s[q - m].0 {
                    lemma_stack_increasing(s, p - m, q - m);
                    lemma_stack_layer_nonneg(s, p - m);
                    lemma_span_covers(s, gap, q - m, s.len() as int);
                    lemma_span_covers(s, gap, p - m, s.len() as int);
                    assert(fresh[p - m].0.spec_layer() == base + stack_layer(s, p - m));
                    assert(fresh[q - m].0.spec_layer() == base + stack_layer(s, q - m));
                }
            }
        }
    }
}

/// Reassigned slices do not overlap: no two of the placed notes share a
/// position, so every note of every slice is kept.
pub proof fn lemma_reassigned_apart(slices: Seq<Vec<(Tick, Note)>>, gap: Index, p: int, q: int)
    requires
        stacked_slices(slices, gap as int, slices.len() as int).1 <= u32::MAX,
        0 <= p < q < stacked_slices(slices, gap as int, slices.len() as int).0.len(),
    ensures
        stacked_slices(slices, gap as int, slices.len() as int).0[p].0 != stacked_slices(
            slices,
            gap as int,
            slices.len() as int,
        ).0[q].0,
{
    lemma_stacked_apart(
        slices,
        gap as int,
        slices.len() as int,
        stacked_slices(slices, gap as int, slices.len() as int).1,
    );
}

impl Notes<Note> {
    /// Stacks several slices of ticked notes on layers of their own: each
    /// slice is sorted by tick and note, the notes at one tick stack up in
    /// that order, and each slice starts above the layers that the slices
    /// before it take up (its tallest stack and `gap` free layers).
    pub fn reassign_layers(slices: Vec<Vec<(Tick, Note)>>, gap: Index) -> (r: Notes<Note>)
        requires
            stacked_slices(slices@, gap as int, slices@.len() as int).1 <= u32::MAX,
        ensures
            r.wf(),
            r@ == map_of(stacked_slices(slices@, gap as int, slices@.len() as int).0),
    {
        let ghost all = slices@;
        let n = slices.len();
        let mut queue = reversed(slices);
        let mut entries: Vec<(Position, Note)> = Vec::new();
        let mut base: Index = 0;
        let mut i: usize = 0;
        while i < n
            invariant
                n == all.len(),
                i <= n,
                queue@ == all.subrange(i as int, n as int).reverse(),
                stacked_slices(all, gap as int, n as int).1 <= u32::MAX,
                entries@ == stacked_slices(all, gap as int, i as int).0,
                base == stacked_slices(all, gap as int, i as int).1,
            decreases n - i,
        {
            let slice = match queue.pop() {
                Some(slice) => slice,
                None => Vec::new(),
            };
            proof {
                assert(all.subrange(i as int, n as int).reverse().last() == all[i as int]);
                lemma_stacked_mono(all, gap as int, i + 1, n as int);
            }
            let sorted = sort_by_rank(slice);
            let ghost s = sorted@;
            let ghost prefix = entries@;
            let ghost total = base + span(s, gap as int, s.len() as int);
            let mut prev_tick: Tick = u32::MAX;
            let mut prev_layer: Index = 0;
            let mut layers: Index = 0;
            let mut k: usize = 0;
            while k < sorted.len()
                invariant
                    s == sorted@,
                    k <= s.len(),
                    total == base + span(s, gap as int, s.len() as int),
                    total <= u32::MAX,
                    entries@ == prefix + slice_entries(s, base as int).take(k as int),
                    layers == span(s, gap as int, k as int),
                    k == 0 ==> prev_tick == u32::MAX && prev_layer == 0,
                    k > 0 ==> prev_tick == s[k - 1].0 && prev_layer == stack_layer(s, k - 1),
                decreases s.len() - k,
            {
                let (tick, note) = sorted[k];
                proof {
                    lemma_span_covers(s, gap as int, k as int, s.len() as int);
                    lemma_stack_layer_nonneg(s, k as int);
                }
                prev_layer = if tick == prev_tick {
                    prev_layer + 1
                } else {
                    0
                };
                let top = prev_layer + 1 + gap;
                if top > layers {
                    layers = top;
                }
                prev_tick = tick;
                let pos = Position::new(tick, base + prev_layer);
                entries.push((pos, note));
                proof {
                    assert(slice_entries(s, base as int).take(k + 1) =~= slice_entries(s, base as int).take(
                        k as int,
                    ).push((pos, note)));
                }
                k = k + 1;
            }
            proof {
                assert(slice_entries(s, base as int).take(s.len() as int) =~= slice_entries(s, base as int));
                lemma_span_nonneg(s, gap as int, s.len() as int);
            }
            base = base + layers;
            proof {
                assert(queue@ =~= all.subrange(i + 1, n as int).reverse());
            }
            i = i + 1;
        }
        Notes::from_entries(entries)
    }
}

} // verus!
