//! Reuse-maximizing layer flow over the time/event plane.
//!
//! **Experimental**: the decomposition heuristics are still under
//! development; their output may change.
//!
//! A reuse layer is a scatter `S` (time offsets, containing 0) and a kernel
//! `K`; its expansion `K (+) S` places every kernel point at every offset.
//! The flows peel layers off a source plane `M` so that
//! `M = sum of the expansions + R`, `R` being the residual.

use crate::analysis::{
    count_in, keys_distinct, lemma_count_absent, lemma_count_push, lemma_total_prefix_le,
    lemma_total_push, total_in, Event, TpPlane,
};
use crate::types::Tick;
use std::collections::BTreeMap;
use vstd::prelude::*;

verus! {

// Spec model
//
// ++++++++++++============++++++++++++============++++++++++++============

/// Multiplicity of `(t, e)` in the expansion `K (+) S`: the kernel
/// translated by every offset of `s` (repeated offsets count repeatedly).
pub open spec fn expansion_count<E>(k: TpPlane<E>, s: Seq<Tick>, t: int, e: E) -> nat
    decreases s.len(),
{
    if s.len() == 0 {
        0
    } else {
        expansion_count(k, s.drop_last(), t, e) + k.count(t - s.last(), e)
    }
}

/// The offsets of `s`, each kept once, in order of first occurrence.
pub open spec fn dedup_seq(s: Seq<Tick>) -> Seq<Tick>
    decreases s.len(),
{
    if s.len() == 0 {
        Seq::empty()
    } else {
        let r = dedup_seq(s.drop_last());
        if r.contains(s.last()) {
            r
        } else {
            r.push(s.last())
        }
    }
}

/// The expansion of `k` by the offsets `s` stays within `source`.
pub open spec fn within<E>(k: TpPlane<E>, s: Seq<Tick>, source: TpPlane<E>) -> bool {
    forall|t: int, e: E| #[trigger] expansion_count(k, s, t, e) <= source.count(t, e)
}

/// No further anchor fits: for every tick and event, some offset lands on a
/// point whose multiplicity the expansion has used up.
pub open spec fn saturated<E>(k: TpPlane<E>, s: Seq<Tick>, source: TpPlane<E>) -> bool {
    forall|a: int, e: E| #[trigger] used_up(k, s, source, a, e)
}

/// Some offset of `s` moves `(a, e)` onto a point that the expansion of `k`
/// uses up completely.
pub open spec fn used_up<E>(k: TpPlane<E>, s: Seq<Tick>, source: TpPlane<E>, a: int, e: E) -> bool {
    exists|i: int|
        #![trigger s[i]]
        0 <= i < s.len() && expansion_count(k, s, a + s[i], e) == source.count(a + s[i], e)
}

/// A capacity-safe kernel that no further anchor can extend: what
/// [`feasible_kernel`] returns for `source` and the deduplicated scatter.
pub open spec fn is_feasible_kernel<E>(k: TpPlane<E>, s: Seq<Tick>, source: TpPlane<E>) -> bool {
    &&& k.wf()
    &&& within(k, s, source)
    &&& saturated(k, s, source)
    &&& is_greedy_kernel(k, s, source)
}

/// Every stored tick of `p`, shifted by every offset of `s`, fits in a tick.
pub open spec fn shifts_fit<E>(p: TpPlane<E>, s: Seq<Tick>) -> bool {
    forall|t: int, e: E, i: int|
        p.count(t, e) > 0 && 0 <= i < s.len() ==> t + s[i] <= u32::MAX
}

/// `a` is pointwise at most `b`.
pub open spec fn plane_le<E>(a: TpPlane<E>, b: TpPlane<E>) -> bool {
    forall|t: int, e: E| a.count(t, e) <= b.count(t, e)
}

/// The smaller of two naturals.
pub open spec fn min_nat(a: nat, b: nat) -> nat {
    if a <= b {
        a
    } else {
        b
    }
}

/// Sum, over the entries of `s`, of `min(M(p), M(p + d))`.
pub open spec fn overlap_in<E>(m: TpPlane<E>, s: Seq<(Tick, E, usize)>, d: int) -> nat
    decreases s.len(),
{
    if s.len() == 0 {
        0
    } else {
        overlap_in(m, s.drop_last(), d) + min_nat(
            s.last().2 as nat,
            m.count(s.last().0 + d, s.last().1),
        )
    }
}

/// Multiset match of the plane with itself shifted by `d`:
/// `sum over points p of min(M(p), M(p + d))`, events compared exactly.
pub open spec fn support<E>(m: TpPlane<E>, d: int) -> nat {
    overlap_in(m, m.entries(), d)
}

/// Sum, over the entries of `s` at `(t, e)`, of `min(c, count)`.
pub open spec fn min_match_sum<E>(s: Seq<(Tick, E, usize)>, c: nat, t: int, e: E) -> nat
    decreases s.len(),
{
    if s.len() == 0 {
        0
    } else {
        min_match_sum(s.drop_last(), c, t, e) + (if s.last().0 as int == t && s.last().1 == e {
            min_nat(c, s.last().2 as nat)
        } else {
            0
        })
    }
}

// Spec lemmas
//
// ++++++++++++============++++++++++++============++++++++++++============

pub proof fn lemma_dedup_props(s: Seq<Tick>)
    ensures
        dedup_seq(s).no_duplicates(),
        forall|x: Tick| dedup_seq(s).contains(x) <==> s.contains(x),
        s.no_duplicates() ==> dedup_seq(s) == s,
    decreases s.len(),
{
    if s.len() > 0 {
        let d = s.drop_last();
        lemma_dedup_props(d);
        let r = dedup_seq(d);
        assert forall|x: Tick| dedup_seq(s).contains(x) <==> s.contains(x) by {
            if s.contains(x) {
                let i = choose|i: int| 0 <= i < s.len() && s[i] == x;
                if i < s.len() - 1 {
                    assert(d[i] == x);
                    assert(d.contains(x));
                }
            }
            if d.contains(x) {
                let i = choose|i: int| 0 <= i < d.len() && d[i] == x;
                assert(s[i] == x);
            }
            if !r.contains(s.last()) {
                assert(r.push(s.last())[r.len() as int] == s.last());
                if r.push(s.last()).contains(x) {
                    let i = choose|i: int| 0 <= i < r.len() + 1 && r.push(s.last())[i] == x;
                    if i < r.len() {
                        assert(r[i] == x);
                    }
                }
                if r.contains(x) {
                    let i = choose|i: int| 0 <= i < r.len() && r[i] == x;
                    assert(r.push(s.last())[i] == x);
                }
            }
        }
        if s.no_duplicates() {
            assert(d.no_duplicates()) by {
                assert forall|i: int, j: int| 0 <= i < d.len() && 0 <= j < d.len() && i != j implies d[i]
                    != d[j] by {
                    assert(s[i] == d[i] && s[j] == d[j]);
                }
            }
            assert(!d.contains(s.last())) by {
                if d.contains(s.last()) {
                    let i = choose|i: int| 0 <= i < d.len() && d[i] == s.last();
                    assert(s[i] == s[s.len() - 1]);
                }
            }
            assert(d.push(s.last()) =~= s);
        }
    }
}

pub proof fn lemma_count_prefix_le<E>(s: Seq<(Tick, E, usize)>, k: int, t: int, e: E)
    requires
        0 <= k <= s.len(),
    ensures
        count_in(s.take(k), t, e) <= count_in(s, t, e),
    decreases s.len() - k,
{
    if k < s.len() {
        assert(s.take(k + 1).drop_last() =~= s.take(k));
        lemma_count_prefix_le(s, k + 1, t, e);
    } else {
        assert(s.take(k) =~= s);
    }
}

pub proof fn lemma_expansion_prefix_le<E>(k: TpPlane<E>, s: Seq<Tick>, i: int, t: int, e: E)
    requires
        0 <= i <= s.len(),
    ensures
        expansion_count(k, s.take(i), t, e) <= expansion_count(k, s, t, e),
    decreases s.len() - i,
{
    if i < s.len() {
        assert(s.take(i + 1).drop_last() =~= s.take(i));
        lemma_expansion_prefix_le(k, s, i + 1, t, e);
    } else {
        assert(s.take(i) =~= s);
    }
}

pub proof fn lemma_expansion_zero<E>(k: TpPlane<E>, s: Seq<Tick>, t: int, e: E)
    requires
        forall|t2: int| k.count(t2, e) == 0,
    ensures
        expansion_count(k, s, t, e) == 0,
    decreases s.len(),
{
    if s.len() > 0 {
        lemma_expansion_zero(k, s.drop_last(), t, e);
    }
}

/// The expansion depends on the kernel only through its multiplicities.
pub proof fn lemma_expansion_ext<E>(k1: TpPlane<E>, k2: TpPlane<E>, s: Seq<Tick>, t: int, e: E)
    requires
        forall|t2: int| k1.count(t2, e) == k2.count(t2, e),
    ensures
        expansion_count(k1, s, t, e) == expansion_count(k2, s, t, e),
    decreases s.len(),
{
    if s.len() > 0 {
        lemma_expansion_ext(k1, k2, s.drop_last(), t, e);
    }
}

/// The zero offset makes the expansion cover the kernel itself.
pub proof fn lemma_expansion_covers_kernel<E>(k: TpPlane<E>, s: Seq<Tick>, t: int, e: E)
    requires
        s.contains(0),
    ensures
        k.count(t, e) <= expansion_count(k, s, t, e),
    decreases s.len(),
{
    if s.len() > 0 {
        if s.last() == 0 {
        } else {
            let i = choose|i: int| 0 <= i < s.len() && s[i] == 0;
            assert(s.drop_last()[i] == 0);
            lemma_expansion_covers_kernel(k, s.drop_last(), t, e);
        }
    }
}

/// Some tick of `s` equals `x`.
pub open spec fn holds_tick(s: Seq<Tick>, x: int) -> bool {
    exists|i: int| 0 <= i < s.len() && s[i] as int == x
}

/// Adding `m` at `(a, e)` to the kernel adds `m` to the expansion exactly at
/// the ticks `a + s[i]` (offsets distinct).
pub proof fn lemma_expansion_add<E>(
    k1: TpPlane<E>,
    k2: TpPlane<E>,
    s: Seq<Tick>,
    a: int,
    e: E,
    m: nat,
    t: int,
    e2: E,
)
    requires
        s.no_duplicates(),
        forall|t3: int, e3: E|
            k2.count(t3, e3) == k1.count(t3, e3) + (if t3 == a && e3 == e {
                m
            } else {
                0
            }),
    ensures
        expansion_count(k2, s, t, e2) == expansion_count(k1, s, t, e2) + (if e2 == e
            && holds_tick(s, t - a) {
            m
        } else {
            0
        }),
    decreases s.len(),
{
    if s.len() > 0 {
        let d = s.drop_last();
        assert(d.no_duplicates()) by {
            assert forall|i: int, j: int| 0 <= i < d.len() && 0 <= j < d.len() && i != j implies d[i]
                != d[j] by {
                assert(s[i] == d[i] && s[j] == d[j]);
            }
        }
        lemma_expansion_add(k1, k2, d, a, e, m, t, e2);
        let x = t - a;
        if s.last() as int == x {
            assert(!holds_tick(d, x)) by {
                if holds_tick(d, x) {
                    let i = choose|i: int| 0 <= i < d.len() && d[i] as int == x;
                    assert(s[i] == s[s.len() - 1]);
                }
            }
            assert(holds_tick(s, x)) by {
                assert(s[s.len() - 1] as int == x);
            }
        } else {
            assert(holds_tick(s, x) == holds_tick(d, x)) by {
                if holds_tick(s, x) {
                    let i = choose|i: int| 0 <= i < s.len() && s[i] as int == x;
                    assert(d[i] as int == x);
                }
                if holds_tick(d, x) {
                    let i = choose|i: int| 0 <= i < d.len() && d[i] as int == x;
                    assert(s[i] as int == x);
                }
            }
        }
    }
}

pub proof fn lemma_min_match_sum<E>(s: Seq<(Tick, E, usize)>, c: nat, t: int, e: E)
    requires
        keys_distinct(s),
    ensures
        min_match_sum(s, c, t, e) == min_nat(c, count_in(s, t, e)),
    decreases s.len(),
{
    if s.len() > 0 {
        let d = s.drop_last();
        if s.last().0 as int == t && s.last().1 == e {
            assert forall|i: int| 0 <= i < d.len() implies !(d[i].0 as int == t && d[i].1 == e) by {
                assert(!(s[i].0 == s[s.len() - 1].0 && s[i].1 == s[s.len() - 1].1));
            }
            lemma_count_absent(d, t, e);
            lemma_min_match_sum_absent(d, c, t, e);
        } else {
            lemma_min_match_sum(d, c, t, e);
        }
    }
}

pub proof fn lemma_min_match_sum_absent<E>(s: Seq<(Tick, E, usize)>, c: nat, t: int, e: E)
    requires
        forall|i: int| 0 <= i < s.len() ==> !(s[i].0 as int == t && s[i].1 == e),
    ensures
        min_match_sum(s, c, t, e) == 0,
    decreases s.len(),
{
    if s.len() > 0 {
        lemma_min_match_sum_absent(s.drop_last(), c, t, e);
    }
}

pub proof fn lemma_min_match_sum_prefix<E>(s: Seq<(Tick, E, usize)>, k: int, c: nat, t: int, e: E)
    requires
        0 <= k <= s.len(),
    ensures
        min_match_sum(s.take(k), c, t, e) <= min_match_sum(s, c, t, e),
    decreases s.len() - k,
{
    if k < s.len() {
        assert(s.take(k + 1).drop_last() =~= s.take(k));
        lemma_min_match_sum_prefix(s, k + 1, c, t, e);
    } else {
        assert(s.take(k) =~= s);
    }
}

pub proof fn lemma_overlap_prefix<E>(m: TpPlane<E>, s: Seq<(Tick, E, usize)>, k: int, d: int)
    requires
        0 <= k <= s.len(),
    ensures
        overlap_in(m, s.take(k), d) <= overlap_in(m, s, d),
    decreases s.len() - k,
{
    if k < s.len() {
        assert(s.take(k + 1).drop_last() =~= s.take(k));
        lemma_overlap_prefix(m, s, k + 1, d);
    } else {
        assert(s.take(k) =~= s);
    }
}

pub proof fn lemma_overlap_le_total<E>(m: TpPlane<E>, s: Seq<(Tick, E, usize)>, d: int)
    ensures
        overlap_in(m, s, d) <= total_in(s),
    decreases s.len(),
{
    if s.len() > 0 {
        lemma_overlap_le_total(m, s.drop_last(), d);
    }
}

/// Every offset's support is bounded by the plane's total.
pub proof fn lemma_support_le_total<E>(m: TpPlane<E>, d: int)
    ensures
        support(m, d) <= m.total(),
{
    lemma_overlap_le_total(m, m.entries(), d);
}

// Layer
//
// ++++++++++++============++++++++++++============++++++++++++============

/// A single reuse layer: an offset set paired with its capacity-safe kernel.
#[derive(Debug, Clone)]
pub struct Layer<E> {
    /// Translation offsets (scatter, ascending, always contains 0).
    pub scatter: Vec<Tick>,
    /// Capacity-safe arithmetic kernel (anchor point -> multiplicity).
    pub kernel: TpPlane<E>,
}

impl<E> Layer<E> {
    /// Reuse of a layer in spec terms: `sum(K) * (|S| - 1)`.
    pub open spec fn spec_reuse(self) -> int {
        self.kernel.total() * (self.scatter@.len() - 1)
    }
}

impl<E: Event> Layer<E> {
    /// Reuse of this layer: `sum(K) * (|S| - 1)`.
    pub fn reuse(&self) -> (r: usize)
        requires
            self.scatter@.len() >= 1,
            self.kernel.total() * (self.scatter@.len() - 1) <= usize::MAX,
        ensures
            r == self.spec_reuse(),
    {
        proof {
            if self.scatter@.len() >= 2 {
                assert(self.kernel.total() <= self.kernel.total() * (self.scatter@.len() - 1))
                    by (nonlinear_arith)
                    requires
                        self.scatter@.len() >= 2,
                ;
            }
        }
        if self.scatter.len() == 1 {
            proof {
                assert(self.kernel.total() * 0 == 0) by (nonlinear_arith);
            }
            return 0;
        }
        self.kernel.values_sum() * (self.scatter.len() - 1)
    }
}

// Expansion
//
// ++++++++++++============++++++++++++============++++++++++++============

/// Expand `K (+) S`: kernel translated by every offset, multiplicities summed.
pub fn expand<E: Event>(kernel: &TpPlane<E>, scatter: &[Tick]) -> (r: TpPlane<E>)
    requires
        kernel.wf(),
        shifts_fit(*kernel, scatter@),
        forall|t: int, e: E| expansion_count(*kernel, scatter@, t, e) <= usize::MAX,
    ensures
        r.wf(),
        r.total() == kernel.total() * scatter@.len(),
        forall|t: int, e: E| r.count(t, e) == expansion_count(*kernel, scatter@, t, e),
{
    let mut out: TpPlane<E> = TpPlane::new();
    let mut i: usize = 0;
    let ghost ks = kernel.entries();
    while i < scatter.len()
        invariant
            i <= scatter@.len(),
            kernel.wf(),
            ks == kernel.entries(),
            shifts_fit(*kernel, scatter@),
            forall|t: int, e: E| expansion_count(*kernel, scatter@, t, e) <= usize::MAX,
            out.wf(),
            out.total() == kernel.total() * i,
            forall|t: int, e: E| out.count(t, e) == expansion_count(*kernel, scatter@.take(i as int), t, e),
        decreases scatter@.len() - i,
    {
        let offset = scatter[i];
        let mut j: usize = 0;
        while j < kernel.len()
            invariant
                i < scatter@.len(),
                offset == scatter@[i as int],
                j <= ks.len(),
                kernel.wf(),
                ks == kernel.entries(),
                shifts_fit(*kernel, scatter@),
                forall|t: int, e: E| expansion_count(*kernel, scatter@, t, e) <= usize::MAX,
                out.wf(),
                out.total() == kernel.total() * i + total_in(ks.take(j as int)),
                forall|t: int, e: E|
                    out.count(t, e) == expansion_count(*kernel, scatter@.take(i as int), t, e)
                        + count_in(ks.take(j as int), t - offset, e),
            decreases ks.len() - j,
        {
            let (tick, ev, count) = kernel.entry_at(j);
            proof {
                assert(ks.take(j + 1).drop_last() =~= ks.take(j as int));
                kernel.lemma_entry_count(j as int);
                assert(tick + offset <= u32::MAX);
                let tt = (tick + offset) as int;
                lemma_count_prefix_le(ks, j + 1, tt - offset, *ev);
                lemma_count_push(ks.take(j as int), ks[j as int], tt - offset, *ev);
                lemma_expansion_prefix_le(*kernel, scatter@, i + 1, tt, *ev);
                assert(scatter@.take(i + 1).drop_last() =~= scatter@.take(i as int));
                assert(out.count(tt, *ev) + count <= expansion_count(*kernel, scatter@, tt, *ev));
            }
            if count > 0 {
                let ghost before = out;
                out.add(tick + offset, ev.duplicate(), count);
                proof {
                    assert forall|t: int, e: E|
                        out.count(t, e) == expansion_count(*kernel, scatter@.take(i as int), t, e)
                            + count_in(ks.take(j + 1), t - offset, e) by {
                        lemma_count_push(ks.take(j as int), ks[j as int], t - offset, e);
                    }
                }
            }
            j = j + 1;
        }
        proof {
            assert(ks.take(j as int) =~= ks);
            assert(scatter@.take(i + 1).drop_last() =~= scatter@.take(i as int));
            assert(kernel.total() * i + kernel.total() == kernel.total() * (i + 1))
                by (nonlinear_arith);
        }
        i = i + 1;
    }
    proof {
        assert(scatter@.take(i as int) =~= scatter@);
    }
    out
}

/// Subtract `consumed` from `source`; the consumed multiset must lie within
/// the source.
pub fn subtract_exact<E: Event>(source: &TpPlane<E>, consumed: &TpPlane<E>) -> (r: TpPlane<E>)
    requires
        source.wf(),
        consumed.wf(),
        plane_le(*consumed, *source),
    ensures
        r.wf(),
        r.total() + consumed.total() == source.total(),
        forall|t: int, e: E| r.count(t, e) + consumed.count(t, e) == source.count(t, e),
{
    let mut out = source.duplicate_plane();
    let ghost cs = consumed.entries();
    let mut j: usize = 0;
    while j < consumed.len()
        invariant
            j <= cs.len(),
            cs == consumed.entries(),
            consumed.wf(),
            plane_le(*consumed, *source),
            keys_distinct(out.entries()),
            out.total() + total_in(cs.take(j as int)) == source.total(),
            forall|t: int, e: E| out.count(t, e) + count_in(cs.take(j as int), t, e) == source.count(t, e),
        decreases cs.len() - j,
    {
        let (tick, ev, count) = consumed.entry_at(j);
        proof {
            assert(cs.take(j + 1).drop_last() =~= cs.take(j as int));
            consumed.lemma_entry_count(j as int);
            assert forall|k: int| 0 <= k < cs.take(j as int).len() implies !(cs.take(
                j as int,
            )[k].0 as int == tick as int && cs.take(j as int)[k].1 == *ev) by {
                assert(!(cs[k].0 == cs[j as int].0 && cs[k].1 == cs[j as int].1));
            }
            lemma_count_absent(cs.take(j as int), tick as int, *ev);
            assert(out.count(tick as int, *ev) == source.count(tick as int, *ev));
        }
        out.take_away(tick, ev, count);
        proof {
            lemma_total_push(cs.take(j as int), cs[j as int]);
            assert forall|t: int, e: E|
                out.count(t, e) + count_in(cs.take(j + 1), t, e) == source.count(t, e) by {
                lemma_count_push(cs.take(j as int), cs[j as int], t, e);
            }
        }
        j = j + 1;
    }
    proof {
        assert(cs.take(j as int) =~= cs);
    }
    out.compact()
}

// Autocorrelation
//
// ++++++++++++============++++++++++++============++++++++++++============

/// The support of every positive offset, as a plane over ticks (offsets):
/// the multiplicity of `(d, ())` is [`support`] at `d`.
fn support_plane<E: Event>(source: &TpPlane<E>) -> (r: TpPlane<()>)
    requires
        source.wf(),
        forall|d: int| support(*source, d) <= usize::MAX,
    ensures
        r.wf(),
        forall|d: int| r.count(d, ()) == (if d > 0 { support(*source, d) } else { 0 }),
{
    let ghost s = source.entries();
    let mut sup: TpPlane<()> = TpPlane::new();
    let n = source.len();
    let mut i: usize = 0;
    while i < n
        invariant
            n == s.len(),
            s == source.entries(),
            source.wf(),
            i <= n,
            forall|d: int| support(*source, d) <= usize::MAX,
            sup.wf(),
            forall|d: int|
                sup.count(d, ()) == (if d > 0 { overlap_in(*source, s.take(i as int), d) } else { 0 }),
        decreases n - i,
    {
        let (ti, ei, ci) = source.entry_at(i);
        proof {
            assert(s.take(i + 1).drop_last() =~= s.take(i as int));
        }
        let mut j: usize = 0;
        while j < n
            invariant
                n == s.len(),
                s == source.entries(),
                source.wf(),
                i < n,
                j <= n,
                ti == s[i as int].0,
                *ei == s[i as int].1,
                ci == s[i as int].2,
                forall|d: int| support(*source, d) <= usize::MAX,
                sup.wf(),
                forall|d: int|
                    sup.count(d, ()) == (if d > 0 {
                        overlap_in(*source, s.take(i as int), d) + min_match_sum(
                            s.take(j as int),
                            ci as nat,
                            ti + d,
                            *ei,
                        )
                    } else {
                        0
                    }),
            decreases n - j,
        {
            let (tj, ej, cj) = source.entry_at(j);
            proof {
                assert(s.take(j + 1).drop_last() =~= s.take(j as int));
            }
            if tj > ti && ej.same(ei) {
                let d = tj - ti;
                let m = if ci <= cj {
                    ci
                } else {
                    cj
                };
                proof {
                    lemma_min_match_sum_prefix(s, j + 1, ci as nat, ti + d, *ei);
                    lemma_min_match_sum(s, ci as nat, ti + d, *ei);
                    lemma_overlap_prefix(*source, s, i + 1, d as int);
                    assert(s.take(i + 1).last() == s[i as int]);
                    assert(s.take(i + 1).drop_last() =~= s.take(i as int));
                    assert(overlap_in(*source, s.take(i + 1), d as int) == overlap_in(
                        *source,
                        s.take(i as int),
                        d as int,
                    ) + min_nat(ci as nat, source.count(ti + d, *ei)));
                    assert(sup.count(d as int, ()) + m <= support(*source, d as int));
                    assert(min_match_sum(s.take(j + 1), ci as nat, ti + d, *ei) == min_match_sum(
                        s.take(j as int),
                        ci as nat,
                        ti + d,
                        *ei,
                    ) + m);
                }
                sup.add(d, (), m);
                proof {
                    assert forall|d2: int|
                        sup.count(d2, ()) == (if d2 > 0 {
                            overlap_in(*source, s.take(i as int), d2) + min_match_sum(
                                s.take(j + 1),
                                ci as nat,
                                ti + d2,
                                *ei,
                            )
                        } else {
                            0
                        }) by {}
                }
            }
            j = j + 1;
        }
        proof {
            assert(s.take(j as int) =~= s);
            assert forall|d: int|
                sup.count(d, ()) == (if d > 0 { overlap_in(*source, s.take(i + 1), d) } else { 0 }) by {
                lemma_min_match_sum(s, ci as nat, ti + d, *ei);
            }
        }
        i = i + 1;
    }
    proof {
        assert(s.take(i as int) =~= s);
    }
    sup
}

/// Multiset match upper bound for every positive time offset.
///
/// Per-event pair enumeration: `support[right - left] += min(lc, rc)`; an
/// offset is a key exactly when at least one pair of points lies that far
/// apart.
pub fn autocorrelation<E: Event>(source: &TpPlane<E>) -> (r: BTreeMap<Tick, usize>)
    requires
        source.wf(),
        forall|d: int| support(*source, d) <= usize::MAX,
    ensures
        forall|d: Tick| #[trigger] r@.contains_key(d) <==> (d > 0 && support(*source, d as int) > 0),
        forall|d: Tick| #[trigger] r@.contains_key(d) ==> r@[d] == support(*source, d as int),
{
    let sup = support_plane(source);
    let mut map: BTreeMap<Tick, usize> = BTreeMap::new();
    let n = sup.len();
    let mut k: usize = 0;
    while k < n
        invariant
            n == sup.entries().len(),
            k <= n,
            sup.wf(),
            forall|d: Tick|
                #[trigger] map@.contains_key(d) <==> exists|q: int|
                    0 <= q < k && sup.entries()[q].0 == d,
            forall|q: int| 0 <= q < k ==> map@[sup.entries()[q].0] == sup.entries()[q].2,
        decreases n - k,
    {
        let (d, _unit, v) = sup.entry_at(k);
        map.insert(d, v);
        proof {
            assert forall|q: int| 0 <= q < k + 1 implies map@[sup.entries()[q].0]
                == sup.entries()[q].2 by {
                if q < k {
                    assert(!(sup.entries()[q].0 == sup.entries()[k as int].0 && sup.entries()[q].1
                        == sup.entries()[k as int].1));
                }
            }
            assert forall|d2: Tick| #[trigger] map@.contains_key(d2) <==> exists|q: int|
                0 <= q < k + 1 && sup.entries()[q].0 == d2 by {
                if d2 == d {
                    assert(sup.entries()[k as int].0 == d2);
                }
            }
        }
        k = k + 1;
    }
    proof {
        assert forall|d: Tick| #[trigger] map@.contains_key(d) <==> (d > 0 && support(
            *source,
            d as int,
        ) > 0) by {
            if map@.contains_key(d) {
                let q = choose|q: int| 0 <= q < k && sup.entries()[q].0 == d;
                sup.lemma_entry_count(q);
            } else {
                assert forall|q: int| 0 <= q < sup.entries().len() implies !(sup.entries()[q].0
                    as int == d as int && sup.entries()[q].1 == ()) by {}
                sup.lemma_absent(d as int, ());
            }
        }
        assert forall|d: Tick| #[trigger] map@.contains_key(d) implies map@[d] == support(
            *source,
            d as int,
        ) by {
            let q = choose|q: int| 0 <= q < k && sup.entries()[q].0 == d;
            sup.lemma_entry_count(q);
        }
    }
    map
}

// Kernel
//
// ++++++++++++============++++++++++++============++++++++++++============

/// `a` is an anchor of event `e`: every offset of `s` moves it onto a point
/// of the source.
pub open spec fn is_anchor<E>(source: TpPlane<E>, s: Seq<Tick>, e: E, a: int) -> bool {
    forall|i: int| #![trigger s[i]] 0 <= i < s.len() ==> source.count(a + s[i], e) > 0
}

/// Some offset of `s` moves `a` onto a tick without remaining capacity.
pub open spec fn depleted(avail: TpPlane<()>, s: Seq<Tick>, a: int) -> bool {
    exists|i: int| #![trigger s[i]] 0 <= i < s.len() && avail.count(a + s[i], ()) == 0
}

/// The number of `false` entries.
pub open spec fn count_false(s: Seq<bool>) -> nat
    decreases s.len(),
{
    if s.len() == 0 {
        0
    } else {
        count_false(s.drop_last()) + (if s.last() {
            0nat
        } else {
            1nat
        })
    }
}

pub proof fn lemma_count_false_set(s: Seq<bool>, p: int)
    requires
        0 <= p < s.len(),
        !s[p],
    ensures
        count_false(s.update(p, true)) + 1 == count_false(s),
    decreases s.len(),
{
    let u = s.update(p, true);
    if p == s.len() - 1 {
        assert(u.drop_last() =~= s.drop_last());
    } else {
        assert(u.drop_last() =~= s.drop_last().update(p, true));
        lemma_count_false_set(s.drop_last(), p);
    }
}

/// The first offsets of `scatter`, each kept once.
fn dedup_offsets(scatter: &[Tick]) -> (r: Vec<Tick>)
    ensures
        r@ == dedup_seq(scatter@),
{
    let mut out: Vec<Tick> = Vec::new();
    let mut i: usize = 0;
    while i < scatter.len()
        invariant
            i <= scatter@.len(),
            out@ == dedup_seq(scatter@.take(i as int)),
        decreases scatter@.len() - i,
    {
        let x = scatter[i];
        let mut found = false;
        let mut j: usize = 0;
        while j < out.len()
            invariant
                j <= out@.len(),
                found == exists|k: int| 0 <= k < j && out@[k] == x,
            decreases out@.len() - j,
        {
            if out[j] == x {
                found = true;
            }
            j = j + 1;
        }
        proof {
            assert(scatter@.take(i + 1).drop_last() =~= scatter@.take(i as int));
            assert(scatter@.take(i + 1).last() == x);
            assert(found == out@.contains(x));
        }
        if !found {
            out.push(x);
        }
        i = i + 1;
    }
    proof {
        assert(scatter@.take(i as int) =~= scatter@);
    }
    out
}

/// The capacities of one event: the multiplicity of `(t, ())` is that of
/// `(t, e)` in the source.
fn tone_capacities<E: Event>(source: &TpPlane<E>, e: &E) -> (r: TpPlane<()>)
    requires
        source.wf(),
    ensures
        r.wf(),
        forall|t: int| r.count(t, ()) == source.count(t, *e),
{
    let ghost s = source.entries();
    let mut avail: TpPlane<()> = TpPlane::new();
    let n = source.len();
    let mut i: usize = 0;
    while i < n
        invariant
            n == s.len(),
            s == source.entries(),
            source.wf(),
            i <= n,
            avail.wf(),
            forall|t: int| avail.count(t, ()) == count_in(s.take(i as int), t, *e),
        decreases n - i,
    {
        let (t, ev, c) = source.entry_at(i);
        proof {
            assert(s.take(i + 1).drop_last() =~= s.take(i as int));
            assert forall|t2: int| count_in(s.take(i + 1), t2, *e) == count_in(
                s.take(i as int),
                t2,
                *e,
            ) + (if s[i as int].0 as int == t2 && s[i as int].1 == *e {
                s[i as int].2 as nat
            } else {
                0
            }) by {
                lemma_count_push(s.take(i as int), s[i as int], t2, *e);
            }
        }
        if ev.same(e) {
            proof {
                assert forall|k: int| 0 <= k < s.take(i as int).len() implies !(s.take(
                    i as int,
                )[k].0 as int == t as int && s.take(i as int)[k].1 == *e) by {
                    assert(!(s[k].0 == s[i as int].0 && s[k].1 == s[i as int].1));
                }
                lemma_count_absent(s.take(i as int), t as int, *e);
            }
            avail.add(t, (), c);
        }
        i = i + 1;
    }
    proof {
        assert(s.take(i as int) =~= s);
    }
    avail
}

/// The anchors of one event, each once.
fn tone_anchors<E: Event>(source: &TpPlane<E>, e: &E, offs: &Vec<Tick>) -> (r: Vec<Tick>)
    requires
        source.wf(),
        offs@.contains(0),
        shifts_fit(*source, offs@),
    ensures
        r@.no_duplicates(),
        forall|a: int| #[trigger] holds_tick(r@, a) <==> is_anchor(*source, offs@, *e, a),
        forall|p: int, i: int|
            0 <= p < r@.len() && 0 <= i < offs@.len() ==> r@[p] + offs@[i] <= u32::MAX,
{
    let ghost s = source.entries();
    let mut out: Vec<Tick> = Vec::new();
    let n = source.len();
    let mut i: usize = 0;
    while i < n
        invariant
            n == s.len(),
            s == source.entries(),
            source.wf(),
            offs@.contains(0),
            shifts_fit(*source, offs@),
            i <= n,
            out@.no_duplicates(),
            forall|p: int| 0 <= p < out@.len() ==> is_anchor(*source, offs@, *e, out@[p] as int),
            forall|p: int|
                #![trigger out@[p]]
                0 <= p < out@.len() ==> exists|k: int|
                    #![trigger s[k]]
                    0 <= k < i && s[k].0 == out@[p] && s[k].1 == *e,
            forall|k: int|
                0 <= k < i && s[k].1 == *e && is_anchor(*source, offs@, *e, s[k].0 as int)
                    ==> #[trigger] holds_tick(out@, s[k].0 as int),
        decreases n - i,
    {
        let (t, ev, c) = source.entry_at(i);
        let ghost before0 = out@;
        proof {
            source.lemma_entry_count(i as int);
        }
        if ev.same(e) {
            let mut full = true;
            let mut j: usize = 0;
            while j < offs.len()
                invariant
                    source.wf(),
                    shifts_fit(*source, offs@),
                    source.count(t as int, *e) > 0,
                    j <= offs@.len(),
                    full == forall|q: int| #![trigger offs@[q]] 0 <= q < j ==> source.count(t + offs@[q], *e) > 0,
                decreases offs@.len() - j,
            {
                if source.get(t + offs[j], e) == 0 {
                    full = false;
                }
                j = j + 1;
            }
            if full {
                let ghost before = out@;
                proof {
                    assert(!before.contains(t)) by {
                        if before.contains(t) {
                            let p = choose|p: int| 0 <= p < before.len() && before[p] == t;
                            let k = choose|k: int| 0 <= k < i && s[k].0 == before[p] && s[k].1 == *e;
                            assert(!(s[k].0 == s[i as int].0 && s[k].1 == s[i as int].1));
                        }
                    }
                }
                out.push(t);
                proof {
                    assert forall|k: int|
                        0 <= k < i + 1 && s[k].1 == *e && is_anchor(*source, offs@, *e, s[k].0 as int)
                            implies #[trigger] holds_tick(out@, s[k].0 as int) by {
                        if k == i {
                            assert(out@[before.len() as int] == t);
                        } else {
                            assert(holds_tick(before, s[k].0 as int));
                            let p = choose|p: int| 0 <= p < before.len() && before[p] as int == s[k].0 as int;
                            assert(out@[p] == before[p]);
                        }
                    }
                }
            } else {
                proof {
                    assert forall|k: int|
                        0 <= k < i + 1 && s[k].1 == *e && is_anchor(*source, offs@, *e, s[k].0 as int)
                            implies #[trigger] holds_tick(out@, s[k].0 as int) by {
                        if k == i {
                            let q = choose|q: int| 0 <= q < offs@.len() && !(source.count(t + offs@[q], *e) > 0);
                            assert(offs@[q] == offs@[q]);
                        }
                    }
                }
            }
        }
        proof {
            assert forall|p: int| #![trigger out@[p]] 0 <= p < out@.len() implies exists|k: int|
                #![trigger s[k]]
                0 <= k < i + 1 && s[k].0 == out@[p] && s[k].1 == *e by {
                if p == before0.len() {
                    assert(s[i as int].0 == out@[p]);
                } else {
                    assert(out@[p] == before0[p]);
                    let k = choose|k: int| #![trigger s[k]] 0 <= k < i && s[k].0 == before0[p] && s[k].1 == *e;
                    assert(s[k].0 == out@[p]);
                }
            }
        }
        i = i + 1;
    }
    proof {
        assert forall|a: int| #[trigger] holds_tick(out@, a) <==> is_anchor(*source, offs@, *e, a) by {
            if holds_tick(out@, a) {
                let p = choose|p: int| 0 <= p < out@.len() && out@[p] as int == a;
            }
            if is_anchor(*source, offs@, *e, a) {
                let z = choose|z: int| 0 <= z < offs@.len() && offs@[z] == 0;
                assert(source.count(a + offs@[z], *e) > 0);
                source.lemma_present(a, *e);
                let k = choose|k: int|
                    0 <= k < s.len() && s[k].0 as int == a && s[k].1 == *e;
            }
        }
        assert forall|p: int, q: int|
            0 <= p < out@.len() && 0 <= q < offs@.len() implies out@[p] + offs@[q] <= u32::MAX by {
            let z = choose|z: int| 0 <= z < offs@.len() && offs@[z] == 0;
            assert(is_anchor(*source, offs@, *e, out@[p] as int));
            assert(source.count(out@[p] + offs@[z], *e) > 0);
        }
    }
    out
}

/// For each anchor, how many anchors (itself included) share a covered tick
/// with it.
fn conflict_counts(anchors: &Vec<Tick>, offs: &Vec<Tick>) -> (r: Vec<usize>)
    requires
        anchors@.no_duplicates(),
        forall|p: int, i: int|
            0 <= p < anchors@.len() && 0 <= i < offs@.len() ==> anchors@[p] + offs@[i] <= u32::MAX,
    ensures
        r@.len() == anchors@.len(),
        forall|q: int|
            0 <= q < anchors@.len() ==> r@[q] == conflicts_of(anchors@.to_set(), offs@, #[trigger] anchors@[q]),
{
    let mut out: Vec<usize> = Vec::new();
    let mut p: usize = 0;
    while p < anchors.len()
        invariant
            anchors@.no_duplicates(),
            p <= anchors@.len(),
            out@.len() == p,
            forall|p2: int, i: int|
                0 <= p2 < anchors@.len() && 0 <= i < offs@.len() ==> anchors@[p2] + offs@[i]
                    <= u32::MAX,
            forall|q: int|
                0 <= q < p ==> out@[q] == conflicts_of(anchors@.to_set(), offs@, #[trigger] anchors@[q]),
        decreases anchors@.len() - p,
    {
        let mut conflicts: usize = 0;
        let mut q: usize = 0;
        while q < anchors.len()
            invariant
                p < anchors@.len(),
                q <= anchors@.len(),
                conflicts <= q,
                conflicts == meets_in(anchors@.take(q as int), offs@, anchors@[p as int] as int),
                forall|p2: int, i: int|
                    0 <= p2 < anchors@.len() && 0 <= i < offs@.len() ==> anchors@[p2] + offs@[i]
                        <= u32::MAX,
            decreases anchors@.len() - q,
        {
            proof {
                assert(anchors@.take(q + 1).drop_last() =~= anchors@.take(q as int));
            }
            if shares_tick(anchors[p], anchors[q], offs) {
                conflicts = conflicts + 1;
            }
            q = q + 1;
        }
        proof {
            assert(anchors@.take(q as int) =~= anchors@);
            lemma_meets_in_set(anchors@, offs@, anchors@[p as int] as int);
        }
        out.push(conflicts);
        p = p + 1;
    }
    out
}

/// Whether the covered ticks of two anchors intersect.
fn shares_tick(a: Tick, b: Tick, offs: &Vec<Tick>) -> (r: bool)
    requires
        forall|i: int| 0 <= i < offs@.len() ==> a + offs@[i] <= u32::MAX,
        forall|i: int| 0 <= i < offs@.len() ==> b + offs@[i] <= u32::MAX,
    ensures
        r == exists|i: int, j: int|
            0 <= i < offs@.len() && 0 <= j < offs@.len() && a + #[trigger] offs@[i] == b + #[trigger] offs@[j],
{
    let mut i: usize = 0;
    while i < offs.len()
        invariant
            i <= offs@.len(),
            forall|k: int| 0 <= k < offs@.len() ==> a + offs@[k] <= u32::MAX,
            forall|k: int| 0 <= k < offs@.len() ==> b + offs@[k] <= u32::MAX,
            forall|i2: int, j2: int|
                0 <= i2 < i && 0 <= j2 < offs@.len() ==> a + #[trigger] offs@[i2] != b + #[trigger] offs@[j2],
        decreases offs@.len() - i,
    {
        let mut j: usize = 0;
        while j < offs.len()
            invariant
                i < offs@.len(),
                j <= offs@.len(),
                forall|k: int| 0 <= k < offs@.len() ==> a + offs@[k] <= u32::MAX,
                forall|k: int| 0 <= k < offs@.len() ==> b + offs@[k] <= u32::MAX,
                forall|i2: int, j2: int|
                    0 <= i2 < i && 0 <= j2 < offs@.len() ==> a + #[trigger] offs@[i2] != b + #[trigger] offs@[j2],
                forall|j2: int| 0 <= j2 < j ==> a + offs@[i as int] != b + #[trigger] offs@[j2],
            decreases offs@.len() - j,
        {
            if a + offs[i] == b + offs[j] {
                return true;
            }
            j = j + 1;
        }
        i = i + 1;
    }
    false
}

/// The not yet processed anchor with the least conflicts, ties broken by the
/// smaller tick.
fn pick_next(done: &Vec<bool>, conf: &Vec<usize>, anchors: &Vec<Tick>) -> (r: Option<usize>)
    requires
        done@.len() == conf@.len(),
        done@.len() == anchors@.len(),
    ensures
        match r {
            Some(p) => p < done@.len() && !done@[p as int] && forall|q: int|
                0 <= q < done@.len() && !done@[q] ==> (conf@[p as int] < conf@[q] || (conf@[p as int]
                    == conf@[q] && anchors@[p as int] <= anchors@[q])),
            None => forall|p: int| 0 <= p < done@.len() ==> done@[p],
        },
{
    let mut best: Option<usize> = None;
    let mut p: usize = 0;
    while p < done.len()
        invariant
            done@.len() == conf@.len(),
            done@.len() == anchors@.len(),
            p <= done@.len(),
            match best {
                Some(b) => b < p && !done@[b as int] && forall|q: int|
                    0 <= q < p && !done@[q] ==> (conf@[b as int] < conf@[q] || (conf@[b as int]
                        == conf@[q] && anchors@[b as int] <= anchors@[q])),
                None => forall|q: int| 0 <= q < p ==> done@[q],
            },
        decreases done@.len() - p,
    {
        if !done[p] {
            match best {
                None => {
                    best = Some(p);
                },
                Some(b) => {
                    if conf[p] < conf[b] || (conf[p] == conf[b] && anchors[p] < anchors[b]) {
                        best = Some(p);
                    }
                },
            }
        }
        p = p + 1;
    }
    best
}

/// The least remaining capacity over the ticks covered by `a`, with a tick
/// that attains it.
fn min_avail(avail: &TpPlane<()>, a: Tick, offs: &Vec<Tick>) -> (r: (usize, usize))
    requires
        keys_distinct(avail.entries()),
        offs@.len() > 0,
        forall|i: int| 0 <= i < offs@.len() ==> a + offs@[i] <= u32::MAX,
    ensures
        r.1 < offs@.len(),
        avail.count(a + offs@[r.1 as int], ()) == r.0,
        forall|i: int| #![trigger offs@[i]] 0 <= i < offs@.len() ==> r.0 <= avail.count(a + offs@[i], ()),
{
    let mut best = avail.get(a + offs[0], &());
    let mut idx: usize = 0;
    let mut i: usize = 1;
    while i < offs.len()
        invariant
            keys_distinct(avail.entries()),
            1 <= i <= offs@.len(),
            forall|k: int| 0 <= k < offs@.len() ==> a + offs@[k] <= u32::MAX,
            idx < offs@.len(),
            avail.count(a + offs@[idx as int], ()) == best,
            forall|k: int| #![trigger offs@[k]] 0 <= k < i ==> best <= avail.count(a + offs@[k], ()),
        decreases offs@.len() - i,
    {
        let c = avail.get(a + offs[i], &());
        if c < best {
            best = c;
            idx = i;
        }
        i = i + 1;
    }
    (best, idx)
}

/// Deduct `m` from every tick covered by `a`.
fn deduct(avail: &mut TpPlane<()>, a: Tick, offs: &Vec<Tick>, m: usize)
    requires
        keys_distinct(old(avail).entries()),
        offs@.no_duplicates(),
        forall|i: int| 0 <= i < offs@.len() ==> a + offs@[i] <= u32::MAX,
        forall|i: int| #![trigger offs@[i]] 0 <= i < offs@.len() ==> m <= old(avail).count(a + offs@[i], ()),
    ensures
        keys_distinct(final(avail).entries()),
        forall|t: int|
            final(avail).count(t, ()) + (if holds_tick(offs@, t - a) {
                m as nat
            } else {
                0
            }) == old(avail).count(t, ()),
{
    let mut i: usize = 0;
    while i < offs.len()
        invariant
            keys_distinct(avail.entries()),
            offs@.no_duplicates(),
            i <= offs@.len(),
            forall|k: int| 0 <= k < offs@.len() ==> a + offs@[k] <= u32::MAX,
            forall|k: int| #![trigger offs@[k]] 0 <= k < offs@.len() ==> m <= old(avail).count(a + offs@[k], ()),
            forall|t: int|
                avail.count(t, ()) + (if holds_tick(offs@.take(i as int), t - a) {
                    m as nat
                } else {
                    0
                }) == old(avail).count(t, ()),
        decreases offs@.len() - i,
    {
        let tick = a + offs[i];
        proof {
            assert(!holds_tick(offs@.take(i as int), tick - a)) by {
                if holds_tick(offs@.take(i as int), tick - a) {
                    let k = choose|k: int| #![trigger offs@.take(i as int)[k]] 0 <= k < i && offs@.take(i as int)[k] as int == tick - a;
                    assert(offs@[k] == offs@[i as int]);
                }
            }
        }
        avail.take_away(tick, &(), m);
        proof {
            assert forall|t: int|
                avail.count(t, ()) + (if holds_tick(offs@.take(i + 1), t - a) {
                    m as nat
                } else {
                    0
                }) == old(avail).count(t, ()) by {
                if t == tick as int {
                    assert(offs@.take(i + 1)[i as int] as int == t - a);
                } else {
                    assert(holds_tick(offs@.take(i + 1), t - a) == holds_tick(offs@.take(i as int), t - a)) by {
                        if holds_tick(offs@.take(i + 1), t - a) {
                            let k = choose|k: int| #![trigger offs@.take(i + 1)[k]] 0 <= k < i + 1 && offs@.take(i + 1)[k] as int == t - a;
                            assert(offs@.take(i as int)[k] as int == t - a);
                        }
                        if holds_tick(offs@.take(i as int), t - a) {
                            let k = choose|k: int| #![trigger offs@.take(i as int)[k]] 0 <= k < i && offs@.take(i as int)[k] as int == t - a;
                            assert(offs@.take(i + 1)[k] as int == t - a);
                        }
                    }
                }
            }
        }
        i = i + 1;
    }
    proof {
        assert(offs@.take(i as int) =~= offs@);
    }
}

/// The anchor `b` covers one of the first `n` ticks covered by `a` that
/// has no capacity left.
spec fn expired_by(avail: TpPlane<()>, s: Seq<Tick>, a: int, b: int, n: int) -> bool {
    exists|i: int, j: int|
        0 <= i < n && 0 <= j < s.len() && avail.count(a + #[trigger] s[i], ()) == 0 && b + #[trigger] s[j] == a + s[i]
}

/// Drop from the active set every anchor that covers a depleted tick of `a`.
fn expire(active: &mut Vec<bool>, avail: &TpPlane<()>, anchors: &Vec<Tick>, offs: &Vec<Tick>, a: Tick)
    requires
        keys_distinct(avail.entries()),
        old(active)@.len() == anchors@.len(),
        forall|i: int| 0 <= i < offs@.len() ==> a + offs@[i] <= u32::MAX,
        forall|p: int, i: int|
            0 <= p < anchors@.len() && 0 <= i < offs@.len() ==> anchors@[p] + offs@[i] <= u32::MAX,
    ensures
        final(active)@.len() == old(active)@.len(),
        forall|q: int| 0 <= q < final(active)@.len() && final(active)@[q] ==> old(active)@[q],
        forall|q: int|
            0 <= q < final(active)@.len() && old(active)@[q] && !final(active)@[q] ==> depleted(
                *avail,
                offs@,
                anchors@[q] as int,
            ),
        forall|q: int|
            0 <= q < final(active)@.len() ==> #[trigger] final(active)@[q] == (old(active)@[q] && !expired_by(
                *avail,
                offs@,
                a as int,
                anchors@[q] as int,
                offs@.len() as int,
            )),
{
    let mut i: usize = 0;
    while i < offs.len()
        invariant
            keys_distinct(avail.entries()),
            active@.len() == anchors@.len(),
            old(active)@.len() == anchors@.len(),
            i <= offs@.len(),
            forall|k: int| 0 <= k < offs@.len() ==> a + offs@[k] <= u32::MAX,
            forall|p: int, k: int|
                0 <= p < anchors@.len() && 0 <= k < offs@.len() ==> anchors@[p] + offs@[k] <= u32::MAX,
            forall|q: int| 0 <= q < active@.len() && active@[q] ==> old(active)@[q],
            forall|q: int|
                0 <= q < active@.len() && old(active)@[q] && !active@[q] ==> depleted(
                    *avail,
                    offs@,
                    anchors@[q] as int,
                ),
            forall|q: int|
                0 <= q < active@.len() ==> #[trigger] active@[q] == (old(active)@[q] && !expired_by(
                    *avail,
                    offs@,
                    a as int,
                    anchors@[q] as int,
                    i as int,
                )),
        decreases offs@.len() - i,
    {
        let tick = a + offs[i];
        let ghost mid = active@;
        proof {
            assert forall|b: int| #[trigger] expired_by(*avail, offs@, a as int, b, i + 1) == (expired_by(
                *avail,
                offs@,
                a as int,
                b,
                i as int,
            ) || (avail.count(tick as int, ()) == 0 && exists|j: int|
                0 <= j < offs@.len() && b + #[trigger] offs@[j] == tick)) by {
                if expired_by(*avail, offs@, a as int, b, i + 1) {
                    let (i2, j2) = choose|i2: int, j2: int|
                        0 <= i2 < i + 1 && 0 <= j2 < offs@.len() && avail.count(a + #[trigger] offs@[i2], ()) == 0 && b
                            + #[trigger] offs@[j2] == a + offs@[i2];
                    if i2 < i {
                        assert(expired_by(*avail, offs@, a as int, b, i as int));
                    } else {
                        assert(b + offs@[j2] == tick);
                    }
                }
                if expired_by(*avail, offs@, a as int, b, i as int) {
                    let (i2, j2) = choose|i2: int, j2: int|
                        0 <= i2 < i && 0 <= j2 < offs@.len() && avail.count(a + #[trigger] offs@[i2], ()) == 0 && b
                            + #[trigger] offs@[j2] == a + offs@[i2];
                    assert(expired_by(*avail, offs@, a as int, b, i + 1));
                }
                if avail.count(tick as int, ()) == 0 && exists|j: int| 0 <= j < offs@.len() && b + #[trigger] offs@[j] == tick {
                    let j2 = choose|j: int| 0 <= j < offs@.len() && b + #[trigger] offs@[j] == tick;
                    assert(avail.count(a + offs@[i as int], ()) == 0 && b + offs@[j2] == a + offs@[i as int]);
                    assert(expired_by(*avail, offs@, a as int, b, i + 1));
                }
            }
        }
        if avail.get(tick, &()) == 0 {
            let mut q: usize = 0;
            while q < anchors.len()
                invariant
                    keys_distinct(avail.entries()),
                    active@.len() == anchors@.len(),
                    old(active)@.len() == anchors@.len(),
                    q <= anchors@.len(),
                    avail.count(tick as int, ()) == 0,
                    forall|p: int, k: int|
                        0 <= p < anchors@.len() && 0 <= k < offs@.len() ==> anchors@[p] + offs@[k]
                            <= u32::MAX,
                    forall|q2: int| 0 <= q2 < active@.len() && active@[q2] ==> old(active)@[q2],
                    forall|q2: int|
                        0 <= q2 < active@.len() && old(active)@[q2] && !active@[q2] ==> depleted(
                            *avail,
                            offs@,
                            anchors@[q2] as int,
                        ),
                    mid.len() == anchors@.len(),
                    forall|q2: int|
                        0 <= q2 < active@.len() ==> #[trigger] active@[q2] == if q2 < q {
                            mid[q2] && !exists|j: int| 0 <= j < offs@.len() && anchors@[q2] + #[trigger] offs@[j] == tick
                        } else {
                            mid[q2]
                        },
                decreases anchors@.len() - q,
            {
                let b = anchors[q];
                let mut j: usize = 0;
                let mut covers = false;
                while j < offs.len()
                    invariant
                        q < anchors@.len(),
                        b == anchors@[q as int],
                        j <= offs@.len(),
                        forall|p: int, k: int|
                            0 <= p < anchors@.len() && 0 <= k < offs@.len() ==> anchors@[p]
                                + offs@[k] <= u32::MAX,
                        covers == exists|k: int|
                            #![trigger offs@[k]]
                            0 <= k < j && b + offs@[k] == tick,
                    decreases offs@.len() - j,
                {
                    if b + offs[j] == tick {
                        covers = true;
                    }
                    j = j + 1;
                }
                proof {
                    assert(covers == exists|j: int| 0 <= j < offs@.len() && anchors@[q as int] + #[trigger] offs@[j] == tick);
                }
                if covers {
                    active.set(q, false);
                }
                q = q + 1;
            }
        }
        proof {
            if avail.count(tick as int, ()) != 0 {
                assert(active@ == mid);
            }
        }
        i = i + 1;
    }
}

// The ranked greedy, as a function
//
// ++++++++++++============++++++++++++============++++++++++++============

/// The ticks covered by anchors `a` and `b` (each shifted by every offset
/// of `s`) meet.
pub open spec fn covers_meet(s: Seq<Tick>, a: int, b: int) -> bool {
    exists|i: int, j: int|
        0 <= i < s.len() && 0 <= j < s.len() && a + #[trigger] s[i] == b + #[trigger] s[j]
}

/// The anchors whose covered ticks meet those of `a`.
pub open spec fn meets(s: Seq<Tick>, a: int) -> spec_fn(Tick) -> bool {
    |b: Tick| covers_meet(s, a, b as int)
}

/// The anchors of event `e`: the ticks all of whose shifts have capacity.
pub open spec fn anchor_set<E>(source: TpPlane<E>, s: Seq<Tick>, e: E) -> Set<Tick> {
    Set::new(|a: Tick| is_anchor(source, s, e, a as int))
}

/// How many anchors of `anc` (`a` itself included) meet `a`.
pub open spec fn conflicts_of(anc: Set<Tick>, s: Seq<Tick>, a: Tick) -> nat {
    anc.filter(meets(s, a as int)).len()
}

/// `a` is taken no later than `b`: fewer conflicts first, ties by the
/// smaller tick.
pub open spec fn ranks_before(anc: Set<Tick>, s: Seq<Tick>, a: Tick, b: Tick) -> bool {
    ||| conflicts_of(anc, s, a) < conflicts_of(anc, s, b)
    ||| (conflicts_of(anc, s, a) == conflicts_of(anc, s, b) && a <= b)
}

/// The anchor of `rem` that ranks first.
pub open spec fn first_ranked(rem: Set<Tick>, anc: Set<Tick>, s: Seq<Tick>) -> Tick {
    choose|a: Tick| rem.contains(a) && forall|b: Tick| #[trigger] rem.contains(b) ==> ranks_before(anc, s, a, b)
}

/// The least capacity over the ticks that `a` covers.
pub open spec fn least_cover(avail: spec_fn(int) -> nat, a: int, s: Seq<Tick>) -> nat
    decreases s.len(),
{
    if s.len() <= 1 {
        if s.len() == 1 {
            avail(a + s[0])
        } else {
            0
        }
    } else {
        min_nat(least_cover(avail, a, s.drop_last()), avail(a + s.last()))
    }
}

/// The capacities once `m` is taken from every tick that `a` covers.
pub open spec fn take_cover(avail: spec_fn(int) -> nat, a: int, s: Seq<Tick>, m: nat) -> spec_fn(int) -> nat {
    |t: int|
        if holds_tick(s, t - a) {
            (avail(t) - m) as nat
        } else {
            avail(t)
        }
}

/// The kernel multiplicities that the ranked greedy commits when it takes
/// the anchors of `rem` in rank order from the capacities `avail`: each
/// anchor takes the least capacity of its covered ticks.
pub open spec fn greedy_from(
    rem: Set<Tick>,
    anc: Set<Tick>,
    s: Seq<Tick>,
    avail: spec_fn(int) -> nat,
) -> spec_fn(int) -> nat
    decreases rem.len(),
{
    if rem.finite() && rem.len() > 0 && rem.contains(first_ranked(rem, anc, s)) {
        let a = first_ranked(rem, anc, s);
        let m = least_cover(avail, a as int, s);
        let rest = greedy_from(rem.remove(a), anc, s, take_cover(avail, a as int, s, m));
        |t: int| rest(t) + (if t == a as int { m } else { 0 })
    } else {
        |t: int| 0
    }
}

/// The multiplicities of event `e` in the source.
pub open spec fn event_caps<E>(source: TpPlane<E>, e: E) -> spec_fn(int) -> nat {
    |t: int| source.count(t, e)
}

/// The kernel of event `e` that the ranked greedy builds on `source` for
/// the offsets `s`.
pub open spec fn greedy_kernel<E>(source: TpPlane<E>, s: Seq<Tick>, e: E) -> spec_fn(int) -> nat {
    greedy_from(anchor_set(source, s, e), anchor_set(source, s, e), s, event_caps(source, e))
}

/// `k` is, event by event, the kernel of the ranked greedy.
#[verifier::opaque]
pub open spec fn is_greedy_kernel<E>(k: TpPlane<E>, s: Seq<Tick>, source: TpPlane<E>) -> bool {
    forall|t: int, e: E| #[trigger] k.count(t, e) == greedy_kernel(source, s, e)(t)
}

/// The capacities held in `avail`.
spec fn caps(avail: TpPlane<()>) -> spec_fn(int) -> nat {
    |t: int| avail.count(t, ())
}

/// The anchors of `anchors` not yet taken.
spec fn pending(anchors: Seq<Tick>, done: Seq<bool>) -> Set<Tick> {
    Set::new(|a: Tick| exists|p: int| 0 <= p < anchors.len() && !done[p] && anchors[p] == a)
}

/// How many anchors of `s` meet `a`.
spec fn meets_in(s: Seq<Tick>, offs: Seq<Tick>, a: int) -> nat
    decreases s.len(),
{
    if s.len() == 0 {
        0
    } else {
        meets_in(s.drop_last(), offs, a) + (if covers_meet(offs, a, s.last() as int) {
            1nat
        } else {
            0nat
        })
    }
}

proof fn lemma_meets_in_set(s: Seq<Tick>, offs: Seq<Tick>, a: int)
    requires
        s.no_duplicates(),
    ensures
        s.to_set().finite(),
        meets_in(s, offs, a) == s.to_set().filter(meets(offs, a)).len(),
    decreases s.len(),
{
    broadcast use vstd::seq_lib::seq_to_set_is_finite;
    let f = meets(offs, a);
    if s.len() == 0 {
        assert(s.to_set().filter(f) =~= Set::empty());
    } else {
        let s0 = s.drop_last();
        let x = s.last();
        assert(s0.no_duplicates());
        lemma_meets_in_set(s0, offs, a);
        assert(s =~= s0 + seq![x]);
        Seq::lemma_to_set_insert_commutes(s0, x);
        assert(!s0.to_set().contains(x)) by {
            if s0.to_set().contains(x) {
                let k = choose|k: int| 0 <= k < s0.len() && s0[k] == x;
                assert(s[k] == s[s.len() - 1]);
            }
        }
        s0.to_set().lemma_len_filter(f);
        if f(x) {
            assert(s.to_set().filter(f) =~= s0.to_set().filter(f).insert(x));
        } else {
            assert(s.to_set().filter(f) =~= s0.to_set().filter(f));
        }
    }
}

proof fn lemma_least_cover(avail: spec_fn(int) -> nat, a: int, s: Seq<Tick>)
    requires
        s.len() > 0,
    ensures
        forall|i: int| #![trigger s[i]] 0 <= i < s.len() ==> least_cover(avail, a, s) <= avail(a + s[i]),
        exists|j: int| #![trigger s[j]] 0 <= j < s.len() && least_cover(avail, a, s) == avail(a + s[j]),
    decreases s.len(),
{
    if s.len() > 1 {
        let s0 = s.drop_last();
        lemma_least_cover(avail, a, s0);
        assert forall|i: int| #![trigger s[i]] 0 <= i < s.len() implies least_cover(avail, a, s) <= avail(a + s[i]) by {
            if i < s.len() - 1 {
                assert(s0[i] == s[i]);
            }
        }
        let j = choose|j: int| #![trigger s0[j]] 0 <= j < s0.len() && least_cover(avail, a, s0) == avail(a + s0[j]);
        if least_cover(avail, a, s) == avail(a + s.last()) {
            assert(least_cover(avail, a, s) == avail(a + s[s.len() - 1]));
        } else {
            assert(least_cover(avail, a, s) == avail(a + s[j]));
        }
    } else {
        assert(least_cover(avail, a, s) == avail(a + s[0]));
    }
}

/// A value no larger than every covered capacity and attained by one of
/// them is the least cover.
proof fn lemma_least_cover_is(avail: spec_fn(int) -> nat, a: int, s: Seq<Tick>, x: nat, j: int)
    requires
        s.len() > 0,
        0 <= j < s.len(),
        x == avail(a + s[j]),
        forall|i: int| #![trigger s[i]] 0 <= i < s.len() ==> x <= avail(a + s[i]),
    ensures
        least_cover(avail, a, s) == x,
{
    lemma_least_cover(avail, a, s);
    let k = choose|k: int| #![trigger s[k]] 0 <= k < s.len() && least_cover(avail, a, s) == avail(a + s[k]);
    assert(x <= avail(a + s[k]));
    assert(least_cover(avail, a, s) <= avail(a + s[j]));
}

proof fn lemma_first_ranked(rem: Set<Tick>, anc: Set<Tick>, s: Seq<Tick>, a: Tick)
    requires
        rem.contains(a),
        forall|b: Tick| #[trigger] rem.contains(b) ==> ranks_before(anc, s, a, b),
    ensures
        first_ranked(rem, anc, s) == a,
{
    let c = first_ranked(rem, anc, s);
    assert(rem.contains(c) && forall|b: Tick| #[trigger] rem.contains(b) ==> ranks_before(anc, s, c, b));
    assert(ranks_before(anc, s, c, a));
    assert(ranks_before(anc, s, a, c));
}

/// One step of the greedy: the first ranked anchor takes its least cover.
proof fn lemma_greedy_step(rem: Set<Tick>, anc: Set<Tick>, s: Seq<Tick>, avail: spec_fn(int) -> nat, a: Tick, t: int)
    requires
        rem.finite(),
        rem.contains(a),
        first_ranked(rem, anc, s) == a,
    ensures
        greedy_from(rem, anc, s, avail)(t) == greedy_from(
            rem.remove(a),
            anc,
            s,
            take_cover(avail, a as int, s, least_cover(avail, a as int, s)),
        )(t) + (if t == a as int { least_cover(avail, a as int, s) } else { 0 }),
{
    assert(rem.len() > 0);
}

/// Per-event greedy independent set over the anchor conflict graph.
///
/// Anchors are taken least-conflict first (ties by tick); each committed
/// anchor takes the least remaining capacity of its covered ticks, and
/// anchors whose covered ticks run dry leave the active set.
fn kernel_for_tone<E: Event>(source: &TpPlane<E>, e: &E, offs: &Vec<Tick>, kernel: &mut TpPlane<E>)
    requires
        source.wf(),
        old(kernel).wf(),
        offs@.no_duplicates(),
        offs@.contains(0),
        shifts_fit(*source, offs@),
        forall|t: int| old(kernel).count(t, *e) == 0,
    ensures
        final(kernel).wf(),
        forall|t: int, e2: E| e2 != *e ==> final(kernel).count(t, e2) == old(kernel).count(t, e2),
        forall|t: int| #[trigger] expansion_count(*final(kernel), offs@, t, *e) <= source.count(t, *e),
        forall|a: int| #[trigger] used_up(*final(kernel), offs@, *source, a, *e),
        forall|t: int| #[trigger] final(kernel).count(t, *e) == greedy_kernel(*source, offs@, *e)(t),
{
    let mut avail = tone_capacities(source, e);
    let anchors = tone_anchors(source, e, offs);
    let conf = conflict_counts(&anchors, offs);
    let mut done: Vec<bool> = Vec::new();
    let mut active: Vec<bool> = Vec::new();
    let mut k: usize = 0;
    while k < anchors.len()
        invariant
            k <= anchors@.len(),
            done@.len() == k,
            active@.len() == k,
            forall|q: int| 0 <= q < k ==> !done@[q] && active@[q],
        decreases anchors@.len() - k,
    {
        done.push(false);
        active.push(true);
        k = k + 1;
    }
    let ghost anc = anchor_set(*source, offs@, *e);
    proof {
        assert forall|t: int| expansion_count(*kernel, offs@, t, *e) == 0 by {
            lemma_expansion_zero(*kernel, offs@, t, *e);
        }
        assert(anchors@.to_set() =~= anc) by {
            assert forall|a: Tick| anchors@.to_set().contains(a) <==> anc.contains(a) by {
                if anchors@.to_set().contains(a) {
                    let p = choose|p: int| 0 <= p < anchors@.len() && anchors@[p] == a;
                    assert(holds_tick(anchors@, a as int));
                }
                if anc.contains(a) {
                    assert(holds_tick(anchors@, a as int));
                    let p = choose|p: int| 0 <= p < anchors@.len() && anchors@[p] as int == a as int;
                    assert(anchors@[p] == a);
                }
            }
        }
        assert(pending(anchors@, done@) =~= anc) by {
            assert forall|a: Tick| pending(anchors@, done@).contains(a) <==> anc.contains(a) by {
                if anc.contains(a) {
                    let p = choose|p: int| 0 <= p < anchors@.len() && anchors@[p] == a;
                    assert(!done@[p]);
                }
            }
        }
        assert(caps(avail) =~= event_caps(*source, *e));
    }
    let ghost k0 = *kernel;
    loop
        invariant
            source.wf(),
            offs@.no_duplicates(),
            offs@.contains(0),
            shifts_fit(*source, offs@),
            anchors@.no_duplicates(),
            forall|a: int| #[trigger] holds_tick(anchors@, a) <==> is_anchor(*source, offs@, *e, a),
            forall|p: int, i: int|
                0 <= p < anchors@.len() && 0 <= i < offs@.len() ==> anchors@[p] + offs@[i] <= u32::MAX,
            conf@.len() == anchors@.len(),
            done@.len() == anchors@.len(),
            active@.len() == anchors@.len(),
            keys_distinct(avail.entries()),
            kernel.wf(),
            k0 == *old(kernel),
            forall|t: int, e2: E| e2 != *e ==> kernel.count(t, e2) == k0.count(t, e2),
            forall|t: int| expansion_count(*kernel, offs@, t, *e) + avail.count(t, ()) == source.count(t, *e),
            forall|p: int|
                0 <= p < anchors@.len() && (done@[p] || !active@[p]) ==> depleted(avail, offs@, anchors@[p] as int),
            anc == anchor_set(*source, offs@, *e),
            anchors@.to_set() == anc,
            forall|q: int| 0 <= q < anchors@.len() ==> conf@[q] == conflicts_of(anc, offs@, #[trigger] anchors@[q]),
            forall|t: int|
                #[trigger] greedy_kernel(*source, offs@, *e)(t) == kernel.count(t, *e) + greedy_from(
                    pending(anchors@, done@),
                    anc,
                    offs@,
                    caps(avail),
                )(t),
        ensures
            forall|t: int| #[trigger] greedy_kernel(*source, offs@, *e)(t) == kernel.count(t, *e),
            keys_distinct(avail.entries()),
            kernel.wf(),
            forall|t: int, e2: E| e2 != *e ==> kernel.count(t, e2) == k0.count(t, e2),
            forall|t: int| expansion_count(*kernel, offs@, t, *e) + avail.count(t, ()) == source.count(t, *e),
            forall|p: int| 0 <= p < anchors@.len() ==> depleted(avail, offs@, anchors@[p] as int),
        decreases count_false(done@),
    {
        match pick_next(&done, &conf, &anchors) {
            None => {
                proof {
                    assert forall|p: int| 0 <= p < anchors@.len() implies depleted(avail, offs@, anchors@[p] as int) by {
                        assert(done@[p]);
                    }
                    assert(pending(anchors@, done@) =~= Set::empty());
                }
                break;
            },
            Some(p) => {
                let ghost done0 = done@;
                let ghost rem0 = pending(anchors@, done@);
                let ghost av0 = caps(avail);
                let ghost kern_e0 = *kernel;
                let ghost a0 = anchors@[p as int];
                let ghost lc = least_cover(av0, a0 as int, offs@);
                proof {
                    lemma_count_false_set(done@, p as int);
                    vstd::set_lib::lemma_len_subset(rem0, anchors@.to_set());
                    assert(rem0.contains(a0));
                    assert forall|b: Tick| #[trigger] rem0.contains(b) implies ranks_before(anc, offs@, a0, b) by {
                        let q = choose|q: int| 0 <= q < anchors@.len() && !done0[q] && anchors@[q] == b;
                        assert(conf@[q] == conflicts_of(anc, offs@, anchors@[q]));
                        assert(conf@[p as int] == conflicts_of(anc, offs@, anchors@[p as int]));
                    }
                    lemma_first_ranked(rem0, anc, offs@, a0);
                    assert forall|t: int| #[trigger] greedy_from(rem0, anc, offs@, av0)(t) == greedy_from(
                        rem0.remove(a0),
                        anc,
                        offs@,
                        take_cover(av0, a0 as int, offs@, lc),
                    )(t) + (if t == a0 as int { lc } else { 0 }) by {
                        lemma_greedy_step(rem0, anc, offs@, av0, a0, t);
                    }
                }
                done.set(p, true);
                proof {
                    assert(pending(anchors@, done@) =~= rem0.remove(a0)) by {
                        assert forall|b: Tick| pending(anchors@, done@).contains(b) <==> rem0.remove(a0).contains(b) by {
                            if pending(anchors@, done@).contains(b) {
                                let q = choose|q: int| 0 <= q < anchors@.len() && !done@[q] && anchors@[q] == b;
                                assert(q != p);
                                assert(!done0[q]);
                            }
                            if rem0.remove(a0).contains(b) {
                                let q = choose|q: int| 0 <= q < anchors@.len() && !done0[q] && anchors@[q] == b;
                                assert(q != p);
                                assert(!done@[q]);
                            }
                        }
                    }
                }
                if active[p] {
                    let a = anchors[p];
                    let (m, idx) = min_avail(&avail, a, offs);
                    let ghost avail0 = avail;
                    let ghost kern0 = *kernel;
                    proof {
                        lemma_least_cover_is(av0, a as int, offs@, m as nat, idx as int);
                    }
                    if m > 0 {
                        proof {
                            let z = choose|z: int| 0 <= z < offs@.len() && offs@[z] == 0;
                            assert(m <= avail.count(a + offs@[z], ()));
                            lemma_expansion_covers_kernel(*kernel, offs@, a as int, *e);
                            source.lemma_count_bounded(a as int, *e);
                        }
                        kernel.add(a, e.duplicate(), m);
                        deduct(&mut avail, a, offs, m);
                        proof {
                            assert forall|t: int|
                                expansion_count(*kernel, offs@, t, *e) + avail.count(t, ()) == source.count(t, *e) by {
                                lemma_expansion_add(kern0, *kernel, offs@, a as int, *e, m as nat, t, *e);
                            }
                            assert(avail.count(a + offs@[idx as int], ()) == 0) by {
                                assert(holds_tick(offs@, (a + offs@[idx as int]) - a));
                            }
                            assert(caps(avail) =~= take_cover(av0, a0 as int, offs@, lc));
                        }
                    } else {
                        proof {
                            assert(caps(avail) =~= take_cover(av0, a0 as int, offs@, lc));
                        }
                    }
                    proof {
                        assert(depleted(avail, offs@, a as int)) by {
                            assert(avail.count(a + offs@[idx as int], ()) == 0);
                        }
                        assert forall|q: int|
                            0 <= q < anchors@.len() && depleted(avail0, offs@, anchors@[q] as int) implies depleted(avail, offs@, anchors@[q] as int) by {
                            let i = choose|i: int| #![trigger offs@[i]] 0 <= i < offs@.len() && avail0.count(anchors@[q] + offs@[i], ()) == 0;
                            assert(avail.count(anchors@[q] + offs@[i], ()) <= avail0.count(anchors@[q] + offs@[i], ()));
                        }
                    }
                    active.set(p, false);
                    let ghost active1 = active@;
                    expire(&mut active, &avail, &anchors, offs, a);
                    proof {
                        assert forall|q: int|
                            0 <= q < anchors@.len() && (done@[q] || !active@[q]) implies depleted(avail, offs@, anchors@[q] as int) by {
                            if q != p && !active@[q] && active1[q] {
                            } else if q == p {
                            }
                        }
                    }
                } else {
                    proof {
                        assert(depleted(avail, offs@, a0 as int));
                        lemma_least_cover(av0, a0 as int, offs@);
                        let i = choose|i: int| #![trigger offs@[i]] 0 <= i < offs@.len() && avail.count(a0 + offs@[i], ()) == 0;
                        assert(lc <= av0(a0 + offs@[i]));
                        assert(caps(avail) =~= take_cover(av0, a0 as int, offs@, lc));
                    }
                }
                proof {
                    assert(caps(avail) == take_cover(av0, a0 as int, offs@, lc));
                    assert forall|t: int|
                        #[trigger] greedy_kernel(*source, offs@, *e)(t) == kernel.count(t, *e) + greedy_from(
                            pending(anchors@, done@),
                            anc,
                            offs@,
                            caps(avail),
                        )(t) by {
                        assert(kernel.count(t, *e) == kern_e0.count(t, *e) + (if t == a0 as int { lc } else { 0 }));
                        assert(greedy_from(rem0, anc, offs@, av0)(t) == greedy_from(
                            rem0.remove(a0),
                            anc,
                            offs@,
                            take_cover(av0, a0 as int, offs@, lc),
                        )(t) + (if t == a0 as int { lc } else { 0 }));
                    }
                }
            },
        }
    }
    proof {
        assert forall|t: int| #[trigger] expansion_count(*kernel, offs@, t, *e) <= source.count(t, *e) by {}
        assert forall|a: int| #[trigger] used_up(*kernel, offs@, *source, a, *e) by {
            if is_anchor(*source, offs@, *e, a) {
                assert(holds_tick(anchors@, a));
                let p = choose|p: int| 0 <= p < anchors@.len() && anchors@[p] as int == a;
                assert(depleted(avail, offs@, anchors@[p] as int));
                let i = choose|i: int| #![trigger offs@[i]] 0 <= i < offs@.len() && avail.count(anchors@[p] + offs@[i], ()) == 0;
                assert(expansion_count(*kernel, offs@, a + offs@[i], *e) == source.count(a + offs@[i], *e));
            } else {
                let i = choose|i: int| #![trigger offs@[i]] 0 <= i < offs@.len() && !(source.count(a + offs@[i], *e) > 0);
                assert(expansion_count(*kernel, offs@, a + offs@[i], *e) == source.count(a + offs@[i], *e));
            }
        }
    }
}

/// Some entry before index `i` carries event `e`.
pub open spec fn seen_in<E>(s: Seq<(Tick, E, usize)>, i: int, e: E) -> bool {
    exists|j: int| 0 <= j < i && s[j].1 == e
}

/// The kernel is capacity-safe and saturated for event `e`.
pub open spec fn tone_done<E>(k: TpPlane<E>, offs: Seq<Tick>, source: TpPlane<E>, e: E) -> bool {
    &&& forall|t: int| #[trigger] expansion_count(k, offs, t, e) <= source.count(t, e)
    &&& forall|a: int| #[trigger] used_up(k, offs, source, a, e)
}

pub proof fn lemma_seen_in_step<E>(s: Seq<(Tick, E, usize)>, i: int, e: E)
    requires
        0 <= i < s.len(),
    ensures
        seen_in(s, i + 1, e) == (seen_in(s, i, e) || s[i].1 == e),
{
    if seen_in(s, i + 1, e) && !(s[i].1 == e) {
        let j = choose|j: int| 0 <= j < i + 1 && s[j].1 == e;
        assert(j < i);
    }
}

/// Construct a capacity-safe kernel for the given scatter.
///
/// Per-event greedy least-conflict anchor selection (conflict graph
/// independent set): commit the minimum multiplicity of the least-conflicting
/// anchor, deduct it, and repeat. `expand(kernel, scatter)` always stays
/// within `source` (a heuristic can miss savings but never overdraws the
/// source), and no further anchor fits beside the kernel.
pub fn feasible_kernel<E: Event>(source: &TpPlane<E>, scatter: &[Tick]) -> (r: TpPlane<E>)
    requires
        source.wf(),
        scatter@.contains(0),
        shifts_fit(*source, scatter@),
    ensures
        is_feasible_kernel(r, dedup_seq(scatter@), *source),
        plane_le(r, *source),
        r.total() <= source.total(),
{
    let offs = dedup_offsets(scatter);
    proof {
        lemma_dedup_props(scatter@);
        assert(offs@.contains(0));
        assert forall|t: int, e: E, i: int|
            source.count(t, e) > 0 && 0 <= i < offs@.len() implies t + offs@[i] <= u32::MAX by {
            assert(offs@.contains(offs@[i]));
            assert(scatter@.contains(offs@[i]));
            let j = choose|j: int| 0 <= j < scatter@.len() && scatter@[j] == offs@[i];
        }
    }
    let ghost s = source.entries();
    let mut kernel: TpPlane<E> = TpPlane::new();
    let n = source.len();
    let mut i: usize = 0;
    while i < n
        invariant
            n == s.len(),
            s == source.entries(),
            source.wf(),
            offs@.no_duplicates(),
            offs@.contains(0),
            shifts_fit(*source, offs@),
            i <= n,
            kernel.wf(),
            forall|e: E| #[trigger] seen_in(s, i as int, e) ==> tone_done(kernel, offs@, *source, e),
            forall|e: E, t: int| !seen_in(s, i as int, e) ==> #[trigger] kernel.count(t, e) == 0,
            forall|e: E, t: int|
                seen_in(s, i as int, e) ==> #[trigger] kernel.count(t, e) == greedy_kernel(*source, offs@, e)(t),
        decreases n - i,
    {
        let (_t, ev, _c) = source.entry_at(i);
        let mut seen = false;
        let mut j: usize = 0;
        while j < i
            invariant
                n == s.len(),
                s == source.entries(),
                i < n,
                j <= i,
                *ev == s[i as int].1,
                seen == seen_in(s, j as int, *ev),
            decreases i - j,
        {
            let (_t2, ev2, _c2) = source.entry_at(j);
            proof {
                lemma_seen_in_step(s, j as int, *ev);
            }
            if ev2.same(ev) {
                seen = true;
            }
            j = j + 1;
        }
        proof {
            assert forall|e: E| #[trigger] seen_in(s, i + 1, e) == (seen_in(s, i as int, e) || e == *ev) by {
                lemma_seen_in_step(s, i as int, e);
            }
        }
        if !seen {
            let ghost kb = kernel;
            kernel_for_tone(source, ev, &offs, &mut kernel);
            proof {
                assert forall|e: E| #[trigger] seen_in(s, i + 1, e) implies tone_done(kernel, offs@, *source, e) by {
                    if e != *ev {
                        assert(tone_done(kb, offs@, *source, e));
                        assert forall|t: int| #[trigger] expansion_count(kernel, offs@, t, e) == expansion_count(kb, offs@, t, e) by {
                            lemma_expansion_ext(kernel, kb, offs@, t, e);
                        }
                        assert forall|a: int| #[trigger] used_up(kernel, offs@, *source, a, e) by {
                            assert(used_up(kb, offs@, *source, a, e));
                            let q = choose|q: int| #![trigger offs@[q]] 0 <= q < offs@.len() && expansion_count(kb, offs@, a + offs@[q], e) == source.count(a + offs@[q], e);
                            assert(expansion_count(kernel, offs@, a + offs@[q], e) == expansion_count(kb, offs@, a + offs@[q], e));
                        }
                    }
                }
            }
        }
        i = i + 1;
    }
    proof {
        assert forall|t: int, e: E| #[trigger] expansion_count(kernel, offs@, t, e) <= source.count(t, e) by {
            if !seen_in(s, i as int, e) {
                lemma_expansion_zero(kernel, offs@, t, e);
            } else {
                assert(tone_done(kernel, offs@, *source, e));
            }
        }
        assert forall|a: int, e: E| #[trigger] used_up(kernel, offs@, *source, a, e) by {
            if !seen_in(s, i as int, e) {
                let z = choose|z: int| 0 <= z < offs@.len() && offs@[z] == 0;
                lemma_expansion_zero(kernel, offs@, a + offs@[z], e);
                assert forall|k: int| 0 <= k < s.len() implies !(s[k].0 as int == a + offs@[z] && s[k].1 == e) by {
                    if s[k].1 == e {
                        assert(seen_in(s, i as int, e));
                    }
                }
                source.lemma_absent(a + offs@[z], e);
                assert(expansion_count(kernel, offs@, a + offs@[z], e) == source.count(a + offs@[z], e));
            } else {
                assert(tone_done(kernel, offs@, *source, e));
            }
        }
        assert forall|t: int, e: E| kernel.count(t, e) <= source.count(t, e) by {
            lemma_expansion_covers_kernel(kernel, offs@, t, e);
        }
        kernel.lemma_total_mono(*source);
        reveal(is_greedy_kernel);
        assert forall|t: int, e: E| #[trigger] kernel.count(t, e) == greedy_kernel(*source, offs@, e)(t) by {
            if !seen_in(s, i as int, e) {
                assert(anchor_set(*source, offs@, e) =~= Set::empty()) by {
                    assert forall|a: Tick| !anchor_set(*source, offs@, e).contains(a) by {
                        if anchor_set(*source, offs@, e).contains(a) {
                            let z = choose|z: int| 0 <= z < offs@.len() && offs@[z] == 0;
                            assert(source.count(a + offs@[z], e) > 0);
                            source.lemma_present(a as int, e);
                            let k = choose|k: int| 0 <= k < s.len() && s[k].0 as int == a as int && s[k].1 == e;
                            assert(seen_in(s, i as int, e));
                        }
                    }
                }
            }
        }
    }
    kernel
}

// Family deep-first
//
// ++++++++++++============++++++++++++============++++++++++++============

/// The arithmetic progression `{0, d, ..., (n-1)d}`.
pub open spec fn ap(n: nat, d: int) -> Seq<Tick> {
    Seq::new(n, |i: int| (i * d) as Tick)
}

/// Penalty of one kernel entry `(anchor, event, count)` at spacing `d`:
/// `count` if the midpoint `anchor + d/2` is present, else `2 * count` if
/// both thirds are present, else nothing.
pub open spec fn entry_penalty<E>(x: (Tick, E, usize), d: int, present: spec_fn(int, E) -> bool) -> nat {
    if d % 2 == 0 && present(x.0 + d / 2, x.1) {
        x.2 as nat
    } else if d % 3 == 0 && present(x.0 + d / 3, x.1) && present(x.0 + 2 * (d / 3), x.1) {
        2 * x.2 as nat
    } else {
        0
    }
}

/// Sum of the entry penalties over a kernel's entries.
pub open spec fn penalty_of<E>(s: Seq<(Tick, E, usize)>, d: int, present: spec_fn(int, E) -> bool) -> nat
    decreases s.len(),
{
    if s.len() == 0 {
        0
    } else {
        penalty_of(s.drop_last(), d, present) + entry_penalty(s.last(), d, present)
    }
}

pub proof fn lemma_penalty_le<E>(s: Seq<(Tick, E, usize)>, d: int, present: spec_fn(int, E) -> bool)
    ensures
        penalty_of(s, d, present) <= 2 * total_in(s),
    decreases s.len(),
{
    if s.len() > 0 {
        lemma_penalty_le(s.drop_last(), d, present);
    }
}

/// Forfeited fine-block gain if this family's len-2 pairs are committed.
///
/// A pair `(a, a+d)` nested in a finer block at spacing `d/k` (k in {2,3})
/// yields k when the finer family takes it instead of 1 here, so committing
/// the pair forfeits (k-1). Used only to rank families for arbitration;
/// committed layers keep their full kernels.
pub fn nested_penalty<E: Event>(kernel: &TpPlane<E>, d: Tick, work: &TpPlane<E>) -> (r: usize)
    requires
        kernel.wf(),
        work.wf(),
        forall|t: int, e: E| kernel.count(t, e) > 0 ==> t + d <= u32::MAX,
        penalty_of(kernel.entries(), d as int, |t: int, e: E| work.count(t, e) > 0) <= usize::MAX,
    ensures
        r == penalty_of(kernel.entries(), d as int, |t: int, e: E| work.count(t, e) > 0),
{
    let ghost present = |t: int, e: E| work.count(t, e) > 0;
    let ghost ks = kernel.entries();
    let mut penalty: usize = 0;
    let mut i: usize = 0;
    while i < kernel.len()
        invariant
            ks == kernel.entries(),
            kernel.wf(),
            work.wf(),
            i <= ks.len(),
            present == (|t: int, e: E| work.count(t, e) > 0),
            forall|t: int, e: E| kernel.count(t, e) > 0 ==> t + d <= u32::MAX,
            penalty_of(ks, d as int, present) <= usize::MAX,
            penalty == penalty_of(ks.take(i as int), d as int, present),
        decreases ks.len() - i,
    {
        let (anchor, tone, count) = kernel.entry_at(i);
        proof {
            kernel.lemma_entry_count(i as int);
            assert(ks.take(i + 1).drop_last() =~= ks.take(i as int));
            lemma_penalty_prefix(ks, i + 1, d as int, present);
            assert(anchor + d <= u32::MAX);
        }
        let mut add: usize = 0;
        if d % 2 == 0 && work.get(anchor + d / 2, tone) > 0 {
            add = count;
        } else if d % 3 == 0 && work.get(anchor + d / 3, tone) > 0 && work.get(
            anchor + 2 * (d / 3),
            tone,
        ) > 0 {
            add = 2 * count;
        }
        proof {
            assert(add == entry_penalty(ks[i as int], d as int, present));
        }
        penalty = penalty + add;
        i = i + 1;
    }
    proof {
        assert(ks.take(i as int) =~= ks);
    }
    penalty
}

pub proof fn lemma_penalty_prefix<E>(
    s: Seq<(Tick, E, usize)>,
    k: int,
    d: int,
    present: spec_fn(int, E) -> bool,
)
    requires
        0 <= k <= s.len(),
    ensures
        penalty_of(s.take(k), d, present) <= penalty_of(s, d, present),
    decreases s.len() - k,
{
    if k < s.len() {
        assert(s.take(k + 1).drop_last() =~= s.take(k));
        lemma_penalty_prefix(s, k + 1, d, present);
    } else {
        assert(s.take(k) =~= s);
    }
}

// Layer sequences
//
// ++++++++++++============++++++++++++============++++++++++++============

/// Multiplicity of `(t, e)` in the sum of the layers' expansions.
pub open spec fn layers_expansion<E>(layers: Seq<Layer<E>>, t: int, e: E) -> nat
    decreases layers.len(),
{
    if layers.len() == 0 {
        0
    } else {
        layers_expansion(layers.drop_last(), t, e) + expansion_count(
            layers.last().kernel,
            layers.last().scatter@,
            t,
            e,
        )
    }
}

/// Total reuse of a plan: the sum of its layers' reuse.
pub open spec fn plan_reuse<E>(layers: Seq<Layer<E>>) -> int
    decreases layers.len(),
{
    if layers.len() == 0 {
        0
    } else {
        plan_reuse(layers.drop_last()) + layers.last().spec_reuse()
    }
}

/// Some offset of `l` moves `(a, e)` onto a point that `l`, on top of the
/// earlier layers `prev`, uses up completely.
pub open spec fn layer_used_up<E>(
    source: TpPlane<E>,
    prev: Seq<Layer<E>>,
    l: Layer<E>,
    a: int,
    e: E,
) -> bool {
    exists|i: int|
        #![trigger l.scatter@[i]]
        0 <= i < l.scatter@.len() && expansion_count(l.kernel, l.scatter@, a + l.scatter@[i], e)
            + layers_expansion(prev, a + l.scatter@[i], e) == source.count(a + l.scatter@[i], e)
}

/// Layer `l` is a feasible kernel of what the layers `prev` leave of
/// `source`: its expansion fits in the rest and no further anchor fits.
pub open spec fn layer_fits<E>(source: TpPlane<E>, prev: Seq<Layer<E>>, l: Layer<E>) -> bool {
    &&& l.kernel.wf()
    &&& l.scatter@.contains(0)
    &&& l.scatter@.no_duplicates()
    &&& forall|t: int, e: E|
        #[trigger] expansion_count(l.kernel, l.scatter@, t, e) + layers_expansion(prev, t, e)
            <= source.count(t, e)
    &&& forall|a: int, e: E| #[trigger] layer_used_up(source, prev, l, a, e)
}

/// Each layer is a feasible kernel of what the layers before it leave.
pub open spec fn is_peeling<E>(source: TpPlane<E>, layers: Seq<Layer<E>>) -> bool {
    forall|i: int| 0 <= i < layers.len() ==> #[trigger] layer_fits(source, layers.take(i), layers[i])
}

/// The layer's scatter is the progression `{0, d, ..., (n-1)d}` for its
/// length `n >= 2`, and its kernel is not empty.
pub open spec fn is_ap_layer<E>(l: Layer<E>, d: int) -> bool {
    &&& l.scatter@.len() >= 2
    &&& l.scatter@ == ap(l.scatter@.len(), d)
    &&& l.kernel.total() > 0
}

/// The multiplicities of `p`, as a function.
pub open spec fn plane_counts<E>(p: TpPlane<E>) -> spec_fn(int, E) -> nat {
    |t: int, e: E| p.count(t, e)
}

/// What the layers `prev` leave of `source`.
pub open spec fn left_by<E>(source: TpPlane<E>, prev: Seq<Layer<E>>) -> spec_fn(int, E) -> nat {
    |t: int, e: E| (source.count(t, e) - layers_expansion(prev, t, e)) as nat
}

/// The anchors of event `e` under the multiplicities `cnt`.
pub open spec fn anchors_of<E>(cnt: spec_fn(int, E) -> nat, s: Seq<Tick>, e: E) -> Set<Tick> {
    Set::new(|a: Tick| forall|i: int| #![trigger s[i]] 0 <= i < s.len() ==> cnt(a + s[i], e) > 0)
}

/// The kernel of event `e` that the ranked greedy builds on the
/// multiplicities `cnt` for the offsets `s`.
pub open spec fn greedy_kernel_of<E>(cnt: spec_fn(int, E) -> nat, s: Seq<Tick>, e: E) -> spec_fn(int) -> nat {
    greedy_from(anchors_of(cnt, s, e), anchors_of(cnt, s, e), s, |t: int| cnt(t, e))
}

/// `k` is, event by event, the ranked greedy kernel on `cnt`.
#[verifier::opaque]
pub open spec fn greedy_on<E>(k: TpPlane<E>, s: Seq<Tick>, cnt: spec_fn(int, E) -> nat) -> bool {
    forall|t: int, e: E| #[trigger] k.count(t, e) == greedy_kernel_of(cnt, s, e)(t)
}

/// The ranked greedy finds no anchor worth a multiplicity on `cnt`.
pub open spec fn greedy_empty<E>(cnt: spec_fn(int, E) -> nat, s: Seq<Tick>) -> bool {
    forall|t: int, e: E| #[trigger] greedy_kernel_of(cnt, s, e)(t) == 0
}

/// Each layer's kernel is the ranked greedy kernel of what the layers
/// before it leave.
#[verifier::opaque]
pub open spec fn greedy_peeling<E>(source: TpPlane<E>, layers: Seq<Layer<E>>) -> bool {
    forall|i: int|
        0 <= i < layers.len() ==> #[trigger] greedy_on(layers[i].kernel, layers[i].scatter@, left_by(source, layers.take(i)))
}

/// Every length `m` in `(n, cap]` that no layer has was tried on what the
/// longer layers leave and gave an empty greedy kernel.
#[verifier::opaque]
pub open spec fn deep_skips<E>(source: TpPlane<E>, layers: Seq<Layer<E>>, d: int, cap: int, n: int) -> bool {
    forall|m: int, k: int|
        #![trigger greedy_empty(left_by(source, layers.take(k)), ap(m as nat, d))]
        n < m <= cap && 2 <= m && 0 <= k <= layers.len() && (forall|i: int|
            0 <= i < k ==> (#[trigger] layers[i]).scatter@.len() > m) && (forall|i: int|
            k <= i < layers.len() ==> (#[trigger] layers[i]).scatter@.len() < m) ==> greedy_empty(
            left_by(source, layers.take(k)),
            ap(m as nat, d),
        )
}

/// The greedy kernel on a plane is the greedy kernel on its multiplicities.
pub proof fn lemma_greedy_counts<E>(source: TpPlane<E>, cnt: spec_fn(int, E) -> nat, s: Seq<Tick>, e: E)
    requires
        forall|t: int, e2: E| #[trigger] cnt(t, e2) == source.count(t, e2),
    ensures
        greedy_kernel(source, s, e) == greedy_kernel_of(cnt, s, e),
{
    assert(anchors_of(cnt, s, e) =~= anchor_set(source, s, e));
    assert((|t: int| cnt(t, e)) =~= event_caps(source, e));
}

/// A greedy kernel of a plane whose multiplicities are those of `cnt`.
pub proof fn lemma_greedy_on<E>(k: TpPlane<E>, s: Seq<Tick>, source: TpPlane<E>, cnt: spec_fn(int, E) -> nat)
    requires
        is_greedy_kernel(k, s, source),
        forall|t: int, e2: E| #[trigger] cnt(t, e2) == source.count(t, e2),
    ensures
        greedy_on(k, s, cnt),
{
    reveal(is_greedy_kernel);
    reveal(greedy_on);
    assert forall|t: int, e: E| #[trigger] k.count(t, e) == greedy_kernel_of(cnt, s, e)(t) by {
        lemma_greedy_counts(source, cnt, s, e);
    }
}

pub proof fn lemma_greedy_peeling_push<E>(source: TpPlane<E>, layers: Seq<Layer<E>>, l: Layer<E>)
    requires
        greedy_peeling(source, layers),
        greedy_on(l.kernel, l.scatter@, left_by(source, layers)),
    ensures
        greedy_peeling(source, layers.push(l)),
{
    reveal(greedy_peeling);
    let p = layers.push(l);
    assert forall|i: int| 0 <= i < p.len() implies #[trigger] greedy_on(p[i].kernel, p[i].scatter@, left_by(source, p.take(i))) by {
        if i < layers.len() {
            assert(p.take(i) =~= layers.take(i));
            assert(p[i] == layers[i]);
        } else {
            assert(p.take(i) =~= layers);
        }
    }
}

/// Strictly decreasing lengths in `(n, cap]` number at most `cap - n`.
proof fn lemma_decreasing_lengths<E>(layers: Seq<Layer<E>>, n: int, cap: int)
    requires
        n <= cap,
        forall|i: int| 0 <= i < layers.len() ==> n < (#[trigger] layers[i]).scatter@.len() <= cap,
        forall|i: int, j: int| 0 <= i < j < layers.len() ==> layers[i].scatter@.len() > layers[j].scatter@.len(),
    ensures
        layers.len() <= cap - n,
    decreases layers.len(),
{
    if layers.len() > 0 {
        let last = layers.len() - 1;
        let b = layers[last].scatter@.len() as int;
        let rest = layers.drop_last();
        assert(n < layers[last].scatter@.len() <= cap);
        assert forall|i: int| 0 <= i < rest.len() implies b < (#[trigger] rest[i]).scatter@.len() <= cap by {
            assert(rest[i] == layers[i]);
        }
        assert forall|i: int, j: int| 0 <= i < j < rest.len() implies rest[i].scatter@.len() > rest[j].scatter@.len() by {
            assert(rest[i] == layers[i]);
            assert(rest[j] == layers[j]);
        }
        lemma_decreasing_lengths(rest, b, cap);
    }
}

/// A length skipped with an empty greedy kernel extends the skips.
proof fn lemma_skips_skip<E>(source: TpPlane<E>, layers: Seq<Layer<E>>, d: int, cap: int, n: int)
    requires
        deep_skips(source, layers, d, cap, n),
        forall|i: int| 0 <= i < layers.len() ==> (#[trigger] layers[i]).scatter@.len() > n,
        n >= 2 ==> greedy_empty(left_by(source, layers), ap(n as nat, d)),
    ensures
        deep_skips(source, layers, d, cap, n - 1),
{
    reveal(deep_skips);
    assert forall|m: int, k: int|
        #![trigger greedy_empty(left_by(source, layers.take(k)), ap(m as nat, d))]
        n - 1 < m <= cap && 2 <= m && 0 <= k <= layers.len() && (forall|i: int|
            0 <= i < k ==> (#[trigger] layers[i]).scatter@.len() > m) && (forall|i: int|
            k <= i < layers.len() ==> (#[trigger] layers[i]).scatter@.len() < m) implies greedy_empty(
            left_by(source, layers.take(k)),
            ap(m as nat, d),
        ) by {
        if m == n {
            if k < layers.len() {
                assert(layers[k].scatter@.len() < m);
            }
            assert(layers.take(k) =~= layers);
        }
    }
}

/// A layer of length `n` below the longer ones keeps the skips.
proof fn lemma_skips_push<E>(source: TpPlane<E>, layers: Seq<Layer<E>>, l: Layer<E>, d: int, cap: int, n: int)
    requires
        deep_skips(source, layers, d, cap, n),
        l.scatter@.len() == n,
    ensures
        deep_skips(source, layers.push(l), d, cap, n - 1),
{
    reveal(deep_skips);
    let p = layers.push(l);
    assert forall|m: int, k: int|
        #![trigger greedy_empty(left_by(source, p.take(k)), ap(m as nat, d))]
        n - 1 < m <= cap && 2 <= m && 0 <= k <= p.len() && (forall|i: int|
            0 <= i < k ==> (#[trigger] p[i]).scatter@.len() > m) && (forall|i: int|
            k <= i < p.len() ==> (#[trigger] p[i]).scatter@.len() < m) implies greedy_empty(
            left_by(source, p.take(k)),
            ap(m as nat, d),
        ) by {
        let last = layers.len() as int;
        assert(p[last] == l);
        if k > last {
            assert(p[last].scatter@.len() > m);
        }
        if m == n {
            assert(p[last].scatter@.len() < m);
        }
        assert(k <= last);
        assert(m > n);
        assert(p.take(k) =~= layers.take(k));
        assert forall|i: int| 0 <= i < k implies (#[trigger] layers[i]).scatter@.len() > m by {
            assert(p[i] == layers[i]);
        }
        assert forall|i: int| k <= i < layers.len() implies (#[trigger] layers[i]).scatter@.len() < m by {
            assert(p[i] == layers[i]);
        }
    }
}

/// `budget + 1`, saturating, capped by `max_len`.
pub open spec fn len_cap(max_len: usize, budget: usize) -> int {
    let b = if budget == usize::MAX {
        budget as int
    } else {
        budget + 1
    };
    if (max_len as int) < b {
        max_len as int
    } else {
        b
    }
}

pub proof fn lemma_peeling_push<E>(source: TpPlane<E>, layers: Seq<Layer<E>>, l: Layer<E>)
    requires
        is_peeling(source, layers),
        layer_fits(source, layers, l),
    ensures
        is_peeling(source, layers.push(l)),
{
    let n = layers.push(l);
    assert forall|i: int| 0 <= i < n.len() implies #[trigger] layer_fits(source, n.take(i), n[i]) by {
        if i < layers.len() {
            assert(n.take(i) =~= layers.take(i));
            assert(layer_fits(source, layers.take(i), layers[i]));
        } else {
            assert(n.take(i) =~= layers);
        }
    }
}

/// Committing a feasible kernel of the current work as a layer.
pub proof fn lemma_commit_layer<E>(
    source: TpPlane<E>,
    work: TpPlane<E>,
    prev: Seq<Layer<E>>,
    l: Layer<E>,
    next: TpPlane<E>,
)
    requires
        forall|t: int, e: E| work.count(t, e) + layers_expansion(prev, t, e) == source.count(t, e),
        l.scatter@.no_duplicates(),
        l.scatter@.contains(0),
        is_feasible_kernel(l.kernel, dedup_seq(l.scatter@), work),
        forall|t: int, e: E|
            next.count(t, e) + expansion_count(l.kernel, l.scatter@, t, e) == work.count(t, e),
    ensures
        layer_fits(source, prev, l),
        forall|t: int, e: E|
            next.count(t, e) + layers_expansion(prev.push(l), t, e) == source.count(t, e),
{
    lemma_dedup_props(l.scatter@);
    let s = l.scatter@;
    assert forall|t: int, e: E|
        #[trigger] expansion_count(l.kernel, s, t, e) + layers_expansion(prev, t, e) <= source.count(t, e) by {
        assert(expansion_count(l.kernel, s, t, e) <= work.count(t, e));
    }
    assert forall|a: int, e: E| #[trigger] layer_used_up(source, prev, l, a, e) by {
        assert(used_up(l.kernel, s, work, a, e));
        let i = choose|i: int| #![trigger s[i]] 0 <= i < s.len() && expansion_count(l.kernel, s, a + s[i], e) == work.count(a + s[i], e);
        assert(l.scatter@[i] == s[i]);
    }
    assert forall|t: int, e: E|
        next.count(t, e) + layers_expansion(prev.push(l), t, e) == source.count(t, e) by {
        assert(prev.push(l).drop_last() =~= prev);
    }
}

/// The arithmetic progression `{0, d, ..., (n-1)d}` as offsets.
fn ap_scatter(n: usize, d: Tick) -> (r: Vec<Tick>)
    requires
        n >= 1,
        (n - 1) * d <= u32::MAX,
    ensures
        r@ == ap(n as nat, d as int),
        r@.contains(0),
        d > 0 ==> r@.no_duplicates(),
{
    let mut out: Vec<Tick> = Vec::new();
    let mut i: usize = 0;
    while i < n
        invariant
            i <= n,
            (n - 1) * d <= u32::MAX,
            out@ == ap(n as nat, d as int).take(i as int),
        decreases n - i,
    {
        proof {
            assert(i * d <= (n - 1) * d) by (nonlinear_arith)
                requires
                    i <= n - 1,
            ;
            if d > 0 {
                assert(i <= i * d) by (nonlinear_arith)
                    requires
                        d > 0,
                ;
            }
        }
        let ghost it = i as Tick;
        proof {
            if d == 0 {
                assert(it * d == 0) by (nonlinear_arith)
                    requires
                        d == 0,
                ;
            } else {
                assert(it as int == i as int);
            }
            assert(it * d <= u32::MAX);
        }
        let x = (i as Tick) * d;
        proof {
            if d == 0 {
                assert(((i * d) as Tick) == 0);
            }
            assert(x == ap(n as nat, d as int)[i as int]);
        }
        out.push(x);
        proof {
            assert(out@ =~= ap(n as nat, d as int).take(i + 1));
        }
        i = i + 1;
    }
    proof {
        assert(out@ =~= ap(n as nat, d as int));
        assert(out@[0] == 0);
        if d > 0 {
            assert forall|a: int, b: int| 0 <= a < out@.len() && 0 <= b < out@.len() && a != b implies out@[a]
                != out@[b] by {
                assert(a * d != b * d) by (nonlinear_arith)
                    requires
                        a != b,
                        d > 0,
                ;
                assert(a * d <= (n - 1) * d) by (nonlinear_arith)
                    requires
                        a <= n - 1,
                        d > 0,
                ;
                assert(b * d <= (n - 1) * d) by (nonlinear_arith)
                    requires
                        b <= n - 1,
                        d > 0,
                ;
            }
        }
    }
    out
}

pub proof fn lemma_expansion_positive<E>(k: TpPlane<E>, s: Seq<Tick>, t: int, e: E)
    requires
        expansion_count(k, s, t, e) > 0,
    ensures
        k.total() > 0,
    decreases s.len(),
{
    if s.len() > 0 {
        if k.count(t - s.last(), e) > 0 {
            k.lemma_count_le_total(t - s.last(), e);
        } else {
            lemma_expansion_positive(k, s.drop_last(), t, e);
        }
    }
}

/// The AP scatter of length `n` at spacing `d`, the feasible kernel of
/// `work` for it, and that kernel's expansion.
fn ap_candidate<E: Event>(work: &TpPlane<E>, n: usize, d: Tick) -> (r: (Vec<Tick>, TpPlane<E>, TpPlane<E>))
    requires
        work.wf(),
        work.total() <= usize::MAX,
        n >= 2,
        d > 0 || work.total() == 0,
        (n - 1) * d <= u32::MAX,
        forall|t: int, e: E| work.count(t, e) > 0 ==> t + (n - 1) * d <= u32::MAX,
    ensures
        r.0@ == ap(n as nat, d as int),
        r.0@.contains(0),
        d > 0 ==> r.0@.no_duplicates(),
        d > 0 ==> dedup_seq(r.0@) == r.0@,
        is_feasible_kernel(r.1, dedup_seq(r.0@), *work),
        plane_le(r.1, *work),
        r.1.total() * n <= work.total(),
        r.2.wf(),
        plane_le(r.2, *work),
        r.2.total() == r.1.total() * n,
        forall|t: int, e: E| r.2.count(t, e) == expansion_count(r.1, r.0@, t, e),
        forall|t: int, e: E| r.1.count(t, e) > 0 ==> t + d <= u32::MAX,
        d == 0 ==> r.1.total() == 0,
{
    proof {
        assert forall|t: int, e: E, i: int|
            work.count(t, e) > 0 && 0 <= i < ap(n as nat, d as int).len() implies t + ap(
                n as nat,
                d as int,
            )[i] <= u32::MAX by {
            assert(i * d <= (n - 1) * d) by (nonlinear_arith)
                requires
                    i <= n - 1,
            ;
        }
    }
    let scatter = ap_scatter(n, d);
    let kernel = feasible_kernel(work, scatter.as_slice());
    proof {
        lemma_dedup_props(scatter@);
        if d > 0 {
            assert(dedup_seq(scatter@) == scatter@);
        } else {
            assert(kernel.total() == 0);
            kernel.lemma_total_zero();
            assert forall|t: int, e: E| kernel.count(t, e) == 0 by {
                kernel.lemma_count_le_total(t, e);
            }
        }
        assert((n - 1) * d >= d) by (nonlinear_arith)
            requires
                n >= 2,
        ;
        assert forall|t: int, e: E, i: int|
            kernel.count(t, e) > 0 && 0 <= i < scatter@.len() implies t + scatter@[i] <= u32::MAX by {
            assert(work.count(t, e) > 0);
        }
        assert forall|t: int, e: E| kernel.count(t, e) > 0 implies t + d <= u32::MAX by {
            assert(work.count(t, e) > 0);
        }
        assert forall|t: int, e: E| expansion_count(kernel, scatter@, t, e) <= usize::MAX by {
            if d > 0 {
                work.lemma_count_bounded(t, e);
            } else {
                lemma_expansion_zero(kernel, scatter@, t, e);
            }
        }
    }
    let expansion = expand(&kernel, scatter.as_slice());
    proof {
        if d > 0 {
            assert(plane_le(expansion, *work));
            expansion.lemma_total_mono(*work);
        } else {
            assert(expansion.total() == 0) by (nonlinear_arith)
                requires
                    expansion.total() == kernel.total() * n,
                    kernel.total() == 0,
            ;
            assert forall|t: int, e: E| expansion.count(t, e) <= work.count(t, e) by {
                expansion.lemma_count_le_total(t, e);
            }
        }
    }
    (scatter, kernel, expansion)
}

/// A feasible pair kernel at spacing `d` is not empty where the plane holds
/// an event at `t` and at `t + d`.
pub proof fn lemma_pair_kernel_nonempty<E>(k: TpPlane<E>, s: Seq<Tick>, work: TpPlane<E>, d: int, t: int, e: E)
    requires
        is_feasible_kernel(k, s, work),
        s.len() == 2,
        s[0] == 0,
        s[1] == d,
        work.count(t, e) > 0,
        work.count(t + d, e) > 0,
    ensures
        k.total() > 0,
{
    assert(used_up(k, s, work, t, e));
    let i = choose|i: int|
        #![trigger s[i]]
        0 <= i < s.len() && expansion_count(k, s, t + s[i], e) == work.count(t + s[i], e);
    assert(i == 0 || i == 1);
    lemma_expansion_positive(k, s, t + s[i], e);
}

/// Where the pair kernel of the untouched source is empty, no event occurs
/// at both `t` and `t + d`.
proof fn lemma_no_pair<E>(source: TpPlane<E>, work: TpPlane<E>, k: TpPlane<E>, s: Seq<Tick>, d: Tick)
    requires
        forall|t: int, e: E| work.count(t, e) + layers_expansion(Seq::<Layer<E>>::empty(), t, e)
            == source.count(t, e),
        d > 0 || source.total() == 0,
        s == ap(2, d as int),
        d > 0 ==> dedup_seq(s) == s,
        is_feasible_kernel(k, dedup_seq(s), work),
        k.total() == 0,
    ensures
        !(exists|t: int, e: E| source.count(t, e) > 0 && #[trigger] source.count(t + d, e) > 0),
{
    if exists|t: int, e: E| source.count(t, e) > 0 && #[trigger] source.count(t + d, e) > 0 {
        let (t, e) = choose|t: int, e: E| source.count(t, e) > 0 && #[trigger] source.count(t + d, e) > 0;
        assert(layers_expansion(Seq::<Layer<E>>::empty(), t, e) == 0);
        assert(layers_expansion(Seq::<Layer<E>>::empty(), t + d, e) == 0);
        source.lemma_count_le_total(t, e);
        assert(s[0] == 0);
        assert(s[1] == d);
        lemma_pair_kernel_nonempty(k, s, work, d as int, t, e);
    }
}

/// Pushing an AP layer of length `n` behind AP layers that are all longer.
pub proof fn lemma_push_shorter<E>(prev: Seq<Layer<E>>, l: Layer<E>, d: int, n: int, cap: int)
    requires
        forall|i: int| #![trigger prev[i]]
            0 <= i < prev.len() ==> (is_ap_layer(prev[i], d) && prev[i].scatter@.len() <= cap
                && prev[i].scatter@.len() > n),
        forall|i: int, j: int| 0 <= i < j < prev.len() ==> prev[i].scatter@.len() > prev[j].scatter@.len(),
        is_ap_layer(l, d),
        l.scatter@.len() == n,
        n <= cap,
    ensures
        forall|i: int| #![trigger prev.push(l)[i]]
            0 <= i < prev.push(l).len() ==> (is_ap_layer(prev.push(l)[i], d)
                && prev.push(l)[i].scatter@.len() <= cap && prev.push(l)[i].scatter@.len() > n - 1),
        forall|i: int, j: int|
            0 <= i < j < prev.push(l).len() ==> prev.push(l)[i].scatter@.len() > prev.push(
                l,
            )[j].scatter@.len(),
{
    let p = prev.push(l);
    assert forall|i: int| #![trigger p[i]] 0 <= i < p.len() implies (is_ap_layer(p[i], d) && p[i].scatter@.len()
        <= cap && p[i].scatter@.len() > n - 1) by {
        if i < prev.len() {
            assert(p[i] == prev[i]);
        }
    }
    assert forall|i: int, j: int| 0 <= i < j < p.len() implies p[i].scatter@.len() > p[j].scatter@.len() by {
        assert(p[i] == prev[i]);
        assert(is_ap_layer(prev[i], d));
        if j < prev.len() {
            assert(p[j] == prev[j]);
        }
    }
}

/// The state of the deep-first loop of [`family_deep_first`]: `work` is
/// what the AP layers (all longer than `n`, none longer than `cap`, lengths
/// decreasing) leave of `source`.
#[verifier::opaque]
spec fn deep_first_state<E>(
    source: TpPlane<E>,
    layers: Seq<Layer<E>>,
    work: TpPlane<E>,
    d: int,
    cap: int,
    n: int,
) -> bool {
    &&& forall|t: int, e: E| work.count(t, e) + layers_expansion(layers, t, e) == source.count(t, e)
    &&& is_peeling(source, layers)
    &&& forall|i: int|
        #![trigger layers[i]]
        0 <= i < layers.len() ==> (is_ap_layer(layers[i], d) && layers[i].scatter@.len() <= cap
            && layers[i].scatter@.len() > n)
    &&& forall|i: int, j: int|
        0 <= i < j < layers.len() ==> layers[i].scatter@.len() > layers[j].scatter@.len()
}

proof fn lemma_state_init<E>(source: TpPlane<E>, work: TpPlane<E>, d: int, cap: int)
    requires
        forall|t: int, e: E| work.count(t, e) == source.count(t, e),
    ensures
        deep_first_state(source, Seq::empty(), work, d, cap, cap),
{
    reveal(deep_first_state);
}

proof fn lemma_state_work<E>(source: TpPlane<E>, layers: Seq<Layer<E>>, work: TpPlane<E>, d: int, cap: int, n: int)
    requires
        deep_first_state(source, layers, work, d, cap, n),
    ensures
        forall|t: int, e: E| work.count(t, e) + layers_expansion(layers, t, e) == source.count(t, e),
{
    reveal(deep_first_state);
}

proof fn lemma_state_skip<E>(source: TpPlane<E>, layers: Seq<Layer<E>>, work: TpPlane<E>, d: int, cap: int, n: int)
    requires
        deep_first_state(source, layers, work, d, cap, n),
    ensures
        deep_first_state(source, layers, work, d, cap, n - 1),
{
    reveal(deep_first_state);
}

proof fn lemma_state_out<E>(source: TpPlane<E>, layers: Seq<Layer<E>>, work: TpPlane<E>, d: int, cap: int, n: int)
    requires
        deep_first_state(source, layers, work, d, cap, n),
    ensures
        is_peeling(source, layers),
        forall|i: int|
            #![trigger layers[i]]
            0 <= i < layers.len() ==> (is_ap_layer(layers[i], d) && layers[i].scatter@.len() <= cap),
        forall|i: int, j: int|
            0 <= i < j < layers.len() ==> layers[i].scatter@.len() > layers[j].scatter@.len(),
{
    reveal(deep_first_state);
}

/// Committing the feasible kernel of the AP scatter of length `n` as a
/// layer keeps the loop state, one length shorter.
proof fn lemma_state_push<E>(
    source: TpPlane<E>,
    layers: Seq<Layer<E>>,
    work: TpPlane<E>,
    l: Layer<E>,
    next: TpPlane<E>,
    d: int,
    cap: int,
    n: int,
)
    requires
        deep_first_state(source, layers, work, d, cap, n),
        n <= cap,
        l.scatter@.len() == n,
        is_ap_layer(l, d),
        l.scatter@.no_duplicates(),
        l.scatter@.contains(0),
        is_feasible_kernel(l.kernel, dedup_seq(l.scatter@), work),
        forall|t: int, e: E|
            next.count(t, e) + expansion_count(l.kernel, l.scatter@, t, e) == work.count(t, e),
    ensures
        deep_first_state(source, layers.push(l), next, d, cap, n - 1),
        (|t: int, e: E| work.count(t, e) > 0) == (|t: int, e: E|
            layers_expansion(layers.push(l).drop_last(), t, e) < source.count(t, e)),
{
    reveal(deep_first_state);
    lemma_commit_layer(source, work, layers, l, next);
    lemma_peeling_push(source, layers, l);
    lemma_push_shorter(layers, l, d, n, cap);
    assert(layers.push(l).drop_last() =~= layers);
    assert((|t: int, e: E| work.count(t, e) > 0) =~= (|t: int, e: E|
        layers_expansion(layers.push(l).drop_last(), t, e) < source.count(t, e)));
}

/// Deep-first (len decreasing) layers of the AP family at spacing `d`.
///
/// Returns `(total_reuse, layers, nested_penalty)` where the layers' lengths
/// decrease (4, 3, 2 for `max_len` 4) and each entry is a [`Layer`]. The
/// penalty estimates forfeited fine-block gain on the family's len-2 pairs
/// and is used only for family arbitration.
pub fn family_deep_first<E: Event>(
    source: &TpPlane<E>,
    d: Tick,
    max_len: usize,
    budget: usize,
) -> (r: (usize, Vec<Layer<E>>, usize))
    requires
        source.wf(),
        source.total() <= usize::MAX,
        d > 0 || source.total() == 0,
        len_cap(max_len, budget) >= 2 ==> (len_cap(max_len, budget) - 1) * d <= u32::MAX,
        forall|t: int, e: E|
            source.count(t, e) > 0 ==> t + (len_cap(max_len, budget) - 1) * d <= u32::MAX,
    ensures
        r.1@.len() <= budget,
        is_peeling(*source, r.1@),
        forall|i: int|
            #![trigger r.1@[i]]
            0 <= i < r.1@.len() ==> (is_ap_layer(r.1@[i], d as int) && r.1@[i].scatter@.len()
                <= len_cap(max_len, budget)),
        forall|i: int, j: int|
            0 <= i < j < r.1@.len() ==> r.1@[i].scatter@.len() > r.1@[j].scatter@.len(),
        r.0 == plan_reuse(r.1@),
        r.2 == (if r.1@.len() > 0 && r.1@.last().scatter@.len() == 2 {
            penalty_of(
                r.1@.last().kernel.entries(),
                d as int,
                |t: int, e: E| layers_expansion(r.1@.drop_last(), t, e) < source.count(t, e),
            )
        } else {
            0
        }),
        budget >= 1 && max_len >= 2 && (exists|t: int, e: E|
            source.count(t, e) > 0 && #[trigger] source.count(t + d, e) > 0) ==> r.1@.len() > 0,
        greedy_peeling(*source, r.1@),
        d > 0 ==> deep_skips(*source, r.1@, d as int, len_cap(max_len, budget), 1),
{
    let ghost cap = len_cap(max_len, budget);
    let ghost pair = exists|t: int, e: E| source.count(t, e) > 0 && #[trigger] source.count(t + d, e) > 0;
    let mut total: usize = 0;
    let mut layers: Vec<Layer<E>> = Vec::new();
    let mut work = source.duplicate_plane();
    let mut penalty: usize = 0;
    let b1 = budget.saturating_add(1);
    let mut n: usize = if max_len < b1 {
        max_len
    } else {
        b1
    };
    let ghost mut consumed: nat = 0;
    proof {
        assert(n == cap);
        lemma_state_init(*source, work, d as int, cap);
        reveal(greedy_peeling);
        reveal(deep_skips);
    }
    while n >= 2
        invariant
            source.wf(),
            source.total() <= usize::MAX,
            d > 0 || source.total() == 0,
            cap == len_cap(max_len, budget),
            pair == (exists|t: int, e: E| source.count(t, e) > 0 && #[trigger] source.count(t + d, e) > 0),
            cap >= 2 ==> (cap - 1) * d <= u32::MAX,
            forall|t: int, e: E| source.count(t, e) > 0 ==> t + (cap - 1) * d <= u32::MAX,
            n <= cap,
            work.wf(),
            deep_first_state(*source, layers@, work, d as int, cap, n as int),
            work.total() + consumed == source.total(),
            total <= consumed,
            total == plan_reuse(layers@),
            layers@.len() <= budget,
            n >= 2 ==> penalty == 0,
            penalty == (if layers@.len() > 0 && layers@.last().scatter@.len() == 2 {
                penalty_of(
                    layers@.last().kernel.entries(),
                    d as int,
                    |t: int, e: E| layers_expansion(layers@.drop_last(), t, e) < source.count(t, e),
                )
            } else {
                0
            }),
            budget >= 1 && max_len >= 2 ==> n >= 1,
            budget >= 1 && max_len >= 2 && n == 1 && pair ==> layers@.len() > 0,
            greedy_peeling(*source, layers@),
            d > 0 ==> deep_skips(*source, layers@, d as int, cap, n as int),
        ensures
            n < 2,
            deep_first_state(*source, layers@, work, d as int, cap, n as int),
            greedy_peeling(*source, layers@),
            d > 0 ==> deep_skips(*source, layers@, d as int, cap, n as int),
        decreases n,
    {
        if layers.len() >= budget {
            proof {
                reveal(deep_first_state);
                lemma_decreasing_lengths(layers@, n as int, cap);
            }
            break;
        }
        proof {
            lemma_state_work(*source, layers@, work, d as int, cap, n as int);
            assert((n - 1) * d <= (cap - 1) * d) by (nonlinear_arith)
                requires
                    n <= cap,
            ;
            assert forall|t: int, e: E| work.count(t, e) > 0 implies t + (n - 1) * d <= u32::MAX by {
                assert(source.count(t, e) > 0);
            }
            if d == 0 {
                assert(work.total() == 0);
            }
        }
        let (scatter, kernel, expansion) = ap_candidate(&work, n, d);
        proof {
            assert(kernel.total() <= kernel.total() * n) by (nonlinear_arith)
                requires
                    n >= 2,
            ;
            assert(kernel.total() * (n - 1) <= kernel.total() * n) by (nonlinear_arith);
        }
        if n == 2 {
            proof {
                lemma_penalty_le(kernel.entries(), d as int, |t: int, e: E| work.count(t, e) > 0);
                assert(kernel.total() * n == 2 * kernel.total()) by (nonlinear_arith)
                    requires
                        n == 2,
                ;
            }
            penalty = nested_penalty(&kernel, d, &work);
        }
        let gain = kernel.values_sum() * (n - 1);
        if gain == 0 {
            proof {
                assert(kernel.total() == 0) by (nonlinear_arith)
                    requires
                        gain == kernel.total() * (n - 1),
                        gain == 0,
                        n >= 2,
                ;
                kernel.lemma_total_zero();
                if n == 2 {
                    assert(kernel.entries() =~= Seq::<(Tick, E, usize)>::empty());
                    if layers@.len() == 0 {
                        lemma_no_pair(*source, work, kernel, scatter@, d);
                    }
                }
                if d > 0 {
                    lemma_state_work(*source, layers@, work, d as int, cap, n as int);
                    lemma_greedy_on(kernel, scatter@, work, left_by(*source, layers@));
                    reveal(greedy_on);
                    assert forall|t: int, e: E| #[trigger] greedy_kernel_of(left_by(*source, layers@), ap(n as nat, d as int), e)(t) == 0 by {
                        assert(kernel.count(t, e) == greedy_kernel_of(left_by(*source, layers@), scatter@, e)(t));
                        if kernel.count(t, e) > 0 {
                            kernel.lemma_present(t, e);
                        }
                    }
                    assert(forall|i: int| 0 <= i < layers@.len() ==> (#[trigger] layers@[i]).scatter@.len() > n) by {
                        reveal(deep_first_state);
                    }
                    lemma_skips_skip(*source, layers@, d as int, cap, n as int);
                }
                lemma_state_skip(*source, layers@, work, d as int, cap, n as int);
            }
            n = n - 1;
            continue;
        }
        proof {
            assert(kernel.total() > 0) by (nonlinear_arith)
                requires
                    gain == kernel.total() * (n - 1),
                    gain > 0,
            ;
        }
        total = total + gain;
        let ghost prev = layers@;
        let ghost old_work = work;
        let layer = Layer { scatter, kernel };
        let next = subtract_exact(&work, &expansion);
        proof {
            if d == 0 {
                assert(kernel.total() * n <= 0);
                assert(kernel.total() == 0) by (nonlinear_arith)
                    requires
                        kernel.total() * n <= 0,
                        n >= 2,
                ;
            }
            lemma_state_work(*source, prev, old_work, d as int, cap, n as int);
            lemma_greedy_on(kernel, scatter@, old_work, left_by(*source, prev));
            lemma_greedy_peeling_push(*source, prev, layer);
            if d > 0 {
                lemma_skips_push(*source, prev, layer, d as int, cap, n as int);
            }
            lemma_state_push(*source, prev, old_work, layer, next, d as int, cap, n as int);
            consumed = consumed + expansion.total();
        }
        layers.push(layer);
        work = next;
        proof {
            assert(layers@ == prev.push(layer));
            assert(layers@.drop_last() =~= prev);
            assert(layer.spec_reuse() == kernel.total() * (n - 1));
        }
        n = n - 1;
    }
    proof {
        lemma_state_out(*source, layers@, work, d as int, cap, n as int);
        if d > 0 {
            reveal(deep_skips);
        }
    }
    (total, layers, penalty)
}

// Reuse flow
//
// ++++++++++++============++++++++++++============++++++++++++============

/// No event of the plane occurs at two different ticks: no positive offset
/// has any support, so no layer can be formed.
pub open spec fn no_pair<E>(m: TpPlane<E>) -> bool {
    forall|t: int, u: int, e: E| #[trigger] m.count(t, e) > 0 && #[trigger] m.count(u, e) > 0 ==> t == u
}

/// Every point, shifted by `max_len - 1` times any distance between two
/// points of one event, stays within the tick range: the progressions that
/// the flow may try at any offset it can observe fit in a tick.
pub open spec fn ticks_fit<E>(m: TpPlane<E>, max_len: int) -> bool {
    forall|t: int, e: E, u: int, v: int, f: E|
        #[trigger] m.count(t, e) > 0 && #[trigger] m.count(u, f) > 0 && #[trigger] m.count(v, f) > 0
            && u < v ==> t + (max_len - 1) * (v - u) <= u32::MAX
}

/// The layer is an AP layer `{0, d, ..., (n-1)d}` with `d > 0` (its second
/// offset) and `2 <= n <= max_len`.
pub open spec fn ap_family_layer<E>(l: Layer<E>, max_len: int) -> bool {
    &&& l.scatter@.len() >= 2
    &&& l.scatter@.len() <= max_len
    &&& l.scatter@[1] > 0
    &&& is_ap_layer(l, l.scatter@[1] as int)
}

pub proof fn lemma_overlap_witness<E>(m: TpPlane<E>, s: Seq<(Tick, E, usize)>, d: int)
    requires
        overlap_in(m, s, d) > 0,
    ensures
        exists|k: int| 0 <= k < s.len() && s[k].2 > 0 && #[trigger] m.count(s[k].0 + d, s[k].1) > 0,
    decreases s.len(),
{
    let l = s.len() - 1;
    if min_nat(s.last().2 as nat, m.count(s.last().0 + d, s.last().1)) > 0 {
        assert(s[l] == s.last());
        assert(m.count(s[l].0 + d, s[l].1) > 0);
    } else {
        lemma_overlap_witness(m, s.drop_last(), d);
        let k = choose|k: int|
            0 <= k < s.drop_last().len() && s.drop_last()[k].2 > 0 && #[trigger] m.count(
                s.drop_last()[k].0 + d,
                s.drop_last()[k].1,
            ) > 0;
        assert(s[k] == s.drop_last()[k]);
    }
}

pub proof fn lemma_overlap_ge_entry<E>(m: TpPlane<E>, s: Seq<(Tick, E, usize)>, k: int, d: int)
    requires
        0 <= k < s.len(),
    ensures
        overlap_in(m, s, d) >= min_nat(s[k].2 as nat, m.count(s[k].0 + d, s[k].1)),
    decreases s.len(),
{
    if k < s.len() - 1 {
        assert(s.drop_last()[k] == s[k]);
        lemma_overlap_ge_entry(m, s.drop_last(), k, d);
    }
}

/// A positive support at `d` shows two points of one event `d` apart.
pub proof fn lemma_support_witness<E>(m: TpPlane<E>, d: int)
    requires
        m.wf(),
        support(m, d) > 0,
    ensures
        exists|t: int, e: E| m.count(t, e) > 0 && #[trigger] m.count(t + d, e) > 0,
{
    let s = m.entries();
    lemma_overlap_witness(m, s, d);
    let k = choose|k: int| 0 <= k < s.len() && s[k].2 > 0 && #[trigger] m.count(s[k].0 + d, s[k].1) > 0;
    m.lemma_entry_count(k);
    assert(m.count(s[k].0 as int, s[k].1) > 0);
}

/// Two points of one event `d > 0` apart give `d` a positive support.
pub proof fn lemma_pair_support<E>(m: TpPlane<E>, t: int, u: int, e: E)
    requires
        m.wf(),
        m.count(t, e) > 0,
        m.count(u, e) > 0,
        t < u,
    ensures
        support(m, u - t) > 0,
{
    m.lemma_present(t, e);
    let s = m.entries();
    let k = choose|k: int| 0 <= k < s.len() && s[k].0 as int == t && s[k].1 == e;
    m.lemma_entry_count(k);
    lemma_overlap_ge_entry(m, s, k, u - t);
}

/// Layers' expansions add up over a concatenation.
pub proof fn lemma_layers_expansion_concat<E>(a: Seq<Layer<E>>, b: Seq<Layer<E>>, t: int, e: E)
    ensures
        layers_expansion(a + b, t, e) == layers_expansion(a, t, e) + layers_expansion(b, t, e),
    decreases b.len(),
{
    if b.len() > 0 {
        assert((a + b).drop_last() =~= a + b.drop_last());
        assert((a + b).last() == b.last());
        lemma_layers_expansion_concat(a, b.drop_last(), t, e);
    } else {
        assert(a + b =~= a);
    }
}

/// Plan reuse adds up over a concatenation.
pub proof fn lemma_plan_reuse_concat<E>(a: Seq<Layer<E>>, b: Seq<Layer<E>>)
    ensures
        plan_reuse(a + b) == plan_reuse(a) + plan_reuse(b),
    decreases b.len(),
{
    if b.len() > 0 {
        assert((a + b).drop_last() =~= a + b.drop_last());
        assert((a + b).last() == b.last());
        lemma_plan_reuse_concat(a, b.drop_last());
    } else {
        assert(a + b =~= a);
    }
}

/// A plan of AP layers with non-empty kernels has positive reuse when it is
/// not empty.
pub proof fn lemma_plan_reuse_positive<E>(layers: Seq<Layer<E>>, d: int)
    requires
        forall|i: int| #![trigger layers[i]] 0 <= i < layers.len() ==> is_ap_layer(layers[i], d),
    ensures
        plan_reuse(layers) >= 0,
        layers.len() > 0 ==> plan_reuse(layers) > 0,
    decreases layers.len(),
{
    if layers.len() > 0 {
        let l = layers.last();
        assert(layers[layers.len() - 1] == l);
        assert(is_ap_layer(l, d));
        assert(l.kernel.total() * (l.scatter@.len() - 1) > 0) by (nonlinear_arith)
            requires
                l.kernel.total() > 0,
                l.scatter@.len() >= 2,
        ;
        assert forall|i: int| #![trigger layers.drop_last()[i]] 0 <= i < layers.drop_last().len() implies is_ap_layer(layers.drop_last()[i], d) by {
            assert(layers.drop_last()[i] == layers[i]);
        }
        lemma_plan_reuse_positive(layers.drop_last(), d);
    }
}

/// A layer fitting what `prev` leaves of `rest`, where `rest` is what `base`
/// leaves of `source`, fits what `base + prev` leaves of `source`.
pub proof fn lemma_fits_rebase<E>(
    source: TpPlane<E>,
    rest: TpPlane<E>,
    base: Seq<Layer<E>>,
    prev: Seq<Layer<E>>,
    l: Layer<E>,
)
    requires
        forall|t: int, e: E| rest.count(t, e) + layers_expansion(base, t, e) == source.count(t, e),
        layer_fits(rest, prev, l),
    ensures
        layer_fits(source, base + prev, l),
{
    assert forall|t: int, e: E|
        #[trigger] expansion_count(l.kernel, l.scatter@, t, e) + layers_expansion(base + prev, t, e)
            <= source.count(t, e) by {
        lemma_layers_expansion_concat(base, prev, t, e);
        assert(expansion_count(l.kernel, l.scatter@, t, e) + layers_expansion(prev, t, e) <= rest.count(t, e));
    }
    assert forall|a: int, e: E| #[trigger] layer_used_up(source, base + prev, l, a, e) by {
        assert(layer_used_up(rest, prev, l, a, e));
        let i = choose|i: int|
            #![trigger l.scatter@[i]]
            0 <= i < l.scatter@.len() && expansion_count(l.kernel, l.scatter@, a + l.scatter@[i], e)
                + layers_expansion(prev, a + l.scatter@[i], e) == rest.count(a + l.scatter@[i], e);
        lemma_layers_expansion_concat(base, prev, a + l.scatter@[i], e);
    }
}

/// Peeling `x` off what `base` leaves of `source` continues the peeling of
/// `source` by `base`.
pub proof fn lemma_peeling_concat<E>(source: TpPlane<E>, rest: TpPlane<E>, base: Seq<Layer<E>>, x: Seq<Layer<E>>)
    requires
        forall|t: int, e: E| rest.count(t, e) + layers_expansion(base, t, e) == source.count(t, e),
        is_peeling(source, base),
        is_peeling(rest, x),
    ensures
        is_peeling(source, base + x),
{
    let p = base + x;
    assert forall|i: int| 0 <= i < p.len() implies #[trigger] layer_fits(source, p.take(i), p[i]) by {
        if i < base.len() {
            assert(p.take(i) =~= base.take(i));
            assert(p[i] == base[i]);
            assert(layer_fits(source, base.take(i), base[i]));
        } else {
            let j = i - base.len();
            assert(p.take(i) =~= base + x.take(j));
            assert(p[i] == x[j]);
            assert(layer_fits(rest, x.take(j), x[j]));
            lemma_fits_rebase(source, rest, base, x.take(j), x[j]);
        }
    }
}

/// A fitting layer's shifts stay in the tick range and its expansion counts
/// are bounded by the source.
pub proof fn lemma_fits_bounds<E>(source: TpPlane<E>, prev: Seq<Layer<E>>, l: Layer<E>)
    requires
        source.wf(),
        layer_fits(source, prev, l),
    ensures
        shifts_fit(l.kernel, l.scatter@),
        forall|t: int, e: E| expansion_count(l.kernel, l.scatter@, t, e) <= source.count(t, e),
        forall|t: int, e: E| expansion_count(l.kernel, l.scatter@, t, e) <= usize::MAX,
{
    assert forall|t: int, e: E| expansion_count(l.kernel, l.scatter@, t, e) <= source.count(t, e) by {
        assert(expansion_count(l.kernel, l.scatter@, t, e) + layers_expansion(prev, t, e) <= source.count(t, e));
    }
    assert forall|t: int, e: E| expansion_count(l.kernel, l.scatter@, t, e) <= usize::MAX by {
        source.lemma_count_bounded(t, e);
    }
    assert forall|t: int, e: E, i: int|
        l.kernel.count(t, e) > 0 && 0 <= i < l.scatter@.len() implies t + l.scatter@[i] <= u32::MAX by {
        let s = l.scatter@;
        let x = t + s[i];
        assert(l.kernel.count(x - s[i], e) > 0);
        lemma_expansion_shift_ge(l.kernel, s, i, x, e);
        assert(source.count(x, e) > 0);
        source.lemma_present(x, e);
    }
}

/// Each offset contributes its shifted kernel to the expansion.
pub proof fn lemma_expansion_shift_ge<E>(k: TpPlane<E>, s: Seq<Tick>, i: int, t: int, e: E)
    requires
        0 <= i < s.len(),
    ensures
        k.count(t - s[i], e) <= expansion_count(k, s, t, e),
    decreases s.len(),
{
    if i < s.len() - 1 {
        assert(s.drop_last()[i] == s[i]);
        lemma_expansion_shift_ge(k, s.drop_last(), i, t, e);
    }
}

/// Where every point of `a` is a point of `b`, `ticks_fit` carries over.
pub proof fn lemma_ticks_fit_sub<E>(a: TpPlane<E>, b: TpPlane<E>, max_len: int)
    requires
        ticks_fit(b, max_len),
        forall|t: int, e: E| a.count(t, e) <= b.count(t, e),
    ensures
        ticks_fit(a, max_len),
{
    assert forall|t: int, e: E, u: int, v: int, f: E|
        #[trigger] a.count(t, e) > 0 && #[trigger] a.count(u, f) > 0 && #[trigger] a.count(v, f) > 0 && u
            < v implies t + (max_len - 1) * (v - u) <= u32::MAX by {
        assert(b.count(t, e) > 0 && b.count(u, f) > 0 && b.count(v, f) > 0);
    }
}

/// The largest multiplicity of a non-empty plane.
fn max_count(p: &TpPlane<()>) -> (r: usize)
    requires
        p.wf(),
        p.entries().len() > 0,
    ensures
        forall|k: int| 0 <= k < p.entries().len() ==> p.entries()[k].2 <= r,
        exists|k: int| 0 <= k < p.entries().len() && p.entries()[k].2 == r,
{
    let (_d0, _u0, first) = p.entry_at(0);
    let mut best: usize = first;
    let mut k: usize = 1;
    while k < p.len()
        invariant
            1 <= k <= p.entries().len(),
            forall|q: int| 0 <= q < k ==> p.entries()[q].2 <= best,
            exists|q: int| 0 <= q < k && p.entries()[q].2 == best,
        decreases p.entries().len() - k,
    {
        let (_d, _u, v) = p.entry_at(k);
        if v > best {
            best = v;
        }
        k = k + 1;
    }
    best
}

/// The longest scatter among the layers (0 for none).
fn deepest_len<E>(layers: &Vec<Layer<E>>) -> (r: usize)
    ensures
        forall|i: int| 0 <= i < layers@.len() ==> layers@[i].scatter@.len() <= r,
        layers@.len() > 0 ==> exists|i: int| 0 <= i < layers@.len() && layers@[i].scatter@.len() == r,
        layers@.len() == 0 ==> r == 0,
{
    let mut best: usize = 0;
    let mut i: usize = 0;
    while i < layers.len()
        invariant
            i <= layers@.len(),
            forall|q: int| 0 <= q < i ==> layers@[q].scatter@.len() <= best,
            i > 0 ==> exists|q: int| 0 <= q < i && layers@[q].scatter@.len() == best,
            i == 0 ==> best == 0,
        decreases layers@.len() - i,
    {
        let len = layers[i].scatter.len();
        if i == 0 || len > best {
            best = len;
        }
        i = i + 1;
    }
    best
}

/// The arbitration order of families: higher score (`total - penalty`)
/// first, then the deeper longest layer, then the smaller spacing.
pub open spec fn family_key_gt(
    total: int,
    pen: int,
    deep: int,
    d: int,
    best_total: int,
    best_pen: int,
    best_deep: int,
    best_d: int,
) -> bool {
    let score = total - pen;
    let best_score = best_total - best_pen;
    score > best_score || (score == best_score && (deep > best_deep || (deep == best_deep && d
        < best_d)))
}

fn key_beats(
    total: usize,
    pen: usize,
    deep: usize,
    d: Tick,
    best_total: usize,
    best_pen: usize,
    best_deep: usize,
    best_d: Tick,
) -> (r: bool)
    ensures
        r == family_key_gt(
            total as int,
            pen as int,
            deep as int,
            d as int,
            best_total as int,
            best_pen as int,
            best_deep as int,
            best_d as int,
        ),
{
    let lhs = total as u128 + best_pen as u128;
    let rhs = best_total as u128 + pen as u128;
    if lhs != rhs {
        lhs > rhs
    } else if deep != best_deep {
        deep > best_deep
    } else {
        d < best_d
    }
}

/// What [`family_deep_first`] promises of the layers of spacing `d` on
/// `residual` within `budget` layers, with their reuse `total` and nested
/// penalty `pen`.
pub open spec fn deep_first_flow<E>(
    residual: TpPlane<E>,
    d: int,
    max_len: usize,
    budget: usize,
    total: int,
    pen: int,
    layers: Seq<Layer<E>>,
) -> bool {
    &&& layers.len() <= budget
    &&& is_peeling(residual, layers)
    &&& forall|i: int|
        #![trigger layers[i]]
        0 <= i < layers.len() ==> is_ap_layer(layers[i], d) && layers[i].scatter@.len() <= len_cap(max_len, budget)
    &&& forall|i: int, j: int| 0 <= i < j < layers.len() ==> layers[i].scatter@.len() > layers[j].scatter@.len()
    &&& total == plan_reuse(layers)
    &&& greedy_peeling(residual, layers)
    &&& (d > 0 ==> deep_skips(residual, layers, d, len_cap(max_len, budget), 1))
    &&& pen == (if layers.len() > 0 && layers.last().scatter@.len() == 2 {
        penalty_of(
            layers.last().kernel.entries(),
            d,
            |t: int, e: E| layers_expansion(layers.drop_last(), t, e) < residual.count(t, e),
        ) as int
    } else {
        0
    })
}

/// `deep` is the longest scatter among the layers (0 for none).
pub open spec fn is_deepest<E>(layers: Seq<Layer<E>>, deep: int) -> bool {
    &&& forall|i: int| 0 <= i < layers.len() ==> (#[trigger] layers[i]).scatter@.len() <= deep
    &&& layers.len() > 0 ==> exists|i: int| 0 <= i < layers.len() && (#[trigger] layers[i]).scatter@.len() == deep
    &&& layers.len() == 0 ==> deep == 0
}

/// The scored families of a round, each `(d, total, penalty, deepest
/// length, layers)`: one deep-first flow with positive reuse per spacing
/// whose support exceeds `threshold`, and one for every such spacing.
pub open spec fn family_candidates<E>(
    residual: TpPlane<E>,
    threshold: int,
    max_len: usize,
    budget: usize,
    cands: Seq<(int, int, int, int, Seq<Layer<E>>)>,
) -> bool {
    &&& forall|j: int|
        0 <= j < cands.len() ==> {
            let c = #[trigger] cands[j];
            &&& c.0 > 0
            &&& support(residual, c.0) > threshold
            &&& deep_first_flow(residual, c.0, max_len, budget, c.1, c.2, c.4)
            &&& c.1 > 0
            &&& is_deepest(c.4, c.3)
        }
    &&& forall|d: int|
        d > 0 && #[trigger] support(residual, d) > threshold ==> exists|j: int| 0 <= j < cands.len() && cands[j].0 == d
}

/// `layers` are those of a candidate that no candidate beats in the
/// arbitration order.
pub open spec fn best_of<E>(cands: Seq<(int, int, int, int, Seq<Layer<E>>)>, layers: Seq<Layer<E>>) -> bool {
    exists|k: int|
        0 <= k < cands.len() && cands[k].4 == layers && forall|j: int|
            0 <= j < cands.len() ==> !family_key_gt(
                #[trigger] cands[j].1,
                cands[j].2,
                cands[j].3,
                cands[j].0,
                cands[k].1,
                cands[k].2,
                cands[k].3,
                cands[k].0,
            )
}

/// Scores the deep-first flow of every candidate spacing (an offset whose
/// support exceeds `threshold`) and returns the winner's layers, if any
/// candidate yields reuse.
fn best_family<E: Event>(
    residual: &TpPlane<E>,
    sup: &TpPlane<()>,
    threshold: usize,
    max_len: usize,
    budget: usize,
) -> (r: (bool, Vec<Layer<E>>))
    requires
        residual.wf(),
        residual.total() <= usize::MAX,
        sup.wf(),
        forall|d: int| sup.count(d, ()) == (if d > 0 { support(*residual, d) } else { 0 }),
        ticks_fit(*residual, max_len as int),
        max_len >= 2,
        budget >= 1,
    ensures
        r.0 ==> r.1@.len() > 0,
        r.1@.len() <= budget,
        is_peeling(*residual, r.1@),
        forall|i: int| 0 <= i < r.1@.len() ==> #[trigger] ap_family_layer(r.1@[i], max_len as int),
        (exists|k: int| 0 <= k < sup.entries().len() && #[trigger] sup.entries()[k].2 > threshold) == r.0,
        r.0 ==> exists|cands: Seq<(int, int, int, int, Seq<Layer<E>>)>|
            family_candidates(*residual, threshold as int, max_len, budget, cands) && best_of(cands, r.1@),
{
    let ghost mut cands: Seq<(int, int, int, int, Seq<Layer<E>>)> = Seq::empty();
    let ghost mut bi: int = 0;
    let mut found = false;
    let mut best_layers: Vec<Layer<E>> = Vec::new();
    let mut best_total: usize = 0;
    let mut best_pen: usize = 0;
    let mut best_deep: usize = 0;
    let mut best_d: Tick = 0;
    let mut k: usize = 0;
    while k < sup.len()
        invariant
            residual.wf(),
            residual.total() <= usize::MAX,
            sup.wf(),
            forall|d: int| sup.count(d, ()) == (if d > 0 { support(*residual, d) } else { 0 }),
            ticks_fit(*residual, max_len as int),
            max_len >= 2,
            budget >= 1,
            k <= sup.entries().len(),
            found ==> best_layers@.len() > 0,
            best_layers@.len() <= budget,
            is_peeling(*residual, best_layers@),
            forall|i: int| 0 <= i < best_layers@.len() ==> #[trigger] ap_family_layer(best_layers@[i], max_len as int),
            (exists|q: int| 0 <= q < k && #[trigger] sup.entries()[q].2 > threshold) ==> found,
            found ==> (exists|q: int| 0 <= q < k && #[trigger] sup.entries()[q].2 > threshold),
            forall|j: int|
                0 <= j < cands.len() ==> {
                    let c = #[trigger] cands[j];
                    &&& c.0 > 0
                    &&& support(*residual, c.0) > threshold
                    &&& deep_first_flow(*residual, c.0, max_len, budget, c.1, c.2, c.4)
                    &&& c.1 > 0
                    &&& is_deepest(c.4, c.3)
                },
            forall|q: int|
                0 <= q < k && #[trigger] sup.entries()[q].2 > threshold ==> exists|j: int|
                    0 <= j < cands.len() && cands[j].0 == sup.entries()[q].0 as int,
            found == (cands.len() > 0),
            found ==> 0 <= bi < cands.len() && cands[bi] == (best_d as int, best_total as int, best_pen as int, best_deep as int, best_layers@),
            found ==> forall|j: int|
                0 <= j < cands.len() ==> !family_key_gt(
                    #[trigger] cands[j].1,
                    cands[j].2,
                    cands[j].3,
                    cands[j].0,
                    best_total as int,
                    best_pen as int,
                    best_deep as int,
                    best_d as int,
                ),
        decreases sup.entries().len() - k,
    {
        let ghost c0 = cands;
        let (d, _unit, v) = sup.entry_at(k);
        if v > threshold {
            proof {
                sup.lemma_entry_count(k as int);
                assert(d > 0 && support(*residual, d as int) > 0);
                lemma_support_witness(*residual, d as int);
                let (u, f) = choose|u: int, f: E| residual.count(u, f) > 0 && #[trigger] residual.count(u + d, f) > 0;
                residual.lemma_present(u, f);
                let cap = len_cap(max_len, budget);
                assert((cap - 1) * d <= (max_len - 1) * d) by (nonlinear_arith)
                    requires
                        cap <= max_len,
                        d > 0,
                ;
                assert forall|t: int, e: E| residual.count(t, e) > 0 implies t + (cap - 1) * d <= u32::MAX by {
                    assert(residual.count(u, f) > 0 && residual.count(u + d, f) > 0);
                    assert(t + (max_len - 1) * ((u + d) - u) <= u32::MAX);
                }
                assert(residual.count(u, f) > 0 && residual.count(u + d, f) > 0);
                assert(u + (max_len - 1) * ((u + d) - u) <= u32::MAX);
            }
            let (total, layers, penalty) = family_deep_first(residual, d, max_len, budget);
            proof {
                lemma_plan_reuse_positive(layers@, d as int);
                assert forall|i: int| 0 <= i < layers@.len() implies #[trigger] ap_family_layer(layers@[i], max_len as int) by {
                    assert(is_ap_layer(layers@[i], d as int));
                    assert(layers@[i].scatter@[1] == d);
                }
            }
            proof {
                let (u, f) = choose|u: int, f: E| residual.count(u, f) > 0 && #[trigger] residual.count(u + d, f) > 0;
                assert(residual.count(u, f) > 0 && residual.count(u + d, f) > 0);
                assert(layers@.len() > 0);
                assert(total > 0);
            }
            if total > 0 {
                let deep = deepest_len(&layers);
                let ghost c = (d as int, total as int, penalty as int, deep as int, layers@);
                proof {
                    assert(deep_first_flow(*residual, d as int, max_len, budget, total as int, penalty as int, layers@));
                    assert(is_deepest(layers@, deep as int));
                    cands = cands.push(c);
                }
                if !found || key_beats(total, penalty, deep, d, best_total, best_pen, best_deep, best_d) {
                    proof {
                        bi = cands.len() - 1;
                    }
                    found = true;
                    best_layers = layers;
                    best_total = total;
                    best_pen = penalty;
                    best_deep = deep;
                    best_d = d;
                }
            }
        }
        proof {
            assert forall|q: int|
                0 <= q < k + 1 && #[trigger] sup.entries()[q].2 > threshold implies exists|j: int|
                0 <= j < cands.len() && cands[j].0 == sup.entries()[q].0 as int by {
                if q < k {
                    let j = choose|j: int| 0 <= j < c0.len() && c0[j].0 == sup.entries()[q].0 as int;
                    assert(cands[j] == c0[j]);
                } else {
                    assert(cands[cands.len() - 1].0 == sup.entries()[q].0 as int);
                }
            }
        }
        k = k + 1;
    }
    proof {
        if found {
            assert(family_candidates(*residual, threshold as int, max_len, budget, cands)) by {
                assert forall|dd: int| dd > 0 && #[trigger] support(*residual, dd) > threshold implies exists|j: int|
                    0 <= j < cands.len() && cands[j].0 == dd by {
                    assert(sup.count(dd, ()) > 0);
                    sup.lemma_present(dd, ());
                    let q = choose|q: int|
                        0 <= q < sup.entries().len() && sup.entries()[q].0 as int == dd && sup.entries()[q].1 == ();
                    sup.lemma_entry_count(q);
                    assert(sup.entries()[q].2 > threshold);
                }
            }
            assert(best_of(cands, best_layers@)) by {
                assert(cands[bi].4 == best_layers@);
            }
        }
    }
    (found, best_layers)
}

/// Commits the layers in order: each layer's expansion leaves the residual
/// and joins the plan, its reuse joins the total.
fn commit_layers<E: Event>(
    plan: &mut Vec<Layer<E>>,
    residual: &mut TpPlane<E>,
    total_reuse: &mut usize,
    layers: Vec<Layer<E>>,
)
    requires
        old(residual).wf(),
        is_peeling(*old(residual), layers@),
        *old(total_reuse) + old(residual).total() <= usize::MAX,
    ensures
        final(plan)@ == old(plan)@ + layers@,
        final(residual).wf(),
        forall|t: int, e: E|
            final(residual).count(t, e) + layers_expansion(layers@, t, e) == old(residual).count(t, e),
        *final(total_reuse) == *old(total_reuse) + plan_reuse(layers@),
        *final(total_reuse) + final(residual).total() <= *old(total_reuse) + old(residual).total(),
{
    let ghost x = layers@;
    let ghost rest = *residual;
    let ghost base = plan@;
    let ghost reuse0 = *total_reuse;
    let mut layers = layers;
    let count = layers.len();
    let mut j: usize = 0;
    while layers.len() > 0
        invariant
            x.len() == count,
            j <= x.len(),
            layers@ == x.skip(j as int),
            plan@ == base + x.take(j as int),
            rest.wf(),
            is_peeling(rest, x),
            residual.wf(),
            forall|t: int, e: E| residual.count(t, e) + layers_expansion(x.take(j as int), t, e) == rest.count(t, e),
            *total_reuse == reuse0 + plan_reuse(x.take(j as int)),
            *total_reuse + residual.total() <= reuse0 + rest.total(),
            reuse0 + rest.total() <= usize::MAX,
        decreases layers@.len(),
    {
        let layer = layers.remove(0);
        proof {
            assert(layer == x[j as int]);
            assert(layers@ =~= x.skip(j + 1));
            assert(layer_fits(rest, x.take(j as int), x[j as int]));
            lemma_fits_bounds(rest, x.take(j as int), layer);
            assert forall|t: int, e: E| expansion_count(layer.kernel, layer.scatter@, t, e) <= residual.count(t, e) by {
                assert(expansion_count(layer.kernel, layer.scatter@, t, e) + layers_expansion(x.take(j as int), t, e)
                    <= rest.count(t, e));
            }
            assert(layer.scatter@.contains(0));
        }
        let expansion = expand(&layer.kernel, layer.scatter.as_slice());
        proof {
            assert(plane_le(expansion, *residual));
            expansion.lemma_total_mono(*residual);
            let n = layer.scatter@.len();
            assert(n >= 1);
            assert(layer.kernel.total() * (n - 1) <= layer.kernel.total() * n) by (nonlinear_arith)
                requires
                    n >= 1,
            ;
        }
        let gain = layer.reuse();
        *total_reuse = *total_reuse + gain;
        let next = subtract_exact(residual, &expansion);
        *residual = next;
        proof {
            assert(x.take(j + 1).drop_last() =~= x.take(j as int));
            assert(x.take(j + 1).last() == layer);
            assert(plan@.push(layer) =~= base + x.take(j + 1));
        }
        plan.push(layer);
        j = j + 1;
    }
    proof {
        assert(x.take(j as int) =~= x);
    }
}

/// The largest entry of the support plane is the largest support.
proof fn lemma_max_support<E>(residual: TpPlane<E>, sup: TpPlane<()>, mx: usize)
    requires
        sup.wf(),
        forall|d: int| sup.count(d, ()) == (if d > 0 { support(residual, d) } else { 0 }),
        sup.entries().len() > 0,
        forall|k: int| 0 <= k < sup.entries().len() ==> sup.entries()[k].2 <= mx,
        exists|k: int| 0 <= k < sup.entries().len() && sup.entries()[k].2 == mx,
    ensures
        is_max_support(residual, mx as int),
{
    assert forall|d: int| d > 0 implies #[trigger] support(residual, d) <= mx by {
        if support(residual, d) > 0 {
            assert(sup.count(d, ()) > 0);
            sup.lemma_present(d, ());
            let q = choose|q: int|
                0 <= q < sup.entries().len() && sup.entries()[q].0 as int == d && sup.entries()[q].1 == ();
            sup.lemma_entry_count(q);
        }
    }
    let q = choose|q: int| 0 <= q < sup.entries().len() && sup.entries()[q].2 == mx;
    sup.lemma_entry_count(q);
    let d = sup.entries()[q].0 as int;
    assert(sup.count(d, ()) == mx);
    assert(mx > 0);
    assert(d > 0);
    assert(support(residual, d) == mx);
}

/// The plan is made of rounds: round `r` starts from the residual
/// `rests[r]`, what the layers before `pos[r]` leave of `source`, and
/// commits the layers from `pos[r]` to `pos[r + 1]`: the family of a
/// candidate that no candidate family of the round beats, the candidates
/// being the spacings whose support exceeds the round's largest support over
/// `max_len - 1`, within the layers left of `max_layers`.
pub open spec fn family_rounds<E>(
    source: TpPlane<E>,
    plan: Seq<Layer<E>>,
    pos: Seq<int>,
    rests: Seq<TpPlane<E>>,
    max_len: usize,
    max_layers: usize,
) -> bool {
    &&& pos.len() == rests.len() + 1
    &&& pos[0] == 0
    &&& pos[rests.len() as int] == plan.len()
    &&& forall|r: int| 0 <= r <= rests.len() ==> 0 <= #[trigger] pos[r] <= plan.len()
    &&& forall|r: int|
        #![trigger rests[r]]
        0 <= r < rests.len() ==> {
            &&& pos[r] < pos[r + 1]
            &&& rests[r].wf()
            &&& forall|t: int, e: E| rests[r].count(t, e) + layers_expansion(plan.take(pos[r]), t, e) == source.count(t, e)
            &&& exists|m: int, cands: Seq<(int, int, int, int, Seq<Layer<E>>)>|
                is_max_support(rests[r], m) && #[trigger] family_candidates(
                    rests[r],
                    m / (max_len - 1),
                    max_len,
                    (max_layers - pos[r]) as usize,
                    cands,
                ) && best_of(cands, plan.subrange(pos[r], pos[r + 1]))
        }
}

/// A round that commits a best family extends the rounds.
proof fn lemma_rounds_push<E>(
    source: TpPlane<E>,
    base: Seq<Layer<E>>,
    chosen: Seq<Layer<E>>,
    pos: Seq<int>,
    rests: Seq<TpPlane<E>>,
    rest: TpPlane<E>,
    max_len: usize,
    max_layers: usize,
    m: int,
)
    requires
        family_rounds(source, base, pos, rests, max_len, max_layers),
        rest.wf(),
        forall|t: int, e: E| rest.count(t, e) + layers_expansion(base, t, e) == source.count(t, e),
        chosen.len() > 0,
        is_max_support(rest, m),
        exists|cands: Seq<(int, int, int, int, Seq<Layer<E>>)>|
            family_candidates(rest, m / (max_len - 1), max_len, (max_layers - base.len()) as usize, cands) && best_of(
                cands,
                chosen,
            ),
    ensures
        family_rounds(source, base + chosen, pos.push((base.len() + chosen.len()) as int), rests.push(rest), max_len, max_layers),
{
    let plan = base + chosen;
    let np = pos.push((base.len() + chosen.len()) as int);
    let nr = rests.push(rest);
    let n = rests.len() as int;
    assert(plan.take(base.len() as int) =~= base);
    assert(plan.subrange(base.len() as int, plan.len() as int) =~= chosen);
    assert forall|r: int| 0 <= r <= nr.len() implies 0 <= #[trigger] np[r] <= plan.len() by {
        if r < np.len() - 1 {
            assert(np[r] == pos[r]);
        }
    }
    assert forall|r: int|
        #![trigger nr[r]]
        0 <= r < nr.len() implies {
            &&& np[r] < np[r + 1]
            &&& nr[r].wf()
            &&& forall|t: int, e: E| nr[r].count(t, e) + layers_expansion(plan.take(np[r]), t, e) == source.count(t, e)
            &&& exists|m2: int, cands: Seq<(int, int, int, int, Seq<Layer<E>>)>|
                is_max_support(nr[r], m2) && #[trigger] family_candidates(
                    nr[r],
                    m2 / (max_len - 1),
                    max_len,
                    (max_layers - np[r]) as usize,
                    cands,
                ) && best_of(cands, plan.subrange(np[r], np[r + 1]))
        } by {
        if r < n {
            assert(nr[r] == rests[r]);
            assert(np[r] == pos[r] && np[r + 1] == pos[r + 1]);
            assert(pos[r + 1] <= base.len());
            assert(plan.take(np[r]) =~= base.take(pos[r]));
            assert(plan.subrange(np[r], np[r + 1]) =~= base.subrange(pos[r], pos[r + 1]));
        } else {
            assert(nr[r] == rest);
            assert(np[r] == base.len());
            assert(np[r + 1] == base.len() + chosen.len());
            let cands = choose|cands: Seq<(int, int, int, int, Seq<Layer<E>>)>|
                family_candidates(rest, m / (max_len - 1), max_len, (max_layers - base.len()) as usize, cands) && best_of(
                    cands,
                    chosen,
                );
            assert(best_of(cands, plan.subrange(np[r], np[r + 1])));
        }
    }
    assert forall|r: int| 0 <= r < nr.len() implies #[trigger] np[r] < np[r + 1] by {
        if r < n {
            assert(rests[r].wf());
            assert(np[r] == pos[r] && np[r + 1] == pos[r + 1]);
        } else {
            assert(np[r] == base.len());
            assert(np[r + 1] == base.len() + chosen.len());
        }
    }
    assert(np.len() == nr.len() + 1);
    assert(np[0] == 0);
    assert(np[nr.len() as int] == plan.len());
    assert(family_rounds(source, plan, np, nr, max_len, max_layers));
}

/// Greedy family arbitration of the deep-first family flow.
///
/// Returns `(plan, total_reuse, residual)`. Each round scores every surviving
/// AP family with its complete deep-first flow, then commits the winner
/// (`score = total - nested_penalty`, deepest len used, smallest d). Only
/// offsets whose support exceeds `max_support / (max_len - 1)` compete, so
/// with `max_len == 2` no family survives.
#[verifier::spinoff_prover]
pub fn reuse_flow<E: Event>(
    source: &TpPlane<E>,
    max_len: usize,
    max_layers: usize,
) -> (r: (Vec<Layer<E>>, usize, TpPlane<E>))
    requires
        source.wf(),
        source.total() <= usize::MAX,
        max_len >= 2 || max_layers == 0 || no_pair(*source),
        ticks_fit(*source, max_len as int),
    ensures
        r.0@.len() <= max_layers,
        r.2.wf(),
        forall|t: int, e: E| r.2.count(t, e) + layers_expansion(r.0@, t, e) == source.count(t, e),
        is_peeling(*source, r.0@),
        forall|i: int| 0 <= i < r.0@.len() ==> #[trigger] ap_family_layer(r.0@[i], max_len as int),
        r.1 == plan_reuse(r.0@),
        max_len >= 3 && r.0@.len() < max_layers ==> no_pair(r.2),
        max_len <= 2 ==> r.0@.len() == 0,
        exists|pos: Seq<int>, rests: Seq<TpPlane<E>>| family_rounds(*source, r.0@, pos, rests, max_len, max_layers),
{
    let mut residual = source.duplicate_plane();
    let mut plan: Vec<Layer<E>> = Vec::new();
    let mut total_reuse: usize = 0;
    let ghost mut pos: Seq<int> = seq![0int];
    let ghost mut rests: Seq<TpPlane<E>> = Seq::empty();
    proof {
        assert(plan@ =~= Seq::<Layer<E>>::empty());
        assert(family_rounds(*source, plan@, pos, rests, max_len, max_layers));
    }
    while plan.len() < max_layers
        invariant
            source.wf(),
            source.total() <= usize::MAX,
            max_len >= 2 || max_layers == 0 || no_pair(*source),
            ticks_fit(*source, max_len as int),
            residual.wf(),
            forall|t: int, e: E| residual.count(t, e) + layers_expansion(plan@, t, e) == source.count(t, e),
            is_peeling(*source, plan@),
            forall|i: int| 0 <= i < plan@.len() ==> #[trigger] ap_family_layer(plan@[i], max_len as int),
            plan@.len() <= max_layers,
            total_reuse == plan_reuse(plan@),
            total_reuse + residual.total() <= source.total(),
            max_len <= 2 ==> plan@.len() == 0,
            family_rounds(*source, plan@, pos, rests, max_len, max_layers),
        ensures
            max_len >= 3 && plan@.len() < max_layers ==> no_pair(residual),
            family_rounds(*source, plan@, pos, rests, max_len, max_layers),
        decreases max_layers - plan@.len(),
    {
        proof {
            assert forall|d: int| support(residual, d) <= usize::MAX by {
                lemma_support_le_total(residual, d);
            }
        }
        let sup = support_plane(&residual);
        if sup.len() == 0 {
            proof {
                assert forall|t: int, u: int, e: E| #[trigger] residual.count(t, e) > 0 && #[trigger] residual.count(u, e) > 0 implies t == u by {
                    if t < u {
                        lemma_pair_support(residual, t, u, e);
                        sup.lemma_absent(u - t, ());
                    } else if u < t {
                        lemma_pair_support(residual, u, t, e);
                        sup.lemma_absent(t - u, ());
                    }
                }
            }
            break;
        }
        proof {
            if max_len < 2 {
                assert(no_pair(*source));
                let (d0, u0, c0) = sup.entries()[0];
                sup.lemma_entry_count(0);
                lemma_support_witness(residual, d0 as int);
                let (t, e) = choose|t: int, e: E| residual.count(t, e) > 0 && #[trigger] residual.count(t + d0, e) > 0;
                assert(source.count(t, e) > 0 && source.count(t + d0, e) > 0);
            }
            lemma_ticks_fit_sub(residual, *source, max_len as int);
            residual.lemma_total_mono(*source);
        }
        let max_support = max_count(&sup);
        let threshold = max_support / (max_len - 1);
        let budget = max_layers - plan.len();
        proof {
            if max_len >= 3 {
                let k0 = choose|k: int| 0 <= k < sup.entries().len() && sup.entries()[k].2 == max_support;
                assert(sup.entries()[k0].2 > 0);
                assert(max_support / ((max_len - 1) as usize) < max_support) by (nonlinear_arith)
                    requires
                        max_len >= 3,
                        max_support >= 1,
                ;
                assert(sup.entries()[k0].2 > threshold);
            } else {
                assert(max_len == 2);
                assert(threshold == max_support) by (nonlinear_arith)
                    requires
                        max_len == 2,
                        threshold == max_support / ((max_len - 1) as usize),
                ;
            }
        }
        let (found, layers) = best_family(&residual, &sup, threshold, max_len, budget);
        if !found {
            proof {
                if max_len >= 3 {
                    let k0 = choose|k: int| 0 <= k < sup.entries().len() && sup.entries()[k].2 > threshold;
                    assert(sup.entries()[k0].2 > threshold);
                }
            }
            break;
        }
        proof {
            if max_len <= 2 {
                assert(forall|k: int| 0 <= k < sup.entries().len() ==> sup.entries()[k].2 <= threshold);
                assert(!(exists|k: int| 0 <= k < sup.entries().len() && #[trigger] sup.entries()[k].2 > threshold));
            }
        }
        let ghost base = plan@;
        let ghost rest = residual;
        let ghost reuse0 = total_reuse;
        let ghost chosen = layers@;
        proof {
            lemma_max_support(residual, sup, max_support);
        }
        commit_layers(&mut plan, &mut residual, &mut total_reuse, layers);
        proof {
            lemma_rounds_push(*source, base, chosen, pos, rests, rest, max_len, max_layers, max_support as int);
            pos = pos.push(plan@.len() as int);
            rests = rests.push(rest);
            assert(plan@ == base + chosen);
            lemma_peeling_concat(*source, rest, base, layers@);
            lemma_plan_reuse_concat(base, layers@);
            assert forall|t: int, e: E| residual.count(t, e) + layers_expansion(plan@, t, e) == source.count(t, e) by {
                lemma_layers_expansion_concat(base, layers@, t, e);
            }
            assert forall|i: int| 0 <= i < plan@.len() implies #[trigger] ap_family_layer(plan@[i], max_len as int) by {
                if i < base.len() {
                    assert(plan@[i] == base[i]);
                } else {
                    assert(plan@[i] == layers@[i - base.len()]);
                }
            }
        }
    }
    (plan, total_reuse, residual)
}

// Manual flow
//
// ++++++++++++============++++++++++++============++++++++++++============

/// The offsets of each rule.
pub open spec fn rule_views(rules: Seq<Vec<Tick>>) -> Seq<Seq<Tick>> {
    rules.map_values(|v: Vec<Tick>| v@)
}

/// Every rule contains 0, repeats no offset, and its shifts of the source's
/// points stay in the tick range.
pub open spec fn rules_fit<E>(source: TpPlane<E>, rules: Seq<Seq<Tick>>) -> bool {
    forall|j: int|
        0 <= j < rules.len() ==> (#[trigger] rules[j]).contains(0) && rules[j].no_duplicates()
            && shifts_fit(source, rules[j])
}

/// No anchor of the scatter `s` at `(a, e)` survives the layers `prev`:
/// some offset lands on a point that they use up.
pub open spec fn rule_blocked<E>(source: TpPlane<E>, prev: Seq<Layer<E>>, s: Seq<Tick>, a: int, e: E) -> bool {
    exists|i: int|
        #![trigger s[i]]
        0 <= i < s.len() && layers_expansion(prev, a + s[i], e) == source.count(a + s[i], e)
}

/// Rule `j` either became the layer at `pos[j]` (with a non-empty kernel),
/// or it was skipped: it has a single offset (no reuse), or no anchor of it
/// survives the layers before.
pub open spec fn manual_step<E>(
    source: TpPlane<E>,
    rules: Seq<Seq<Tick>>,
    plan: Seq<Layer<E>>,
    pos: Seq<int>,
    j: int,
) -> bool {
    ||| (pos[j + 1] == pos[j] + 1 && plan[pos[j]].scatter@ == rules[j] && plan[pos[j]].kernel.total() > 0)
    ||| (pos[j + 1] == pos[j] && (rules[j].len() < 2 || forall|a: int, e: E|
        #[trigger] rule_blocked(source, plan.take(pos[j]), rules[j], a, e)))
}

/// `pos[j]` counts the layers made from the rules before `j`, and every
/// rule is accounted for by [`manual_step`].
pub open spec fn is_manual_trace<E>(
    source: TpPlane<E>,
    rules: Seq<Seq<Tick>>,
    plan: Seq<Layer<E>>,
    pos: Seq<int>,
) -> bool {
    &&& pos.len() == rules.len() + 1
    &&& pos[0] == 0
    &&& pos[rules.len() as int] == plan.len()
    &&& forall|j: int| 0 <= j < rules.len() ==> #[trigger] manual_step(source, rules, plan, pos, j)
}

proof fn lemma_manual_step_push<E>(
    source: TpPlane<E>,
    rules: Seq<Seq<Tick>>,
    plan: Seq<Layer<E>>,
    l: Layer<E>,
    pos: Seq<int>,
    j: int,
)
    requires
        manual_step(source, rules, plan, pos, j),
        0 <= pos[j] <= pos[j + 1] <= plan.len(),
    ensures
        manual_step(source, rules, plan.push(l), pos, j),
{
    assert(plan.push(l).take(pos[j]) =~= plan.take(pos[j]));
    if pos[j + 1] == pos[j] + 1 {
        assert(plan.push(l)[pos[j]] == plan[pos[j]]);
    }
}

/// Apply scatter rules in order, extracting a kernel per rule and subtracting
/// its expansion from the working set. Returns `(plan, total_reuse, residual)`.
pub fn manual_flow<E: Event>(source: &TpPlane<E>, rules: &[Vec<Tick>]) -> (r: (Vec<Layer<E>>, usize, TpPlane<E>))
    requires
        source.wf(),
        source.total() <= usize::MAX,
        rules_fit(*source, rule_views(rules@)),
    ensures
        r.2.wf(),
        forall|t: int, e: E| r.2.count(t, e) + layers_expansion(r.0@, t, e) == source.count(t, e),
        is_peeling(*source, r.0@),
        r.1 == plan_reuse(r.0@),
        exists|pos: Seq<int>| #[trigger] is_manual_trace(*source, rule_views(rules@), r.0@, pos),
        greedy_peeling(*source, r.0@),
{
    let ghost rv = rule_views(rules@);
    proof {
        reveal(greedy_peeling);
    }
    let mut residual = source.duplicate_plane();
    let mut plan: Vec<Layer<E>> = Vec::new();
    let mut total_reuse: usize = 0;
    let ghost mut pos: Seq<int> = seq![0int];
    let mut j: usize = 0;
    while j < rules.len()
        invariant
            rv == rule_views(rules@),
            source.wf(),
            source.total() <= usize::MAX,
            rules_fit(*source, rv),
            j <= rules@.len(),
            residual.wf(),
            forall|t: int, e: E| residual.count(t, e) + layers_expansion(plan@, t, e) == source.count(t, e),
            is_peeling(*source, plan@),
            total_reuse == plan_reuse(plan@),
            total_reuse + residual.total() <= source.total(),
            pos.len() == j + 1,
            pos[0] == 0,
            pos[j as int] == plan@.len(),
            forall|q: int| 0 <= q <= j ==> 0 <= #[trigger] pos[q] <= plan@.len(),
            forall|q: int| 0 <= q < j ==> #[trigger] manual_step(*source, rv, plan@, pos, q),
            greedy_peeling(*source, plan@),
        decreases rules@.len() - j,
    {
        let scatter = &rules[j];
        proof {
            assert(rv[j as int] == scatter@);
            assert(rv[j as int].contains(0) && rv[j as int].no_duplicates() && shifts_fit(*source, rv[j as int]));
            assert forall|t: int, e: E, i: int| residual.count(t, e) > 0 && 0 <= i < scatter@.len() implies t
                + scatter@[i] <= u32::MAX by {
                assert(source.count(t, e) > 0);
            }
            lemma_dedup_props(scatter@);
            residual.lemma_total_mono(*source);
        }
        let kernel = feasible_kernel(&residual, scatter.as_slice());
        proof {
            assert(dedup_seq(scatter@) == scatter@);
            assert(scatter@.len() >= 1) by {
                assert(scatter@.contains(0));
            }
            assert(kernel.total() * (scatter@.len() - 1) <= kernel.total() * scatter@.len()) by (nonlinear_arith);
            assert forall|t: int, e: E| expansion_count(kernel, scatter@, t, e) <= usize::MAX by {
                residual.lemma_count_bounded(t, e);
            }
            assert forall|t: int, e: E, i: int| kernel.count(t, e) > 0 && 0 <= i < scatter@.len() implies t
                + scatter@[i] <= u32::MAX by {
                assert(residual.count(t, e) > 0);
                assert(source.count(t, e) > 0);
            }
        }
        let expansion = expand(&kernel, scatter.as_slice());
        proof {
            assert(plane_le(expansion, residual));
            expansion.lemma_total_mono(residual);
        }
        let gain = kernel.values_sum() * (scatter.len() - 1);
        if gain == 0 {
            proof {
                if scatter@.len() >= 2 {
                    assert(kernel.total() == 0) by (nonlinear_arith)
                        requires
                            gain == kernel.total() * (scatter@.len() - 1),
                            gain == 0,
                            scatter@.len() >= 2,
                    ;
                }
            }
            proof {
                let p0 = pos[j as int];
                assert(plan@.take(p0) =~= plan@);
                if scatter@.len() >= 2 {
                    kernel.lemma_total_zero();
                    assert forall|a: int, e: E| #[trigger] rule_blocked(*source, plan@.take(p0), rv[j as int], a, e) by {
                        assert(used_up(kernel, scatter@, residual, a, e));
                        let i = choose|i: int|
                            #![trigger scatter@[i]]
                            0 <= i < scatter@.len() && expansion_count(kernel, scatter@, a + scatter@[i], e)
                                == residual.count(a + scatter@[i], e);
                        assert forall|t2: int| kernel.count(t2, e) == 0 by {
                            kernel.lemma_count_le_total(t2, e);
                        }
                        lemma_expansion_zero(kernel, scatter@, a + scatter@[i], e);
                        assert(rv[j as int][i] == scatter@[i]);
                        assert(layers_expansion(plan@.take(p0), a + rv[j as int][i], e) == source.count(
                            a + rv[j as int][i],
                            e,
                        ));
                    }
                }
                let pos2 = pos.push(p0);
                assert(manual_step(*source, rv, plan@, pos2, j as int));
                assert forall|q: int| 0 <= q < j + 1 implies #[trigger] manual_step(*source, rv, plan@, pos2, q) by {
                    if q < j {
                        assert(manual_step(*source, rv, plan@, pos, q));
                        assert(pos2[q] == pos[q] && pos2[q + 1] == pos[q + 1]);
                    }
                }
                pos = pos2;
            }
            j = j + 1;
            continue;
        }
        proof {
            assert(scatter@.len() >= 2) by {
                if scatter@.len() < 2 {
                    assert(gain == 0) by (nonlinear_arith)
                        requires
                            gain == kernel.total() * (scatter@.len() - 1),
                            scatter@.len() == 1,
                    ;
                }
            }
            assert(kernel.total() > 0) by (nonlinear_arith)
                requires
                    gain == kernel.total() * (scatter@.len() - 1),
                    gain > 0,
            ;
        }
        total_reuse = total_reuse + gain;
        let next = subtract_exact(&residual, &expansion);
        let layer = Layer { scatter: scatter.clone(), kernel };
        proof {
            assert(layer.scatter@ =~= scatter@);
            let prev = plan@;
            lemma_commit_layer(*source, residual, prev, layer, next);
            lemma_peeling_push(*source, prev, layer);
            lemma_greedy_on(layer.kernel, scatter@, residual, left_by(*source, prev));
            lemma_greedy_peeling_push(*source, prev, layer);
            let p0 = pos[j as int];
            let pos2 = pos.push(p0 + 1);
            assert forall|q: int| 0 <= q < j + 1 implies #[trigger] manual_step(*source, rv, prev.push(layer), pos2, q) by {
                if q < j {
                    assert(manual_step(*source, rv, prev, pos, q));
                    assert(manual_step(*source, rv, prev, pos2, q));
                    lemma_manual_step_push(*source, rv, prev, layer, pos2, q);
                } else {
                    assert(prev.push(layer)[p0] == layer);
                }
            }
            pos = pos2;
            assert(prev.push(layer).drop_last() =~= prev);
        }
        plan.push(layer);
        residual = next;
        j = j + 1;
    }
    proof {
        assert(rules@.len() == rv.len());
        assert(is_manual_trace(*source, rv, plan@, pos));
        assert(rv == rule_views(rules@));
        assert(is_manual_trace(*source, rule_views(rules@), plan@, pos));
    }
    let ghost fpos = pos;
    let r = (plan, total_reuse, residual);
    proof {
        assert(is_manual_trace(*source, rule_views(rules@), r.0@, fpos));
    }
    r
}

// Beam flow
//
// ++++++++++++============++++++++++++============++++++++++++============

/// The progression `{0, d, ..., (n-1)d}` with `d > 0` repeats no offset.
pub proof fn lemma_ap_distinct(n: nat, d: int)
    requires
        d > 0,
        (n - 1) * d <= u32::MAX,
    ensures
        ap(n, d).no_duplicates(),
        n > 0 ==> ap(n, d).contains(0),
{
    let s = ap(n, d);
    assert forall|a: int, b: int| 0 <= a < s.len() && 0 <= b < s.len() && a != b implies s[a] != s[b] by {
        assert(a * d != b * d) by (nonlinear_arith)
            requires
                a != b,
                d > 0,
        ;
        assert(0 <= a * d <= (n - 1) * d) by (nonlinear_arith)
            requires
                0 <= a <= n - 1,
                d > 0,
        ;
        assert(0 <= b * d <= (n - 1) * d) by (nonlinear_arith)
            requires
                0 <= b <= n - 1,
                d > 0,
        ;
    }
    if n > 0 {
        assert(s[0] == 0);
    }
}

/// An AP offset set `{0, d, ..., (n-1)d}` with `2 <= n <= max_len`, whose
/// spacing `d > 0` separates two points of one event of `m`.
pub open spec fn observed_ap<E>(s: Seq<Tick>, m: TpPlane<E>, max_len: int) -> bool {
    &&& 2 <= s.len() <= max_len
    &&& s[1] > 0
    &&& s == ap(s.len(), s[1] as int)
    &&& exists|u: int, f: E| m.count(u, f) > 0 && #[trigger] m.count(u + s[1], f) > 0
}

/// An observed progression of a sub-plane is one of the whole plane.
pub proof fn lemma_observed_ap_sub<E>(s: Seq<Tick>, a: TpPlane<E>, b: TpPlane<E>, max_len: int)
    requires
        observed_ap(s, a, max_len),
        forall|t: int, e: E| a.count(t, e) <= b.count(t, e),
    ensures
        observed_ap(s, b, max_len),
{
    let (u, f) = choose|u: int, f: E| a.count(u, f) > 0 && #[trigger] a.count(u + s[1], f) > 0;
    assert(b.count(u, f) > 0 && b.count(u + s[1], f) > 0);
}

/// The shifts of an observed progression fit in a tick for every point.
pub proof fn lemma_observed_ap_fits<E>(s: Seq<Tick>, m: TpPlane<E>, max_len: int)
    requires
        observed_ap(s, m, max_len),
        ticks_fit(m, max_len),
    ensures
        shifts_fit(m, s),
        s.no_duplicates(),
        s.contains(0),
        (s.len() - 1) * s[1] <= u32::MAX,
{
    let d = s[1] as int;
    let n = s.len();
    let (u, f) = choose|u: int, f: E| m.count(u, f) > 0 && #[trigger] m.count(u + s[1], f) > 0;
    m.lemma_present(u, f);
    assert(m.count(u, f) > 0 && m.count(u + d, f) > 0);
    assert(u + (max_len - 1) * ((u + d) - u) <= u32::MAX);
    assert((n - 1) * d <= (max_len - 1) * d) by (nonlinear_arith)
        requires
            n <= max_len,
            d > 0,
    ;
    assert forall|t: int, e: E, i: int| m.count(t, e) > 0 && 0 <= i < s.len() implies t + s[i] <= u32::MAX by {
        assert(m.count(t, e) > 0 && m.count(u, f) > 0 && m.count(u + d, f) > 0);
        assert(t + (max_len - 1) * ((u + d) - u) <= u32::MAX);
        assert(i * d <= (n - 1) * d) by (nonlinear_arith)
            requires
                0 <= i <= n - 1,
                d > 0,
        ;
        assert(0 <= i * d) by (nonlinear_arith)
            requires
                0 <= i,
                d > 0,
        ;
    }
    lemma_ap_distinct(n, d);
}

/// A beam path: the layers explored so far, what they leave of the
/// residual, and the accumulated gain.
struct Path<E> {
    layers: Vec<Layer<E>>,
    work: TpPlane<E>,
    acc: usize,
}

/// A path as the beam sees it: its layers, its work and its gain.
spec fn path_view<E>(p: Path<E>) -> (Seq<Layer<E>>, TpPlane<E>, int) {
    (p.layers@, p.work, p.acc as int)
}

/// The views of the paths.
spec fn path_views<E>(s: Seq<Path<E>>) -> Seq<(Seq<Layer<E>>, TpPlane<E>, int)> {
    s.map_values(|p: Path<E>| path_view(p))
}

/// The path peels fitting layers off `residual` with non-empty kernels and
/// observed progressions, `work` is what they leave, and `acc` their reuse.
#[verifier::opaque]
spec fn path_ok<E>(p: Path<E>, residual: TpPlane<E>, source: TpPlane<E>, max_len: int, depth: int) -> bool {
    &&& p.work.wf()
    &&& forall|t: int, e: E| p.work.count(t, e) + layers_expansion(p.layers@, t, e) == residual.count(t, e)
    &&& forall|t: int, e: E| p.work.count(t, e) <= residual.count(t, e)
    &&& is_peeling(residual, p.layers@)
    &&& greedy_peeling(residual, p.layers@)
    &&& p.acc == plan_reuse(p.layers@)
    &&& p.acc + p.work.total() <= residual.total()
    &&& p.layers@.len() == depth
    &&& forall|i: int|
        0 <= i < p.layers@.len() ==> #[trigger] observed_ap(p.layers@[i].scatter@, source, max_len)
            && p.layers@[i].kernel.total() > 0
}

/// The layers have the same offsets and the same kernel entries, one by
/// one.
pub open spec fn layers_equiv<E>(a: Seq<Layer<E>>, b: Seq<Layer<E>>) -> bool {
    &&& a.len() == b.len()
    &&& forall|i: int|
        0 <= i < a.len() ==> (#[trigger] a[i]).scatter@ == b[i].scatter@ && a[i].kernel.entries() == b[i].kernel.entries()
}

proof fn lemma_equiv_take<E>(a: Seq<Layer<E>>, b: Seq<Layer<E>>, n: int)
    requires
        layers_equiv(a, b),
        0 <= n <= a.len(),
    ensures
        layers_equiv(a.take(n), b.take(n)),
{
    assert forall|i: int| 0 <= i < n implies (#[trigger] a.take(n)[i]).scatter@ == b.take(n)[i].scatter@
        && a.take(n)[i].kernel.entries() == b.take(n)[i].kernel.entries() by {
        assert(a.take(n)[i] == a[i] && b.take(n)[i] == b[i]);
    }
}

/// Equivalent layers expand alike and give the same reuse.
proof fn lemma_equiv_sums<E>(a: Seq<Layer<E>>, b: Seq<Layer<E>>)
    requires
        layers_equiv(a, b),
    ensures
        forall|t: int, e: E| layers_expansion(a, t, e) == layers_expansion(b, t, e),
        plan_reuse(a) == plan_reuse(b),
    decreases a.len(),
{
    if a.len() > 0 {
        let n = a.len() - 1;
        assert(a.drop_last() =~= a.take(n) && b.drop_last() =~= b.take(n));
        lemma_equiv_take(a, b, n);
        lemma_equiv_sums(a.drop_last(), b.drop_last());
        assert(a.last() == a[n] && b.last() == b[n]);
        let ka = a.last().kernel;
        let kb = b.last().kernel;
        assert(ka.entries() == kb.entries() && a.last().scatter@ == b.last().scatter@);
        assert forall|t: int, e: E| layers_expansion(a, t, e) == layers_expansion(b, t, e) by {
            assert forall|t2: int| ka.count(t2, e) == kb.count(t2, e) by {}
            lemma_expansion_ext(ka, kb, a.last().scatter@, t, e);
            assert(layers_expansion(a.drop_last(), t, e) == layers_expansion(b.drop_last(), t, e));
        }
        assert(ka.total() == kb.total());
    }
}

/// A greedy peeling carries over to equivalent layers.
proof fn lemma_greedy_peeling_equiv<E>(source: TpPlane<E>, a: Seq<Layer<E>>, b: Seq<Layer<E>>)
    requires
        layers_equiv(a, b),
        greedy_peeling(source, a),
    ensures
        greedy_peeling(source, b),
{
    reveal(greedy_peeling);
    assert forall|i: int| 0 <= i < b.len() implies #[trigger] greedy_on(b[i].kernel, b[i].scatter@, left_by(source, b.take(i))) by {
        assert(greedy_on(a[i].kernel, a[i].scatter@, left_by(source, a.take(i))));
        lemma_equiv_take(a, b, i);
        lemma_equiv_sums(a.take(i), b.take(i));
        assert(left_by(source, a.take(i)) =~= left_by(source, b.take(i)));
        assert(a[i].scatter@ == b[i].scatter@ && a[i].kernel.entries() == b[i].kernel.entries());
        reveal(greedy_on);
        assert forall|t: int, e: E| #[trigger] b[i].kernel.count(t, e) == a[i].kernel.count(t, e) by {}
    }
}

/// Peeling `x` greedily off what `base` leaves of `source` continues the
/// greedy peeling of `source` by `base`.
proof fn lemma_greedy_peeling_concat<E>(source: TpPlane<E>, rest: TpPlane<E>, base: Seq<Layer<E>>, x: Seq<Layer<E>>)
    requires
        forall|t: int, e: E| rest.count(t, e) + layers_expansion(base, t, e) == source.count(t, e),
        greedy_peeling(source, base),
        greedy_peeling(rest, x),
    ensures
        greedy_peeling(source, base + x),
{
    reveal(greedy_peeling);
    let p = base + x;
    assert forall|i: int| 0 <= i < p.len() implies #[trigger] greedy_on(p[i].kernel, p[i].scatter@, left_by(source, p.take(i))) by {
        if i < base.len() {
            assert(p.take(i) =~= base.take(i));
            assert(p[i] == base[i]);
            assert(greedy_on(base[i].kernel, base[i].scatter@, left_by(source, base.take(i))));
        } else {
            let j = i - base.len();
            assert(p.take(i) =~= base + x.take(j));
            assert(p[i] == x[j]);
            assert(greedy_on(x[j].kernel, x[j].scatter@, left_by(rest, x.take(j))));
            assert forall|t: int, e: E| #[trigger] left_by(rest, x.take(j))(t, e) == left_by(source, base + x.take(j))(t, e) by {
                lemma_layers_expansion_concat(base, x.take(j), t, e);
            }
            assert(left_by(rest, x.take(j)) =~= left_by(source, base + x.take(j)));
        }
    }
}

/// A peeling carries over to equivalent layers.
proof fn lemma_equiv_peeling<E>(source: TpPlane<E>, a: Seq<Layer<E>>, b: Seq<Layer<E>>)
    requires
        layers_equiv(a, b),
        is_peeling(source, a),
    ensures
        is_peeling(source, b),
{
    assert forall|i: int| 0 <= i < b.len() implies #[trigger] layer_fits(source, b.take(i), b[i]) by {
        assert(layer_fits(source, a.take(i), a[i]));
        lemma_equiv_take(a, b, i);
        lemma_equiv_sums(a.take(i), b.take(i));
        assert(a[i].scatter@ == b[i].scatter@ && a[i].kernel.entries() == b[i].kernel.entries());
        assert forall|t: int, e: E| #[trigger] expansion_count(b[i].kernel, b[i].scatter@, t, e) == expansion_count(
            a[i].kernel,
            a[i].scatter@,
            t,
            e,
        ) by {
            lemma_expansion_ext(a[i].kernel, b[i].kernel, a[i].scatter@, t, e);
        }
        assert forall|x: int, e: E| #[trigger] layer_used_up(source, b.take(i), b[i], x, e) by {
            assert(layer_used_up(source, a.take(i), a[i], x, e));
            let q = choose|q: int|
                #![trigger a[i].scatter@[q]]
                0 <= q < a[i].scatter@.len() && expansion_count(a[i].kernel, a[i].scatter@, x + a[i].scatter@[q], e)
                    + layers_expansion(a.take(i), x + a[i].scatter@[q], e) == source.count(x + a[i].scatter@[q], e);
            assert(b[i].scatter@[q] == a[i].scatter@[q]);
            assert(expansion_count(b[i].kernel, b[i].scatter@, x + b[i].scatter@[q], e) == expansion_count(
                a[i].kernel,
                a[i].scatter@,
                x + a[i].scatter@[q],
                e,
            ));
        }
    }
}

/// A copy of the layers.
fn copy_layers<E: Event>(layers: &Vec<Layer<E>>) -> (r: Vec<Layer<E>>)
    ensures
        layers_equiv(r@, layers@),
{
    let mut out: Vec<Layer<E>> = Vec::new();
    let mut i: usize = 0;
    while i < layers.len()
        invariant
            i <= layers@.len(),
            out@.len() == i,
            forall|q: int|
                0 <= q < i ==> (#[trigger] out@[q]).scatter@ == layers@[q].scatter@ && out@[q].kernel.entries()
                    == layers@[q].kernel.entries(),
        decreases layers@.len() - i,
    {
        let scatter = layers[i].scatter.clone();
        let kernel = layers[i].kernel.duplicate_plane();
        proof {
            assert(scatter@ =~= layers@[i as int].scatter@);
        }
        out.push(Layer { scatter, kernel });
        i = i + 1;
    }
    out
}

/// The entries `(d, support)` of a support plane, ordered by ascending `d`.
/// Each key of the first `k` entries of `es` is the offset of some pair of
/// `out`.
#[verifier::opaque]
spec fn lists_keys(out: Seq<(Tick, usize)>, es: Seq<(Tick, (), usize)>, k: int) -> bool {
    forall|q: int|
        #![trigger es[q]]
        0 <= q < k ==> exists|i: int| 0 <= i < out.len() && #[trigger] out[i].0 == es[q].0
}

fn sorted_supports(sup: &TpPlane<()>) -> (r: Vec<(Tick, usize)>)
    requires
        sup.wf(),
    ensures
        r@.len() == sup.entries().len(),
        forall|i: int| 0 <= i < r@.len() ==> #[trigger] sup.count(r@[i].0 as int, ()) == r@[i].1,
        forall|i: int, j: int| 0 <= i < j < r@.len() ==> r@[i].0 < r@[j].0,
        lists_keys(r@, sup.entries(), sup.entries().len() as int),
{
    let mut out: Vec<(Tick, usize)> = Vec::new();
    let mut k: usize = 0;
    proof {
        assert(lists_keys(out@, sup.entries(), 0)) by {
            reveal(lists_keys);
        }
    }
    while k < sup.len()
        invariant
            sup.wf(),
            k <= sup.entries().len(),
            out@.len() == k,
            forall|i: int| 0 <= i < out@.len() ==> #[trigger] sup.count(out@[i].0 as int, ()) == out@[i].1,
            forall|i: int| #![trigger out@[i]] 0 <= i < out@.len() ==> exists|q: int| 0 <= q < k && #[trigger] sup.entries()[q].0 == out@[i].0,
            forall|i: int, j: int| 0 <= i < j < out@.len() ==> out@[i].0 < out@[j].0,
            lists_keys(out@, sup.entries(), k as int),
        decreases sup.entries().len() - k,
    {
        let (d, _unit, v) = sup.entry_at(k);
        proof {
            sup.lemma_entry_count(k as int);
        }
        let mut p: usize = 0;
        while p < out.len() && out[p].0 < d
            invariant
                p <= out@.len(),
                forall|i: int| 0 <= i < p ==> out@[i].0 < d,
            decreases out@.len() - p,
        {
            p = p + 1;
        }
        proof {
            assert forall|i: int| 0 <= i < out@.len() implies out@[i].0 != d by {
                let q = choose|q: int| 0 <= q < k && #[trigger] sup.entries()[q].0 == out@[i].0;
                assert(!(sup.entries()[q].0 == sup.entries()[k as int].0 && sup.entries()[q].1
                    == sup.entries()[k as int].1));
            }
            if p < out@.len() {
                assert forall|i: int| p <= i < out@.len() implies out@[i].0 > d by {
                    if i > p {
                        assert(out@[p as int].0 < out@[i].0);
                    }
                }
            }
        }
        let ghost old_out = out@;
        out.insert(p, (d, v));
        proof {
            assert(lists_keys(out@, sup.entries(), k + 1)) by {
                reveal(lists_keys);
                assert forall|q: int| #![trigger sup.entries()[q]] 0 <= q < k + 1 implies exists|i: int| 0 <= i < out@.len() && #[trigger] out@[i].0 == sup.entries()[q].0 by {
                    if q == k {
                        assert(out@[p as int].0 == sup.entries()[q].0);
                    } else {
                        let i = choose|i: int| 0 <= i < old_out.len() && #[trigger] old_out[i].0 == sup.entries()[q].0;
                        if i < p {
                            assert(out@[i] == old_out[i]);
                        } else {
                            assert(out@[i + 1] == old_out[i]);
                        }
                    }
                }
            }
            assert forall|i: int| 0 <= i < out@.len() implies #[trigger] sup.count(out@[i].0 as int, ()) == out@[i].1 by {
                if i < p {
                    assert(out@[i] == old_out[i]);
                } else if i > p {
                    assert(out@[i] == old_out[i - 1]);
                }
            }
            assert forall|i: int| #![trigger out@[i]] 0 <= i < out@.len() implies exists|q: int| 0 <= q < k + 1 && #[trigger] sup.entries()[q].0 == out@[i].0 by {
                if i < p {
                    assert(out@[i] == old_out[i]);
                } else if i > p {
                    assert(out@[i] == old_out[i - 1]);
                } else {
                    assert(sup.entries()[k as int].0 == out@[i].0);
                }
            }
            assert forall|i: int, j: int| 0 <= i < j < out@.len() implies out@[i].0 < out@[j].0 by {
                if j < p {
                    assert(out@[i] == old_out[i] && out@[j] == old_out[j]);
                } else if j == p {
                    assert(out@[i] == old_out[i]);
                } else if i < p {
                    assert(out@[i] == old_out[i] && out@[j] == old_out[j - 1]);
                    assert(old_out[i].0 < d);
                } else if i == p {
                    assert(out@[j] == old_out[j - 1]);
                } else {
                    assert(out@[i] == old_out[i - 1] && out@[j] == old_out[j - 1]);
                }
            }
        }
        k = k + 1;
    }
    out
}

/// A candidate layer on `work`: an observed progression with its feasible
/// kernel and positive gain.
pub open spec fn cand_ok<E>(c: (Vec<Tick>, usize, TpPlane<E>), work: TpPlane<E>, max_len: int) -> bool {
    &&& observed_ap(c.0@, work, max_len)
    &&& is_feasible_kernel(c.2, c.0@, work)
    &&& plane_le(c.2, work)
    &&& c.2.total() * c.0@.len() <= work.total()
    &&& c.1 == c.2.total() * (c.0@.len() - 1)
    &&& c.1 > 0
}

/// Every shift of `(a, e)` by an offset of `s` is a point of `m`.
pub open spec fn full_at<E>(m: TpPlane<E>, s: Seq<Tick>, a: int, e: E) -> bool {
    forall|i: int| 0 <= i < s.len() ==> #[trigger] m.count(a + s[i], e) > 0
}

/// A capacity-safe kernel that no further anchor can extend is empty
/// exactly where no point of the source has all its shifts in the source.
pub proof fn lemma_feasible_nonempty<E>(k: TpPlane<E>, s: Seq<Tick>, m: TpPlane<E>)
    requires
        is_feasible_kernel(k, s, m),
    ensures
        k.total() > 0 <==> exists|a: int, e: E| #[trigger] full_at(m, s, a, e),
{
    k.lemma_total_zero();
    if k.total() > 0 {
        let x = k.entries()[0];
        k.lemma_entry_count(0);
        let a = x.0 as int;
        let e = x.1;
        assert forall|i: int| 0 <= i < s.len() implies #[trigger] m.count(a + s[i], e) > 0 by {
            lemma_expansion_shift_ge(k, s, i, a + s[i], e);
            assert(a + s[i] - s[i] == a);
            assert(expansion_count(k, s, a + s[i], e) <= m.count(a + s[i], e));
        }
        assert(full_at(m, s, a, e));
    } else {
        if exists|a: int, e: E| #[trigger] full_at(m, s, a, e) {
            let (a, e) = choose|a: int, e: E| #[trigger] full_at(m, s, a, e);
            assert forall|t2: int| k.count(t2, e) == 0 by {
                assert(k.entries().len() == 0);
            }
            assert(used_up(k, s, m, a, e));
            let i = choose|i: int|
                #![trigger s[i]]
                0 <= i < s.len() && expansion_count(k, s, a + s[i], e) == m.count(a + s[i], e);
            lemma_expansion_zero(k, s, a + s[i], e);
            assert(m.count(a + s[i], e) > 0);
        }
    }
}

/// The AP layer of length `n` at spacing `d` on `work`, if its kernel is
/// not empty.
#[verifier::spinoff_prover]
fn spacing_candidate<E: Event>(work: &TpPlane<E>, d: Tick, n: usize, max_len: usize) -> (r: Option<
    (Vec<Tick>, usize, TpPlane<E>),
>)
    requires
        work.wf(),
        work.total() <= usize::MAX,
        ticks_fit(*work, max_len as int),
        d > 0,
        exists|u: int, f: E| work.count(u, f) > 0 && #[trigger] work.count(u + d, f) > 0,
        2 <= n <= max_len,
    ensures
        r matches Some(c) ==> cand_ok(c, *work, max_len as int) && c.0@ == ap(n as nat, d as int),
        r is Some <==> exists|a: int, e: E| #[trigger] full_at(*work, ap(n as nat, d as int), a, e),
{
    proof {
        assert((n - 1) * d <= u32::MAX && forall|t: int, e: E| work.count(t, e) > 0 ==> t + (n - 1) * d <= u32::MAX) by {
            let (u, f) = choose|u: int, f: E| work.count(u, f) > 0 && #[trigger] work.count(u + d, f) > 0;
            work.lemma_present(u, f);
            assert(work.count(u, f) > 0 && work.count(u + d, f) > 0);
            assert(u + (max_len - 1) * ((u + d) - u) <= u32::MAX);
            assert((n - 1) * d <= (max_len - 1) * d) by (nonlinear_arith)
                requires
                    n <= max_len,
                    d > 0,
            ;
            assert forall|t: int, e: E| work.count(t, e) > 0 implies t + (n - 1) * d <= u32::MAX by {
                assert(work.count(t, e) > 0 && work.count(u, f) > 0 && work.count(u + d, f) > 0);
                assert(t + (max_len - 1) * ((u + d) - u) <= u32::MAX);
            }
        }
    }
    let (scatter, kernel, expansion) = ap_candidate(work, n, d);
    proof {
        assert(kernel.total() <= kernel.total() * n) by (nonlinear_arith)
            requires
                n >= 2,
        ;
        assert(kernel.total() * (n - 1) <= kernel.total() * n) by (nonlinear_arith);
    }
    let gain = kernel.values_sum() * (n - 1);
    proof {
        assert((kernel.total() > 0) == (exists|a: int, e: E| #[trigger] full_at(*work, ap(n as nat, d as int), a, e))) by {
            lemma_feasible_nonempty(kernel, scatter@, *work);
        }
        assert((gain > 0) == (kernel.total() > 0)) by (nonlinear_arith)
            requires
                gain == kernel.total() * (n - 1),
                n >= 2,
        ;
    }
    if gain > 0 {
        proof {
            assert(scatter@[1] == d);
            assert(observed_ap(scatter@, *work, max_len as int));
        }
        Some((scatter, gain, kernel))
    } else {
        None
    }
}

/// `m` is the largest support over the positive offsets.
pub open spec fn is_max_support<E>(work: TpPlane<E>, m: int) -> bool {
    &&& forall|d: int| d > 0 ==> #[trigger] support(work, d) <= m
    &&& exists|d: int| d > 0 && #[trigger] support(work, d) == m
}

/// The progression of `n` ticks `d` apart is a candidate layer on `work`
/// against the support threshold `thr`: the offset's support exceeds it,
/// the length is from 2 to `max_len`, and some point of `work` has all its
/// shifts along the progression in `work`.
pub open spec fn candidate_at<E>(work: TpPlane<E>, d: int, n: int, thr: int, max_len: int) -> bool {
    &&& d > 0
    &&& support(work, d) > thr
    &&& 2 <= n <= max_len
    &&& exists|a: int, e: E| #[trigger] full_at(work, ap(n as nat, d), a, e)
}

/// The offset and length of a candidate's progression.
pub open spec fn cand_key<E>(c: (Vec<Tick>, usize, TpPlane<E>)) -> (int, int) {
    (c.0@[1] as int, c.0@.len() as int)
}

/// The candidates come by ascending offset, and for one offset by
/// descending length.
pub open spec fn cands_ordered<E>(c: Seq<(Vec<Tick>, usize, TpPlane<E>)>) -> bool {
    forall|i: int, j: int|
        0 <= i < j < c.len() ==> cand_key(#[trigger] c[i]).0 < cand_key(#[trigger] c[j]).0 || (cand_key(c[i]).0
            == cand_key(c[j]).0 && cand_key(c[i]).1 > cand_key(c[j]).1)
}

/// The candidates are exactly the progressions that are candidates against
/// the threshold `thr`, each a fitting layer.
pub open spec fn cands_exact<E>(c: Seq<(Vec<Tick>, usize, TpPlane<E>)>, work: TpPlane<E>, thr: int, max_len: int) -> bool {
    &&& forall|i: int|
        0 <= i < c.len() ==> #[trigger] cand_ok(c[i], work, max_len) && candidate_at(
            work,
            cand_key(c[i]).0,
            cand_key(c[i]).1,
            thr,
            max_len,
        )
    &&& forall|d: int, n: int|
        #[trigger] candidate_at(work, d, n, thr, max_len) ==> exists|i: int|
            0 <= i < c.len() && #[trigger] cand_key(c[i]) == (d, n)
}

/// The candidate layers on `work`: for each offset whose support exceeds
/// `max_support / (max_len - 1)` (ascending), each AP length from `max_len`
/// down to 2 whose kernel is not empty, with its gain and kernel.
#[verifier::spinoff_prover]
#[verifier::rlimit(30)]
fn path_candidates<E: Event>(work: &TpPlane<E>, max_len: usize) -> (r: Vec<(Vec<Tick>, usize, TpPlane<E>)>)
    requires
        work.wf(),
        work.total() <= usize::MAX,
        ticks_fit(*work, max_len as int),
        max_len >= 2,
    ensures
        forall|i: int| 0 <= i < r@.len() ==> #[trigger] cand_ok(r@[i], *work, max_len as int),
        max_len <= 2 ==> r@.len() == 0,
        exists|m: int| is_max_support(*work, m) && cands_exact(r@, *work, m / (max_len - 1), max_len as int),
        cands_ordered(r@),
        max_len >= 3 && !no_pair(*work) ==> r@.len() > 0,
{
    let mut cand: Vec<(Vec<Tick>, usize, TpPlane<E>)> = Vec::new();
    proof {
        assert forall|d: int| support(*work, d) <= usize::MAX by {
            lemma_support_le_total(*work, d);
        }
    }
    let sup = support_plane(work);
    if sup.len() == 0 {
        proof {
            if max_len >= 3 && !no_pair(*work) {
                let (t, u, e) = choose|t: int, u: int, e: E| #[trigger] work.count(t, e) > 0 && #[trigger] work.count(u, e) > 0 && t != u;
                if t < u {
                    lemma_pair_support(*work, t, u, e);
                    sup.lemma_absent(u - t, ());
                } else {
                    lemma_pair_support(*work, u, t, e);
                    sup.lemma_absent(t - u, ());
                }
            }
            assert forall|d: int| d > 0 implies #[trigger] support(*work, d) <= 0 by {
                assert(sup.count(d, ()) == 0);
            }
            assert(sup.count(1, ()) == 0);
            assert(is_max_support(*work, 0));
            assert(cands_exact(cand@, *work, 0int / (max_len - 1), max_len as int));
        }
        return cand;
    }
    let max_support = max_count(&sup);
    let threshold = max_support / (max_len - 1);
    proof {
        if max_len == 2 {
            assert(threshold == max_support) by (nonlinear_arith)
                requires
                    max_len == 2,
                    threshold == max_support / ((max_len - 1) as usize),
            ;
        }
        assert(threshold == max_support as int / (max_len - 1));
        assert(is_max_support(*work, max_support as int)) by {
            assert forall|d: int| d > 0 implies #[trigger] support(*work, d) <= max_support by {
                if support(*work, d) > 0 {
                    assert(sup.count(d, ()) > 0);
                    sup.lemma_present(d, ());
                    let q = choose|q: int|
                        0 <= q < sup.entries().len() && sup.entries()[q].0 as int == d && sup.entries()[q].1 == ();
                    sup.lemma_entry_count(q);
                }
            }
            let q = choose|q: int| 0 <= q < sup.entries().len() && sup.entries()[q].2 == max_support;
            sup.lemma_entry_count(q);
            let d = sup.entries()[q].0 as int;
            assert(sup.count(d, ()) == max_support);
            assert(max_support > 0);
            assert(d > 0);
            assert(support(*work, d) == max_support);
        }
    }
    let offsets = sorted_supports(&sup);
    let ghost thr = threshold as int;
    let ghost ml = max_len as int;
    let mut k: usize = 0;
    while k < offsets.len()
        invariant
            max_len == 2 ==> threshold == max_support,
            max_len == 2 ==> cand@.len() == 0,
            forall|q: int| 0 <= q < sup.entries().len() ==> sup.entries()[q].2 <= max_support,
            work.wf(),
            work.total() <= usize::MAX,
            ticks_fit(*work, max_len as int),
            max_len >= 2,
            thr == threshold,
            ml == max_len,
            sup.wf(),
            forall|d: int| sup.count(d, ()) == (if d > 0 { support(*work, d) } else { 0 }),
            forall|i: int| 0 <= i < offsets@.len() ==> #[trigger] sup.count(offsets@[i].0 as int, ()) == offsets@[i].1,
            forall|i: int, j: int| 0 <= i < j < offsets@.len() ==> offsets@[i].0 < offsets@[j].0,
            k <= offsets@.len(),
            forall|i: int| 0 <= i < cand@.len() ==> #[trigger] cand_ok(cand@[i], *work, max_len as int),
            forall|i: int|
                0 <= i < cand@.len() ==> candidate_at(*work, cand_key(#[trigger] cand@[i]).0, cand_key(cand@[i]).1, thr, ml),
            forall|i: int|
                0 <= i < cand@.len() ==> exists|q: int| 0 <= q < k && #[trigger] offsets@[q].0 == cand_key(#[trigger] cand@[i]).0,
            forall|q: int, n2: int|
                0 <= q < k && #[trigger] candidate_at(*work, offsets@[q].0 as int, n2, thr, ml) ==> exists|i: int|
                    0 <= i < cand@.len() && #[trigger] cand_key(cand@[i]) == (offsets@[q].0 as int, n2),
            cands_ordered(cand@),
        decreases offsets@.len() - k,
    {
        let (d, v) = offsets[k];
        proof {
            assert(sup.count(d as int, ()) == v);
            if v > 0 {
                sup.lemma_present(d as int, ());
                let q = choose|q: int|
                    0 <= q < sup.entries().len() && sup.entries()[q].0 as int == d as int && sup.entries()[q].1 == ();
                sup.lemma_entry_count(q);
            }
        }
        let ghost before = cand@;
        if v > threshold {
            proof {
                assert(d > 0 && support(*work, d as int) > 0);
                lemma_support_witness(*work, d as int);
            }
            let mut n: usize = max_len;
            while n >= 2
                invariant
                    work.wf(),
                    work.total() <= usize::MAX,
                    ticks_fit(*work, max_len as int),
                    d > 0,
                    d == offsets@[k as int].0,
                    k < offsets@.len(),
                    support(*work, d as int) > thr,
                    exists|u: int, f: E| work.count(u, f) > 0 && #[trigger] work.count(u + d, f) > 0,
                    n <= max_len,
                    ml == max_len,
                    forall|i: int, j: int| 0 <= i < j < offsets@.len() ==> offsets@[i].0 < offsets@[j].0,
                    forall|i: int| 0 <= i < cand@.len() ==> #[trigger] cand_ok(cand@[i], *work, max_len as int),
                    forall|i: int|
                        0 <= i < cand@.len() ==> candidate_at(*work, cand_key(#[trigger] cand@[i]).0, cand_key(cand@[i]).1, thr, ml),
                    forall|i: int|
                        0 <= i < cand@.len() ==> cand_key(#[trigger] cand@[i]).0 == d || exists|q: int|
                            0 <= q < k && #[trigger] offsets@[q].0 == cand_key(cand@[i]).0,
                    forall|i: int| 0 <= i < cand@.len() && cand_key(#[trigger] cand@[i]).0 == d ==> cand_key(cand@[i]).1 > n,
                    cand@.len() >= before.len(),
                    forall|i: int| 0 <= i < before.len() ==> #[trigger] cand@[i] == before[i],
                    forall|i: int| before.len() <= i < cand@.len() ==> cand_key(#[trigger] cand@[i]).0 == d,
                    forall|n2: int|
                        n < n2 <= max_len && #[trigger] candidate_at(*work, d as int, n2, thr, ml) ==> exists|i: int|
                            0 <= i < cand@.len() && #[trigger] cand_key(cand@[i]) == (d as int, n2),
                    cands_ordered(cand@),
                decreases n,
            {
                let ghost pre = cand@;
                let co = spacing_candidate(work, d, n, max_len);
                proof {
                    if candidate_at(*work, d as int, n as int, thr, ml) {
                        let (a, e) = choose|a: int, e: E| #[trigger] full_at(*work, ap((n as int) as nat, d as int), a, e);
                        assert(full_at(*work, ap(n as nat, d as int), a, e));
                    }
                }
                if let Some(c) = co {
                    proof {
                        assert(co is Some);
                        let (a, e) = choose|a: int, e: E| #[trigger] full_at(*work, ap(n as nat, d as int), a, e);
                        let ni: int = n as int;
                        let di: int = d as int;
                        assert(ap(n as nat, d as int) == ap(ni as nat, di));
                        assert(full_at(*work, ap(ni as nat, di), a, e));
                        assert(candidate_at(*work, di, ni, thr, ml));
                    }
                    cand.push(c);
                    proof {
                        let l = cand@.len() - 1;
                        assert(cand@[l] == c);
                        assert(c.0@ == ap(n as nat, d as int));
                        assert(cand_key(c) == (d as int, n as int));
                        assert(candidate_at(*work, d as int, n as int, thr, ml));
                        assert forall|i: int| 0 <= i < pre.len() implies #[trigger] cand@[i] == pre[i] by {}
                        assert forall|i: int, j: int| 0 <= i < j < cand@.len() implies cand_key(#[trigger] cand@[i]).0 < cand_key(
                            #[trigger] cand@[j],
                        ).0 || (cand_key(cand@[i]).0 == cand_key(cand@[j]).0 && cand_key(cand@[i]).1 > cand_key(cand@[j]).1) by {
                            if j == l {
                                assert(cand@[i] == pre[i]);
                                if cand_key(pre[i]).0 != d {
                                    let q = choose|q: int| 0 <= q < k && #[trigger] offsets@[q].0 == cand_key(pre[i]).0;
                                    assert(offsets@[q].0 < offsets@[k as int].0);
                                }
                            } else {
                                assert(cand@[i] == pre[i] && cand@[j] == pre[j]);
                            }
                        }
                    }
                }
                proof {
                    assert forall|n2: int|
                        n - 1 < n2 <= max_len && #[trigger] candidate_at(*work, d as int, n2, thr, ml) implies exists|i: int|
                        0 <= i < cand@.len() && #[trigger] cand_key(cand@[i]) == (d as int, n2) by {
                        if n2 == n {
                            assert(cand_key(cand@[cand@.len() - 1]) == (d as int, n2));
                        } else {
                            let i = choose|i: int| 0 <= i < pre.len() && #[trigger] cand_key(pre[i]) == (d as int, n2);
                            assert(cand@[i] == pre[i]);
                        }
                    }
                }
                n = n - 1;
            }
        }
        proof {
            assert forall|i: int| 0 <= i < cand@.len() implies exists|q: int| 0 <= q < k + 1 && #[trigger] offsets@[q].0 == cand_key(
                #[trigger] cand@[i],
            ).0 by {
                if cand_key(cand@[i]).0 == d {
                    assert(offsets@[k as int].0 == cand_key(cand@[i]).0);
                } else {
                    assert(i < before.len());
                    assert(cand@[i] == before[i]);
                    let q = choose|q: int| 0 <= q < k && #[trigger] offsets@[q].0 == cand_key(before[i]).0;
                }
            }
            assert forall|q: int, n2: int|
                0 <= q < k + 1 && #[trigger] candidate_at(*work, offsets@[q].0 as int, n2, thr, ml) implies exists|i: int|
                0 <= i < cand@.len() && #[trigger] cand_key(cand@[i]) == (offsets@[q].0 as int, n2) by {
                if q < k {
                    let i = choose|i: int| 0 <= i < before.len() && #[trigger] cand_key(before[i]) == (offsets@[q].0 as int, n2);
                    assert(cand@[i] == before[i]);
                } else {
                    assert(support(*work, d as int) == v);
                }
            }
        }
        k = k + 1;
    }
    proof {
        assert forall|dd: int, n2: int| #[trigger] candidate_at(*work, dd, n2, thr, ml) implies exists|i: int|
            0 <= i < cand@.len() && #[trigger] cand_key(cand@[i]) == (dd, n2) by {
            assert(sup.count(dd, ()) > 0);
            sup.lemma_present(dd, ());
            let q = choose|q: int| 0 <= q < sup.entries().len() && sup.entries()[q].0 as int == dd && sup.entries()[q].1 == ();
            reveal(lists_keys);
            assert(sup.entries()[q] == sup.entries()[q]);
            let i = choose|i: int| 0 <= i < offsets@.len() && #[trigger] offsets@[i].0 == sup.entries()[q].0;
            assert(candidate_at(*work, offsets@[i].0 as int, n2, thr, ml));
        }
        assert(cands_exact(cand@, *work, max_support as int / (max_len - 1), max_len as int));
        if max_len >= 3 && !no_pair(*work) {
            lemma_pair_candidate(*work, max_support as int, max_len as int);
            let (dd, n2) = choose|dd: int, n2: int| #[trigger] candidate_at(*work, dd, n2, thr, ml);
            assert(candidate_at(*work, dd, n2, thr, ml));
        }
    }
    cand
}

/// Where a pair of points of one event is left, the spacing of largest
/// support gives a candidate of length 2 against any threshold below it.
proof fn lemma_pair_candidate<E>(work: TpPlane<E>, m: int, max_len: int)
    requires
        work.wf(),
        is_max_support(work, m),
        max_len >= 3,
        !no_pair(work),
    ensures
        exists|dd: int, n2: int| #[trigger] candidate_at(work, dd, n2, m / (max_len - 1), max_len),
{
    let (t, u, e) = choose|t: int, u: int, e: E| #[trigger] work.count(t, e) > 0 && #[trigger] work.count(u, e) > 0 && t != u;
    if t < u {
        lemma_pair_support(work, t, u, e);
        assert(support(work, u - t) > 0);
    } else {
        lemma_pair_support(work, u, t, e);
        assert(support(work, t - u) > 0);
    }
    assert(m >= 1);
    let d = choose|d: int| d > 0 && #[trigger] support(work, d) == m;
    assert(m / (max_len - 1) < m) by (nonlinear_arith)
        requires
            max_len >= 3,
            m >= 1,
    ;
    lemma_support_witness(work, d);
    let (a, f) = choose|a: int, f: E| work.count(a, f) > 0 && #[trigger] work.count(a + d, f) > 0;
    work.lemma_present(a + d, f);
    let q = choose|q: int| 0 <= q < work.entries().len() && work.entries()[q].0 as int == a + d && work.entries()[q].1 == f;
    work.lemma_present(a, f);
    let q2 = choose|q2: int| 0 <= q2 < work.entries().len() && work.entries()[q2].0 as int == a && work.entries()[q2].1 == f;
    assert(a + d <= u32::MAX && a >= 0);
    let n2: int = 2;
    let s = ap(n2 as nat, d);
    assert(s[0] == 0 && s[1] == d);
    assert(full_at(work, s, a, f)) by {
        assert forall|i: int| 0 <= i < s.len() implies #[trigger] work.count(a + s[i], f) > 0 by {
            if i == 1 {
                assert(a + s[i] == a + d);
            }
        }
    }
    assert(candidate_at(work, d, n2, m / (max_len - 1), max_len));
}

// The beam search, as a relation
//
// ++++++++++++============++++++++++++============++++++++++++============

/// `r` is `s` reordered by `perm` (`r[i] == s[perm[i]]`), by descending
/// `key`, equal keys keeping their order in `s`.
pub open spec fn sorts_by<A>(s: Seq<A>, key: spec_fn(A) -> int, r: Seq<A>, perm: Seq<int>) -> bool {
    &&& perm.len() == s.len()
    &&& r.len() == s.len()
    &&& forall|i: int| 0 <= i < r.len() ==> 0 <= #[trigger] perm[i] < s.len() && r[i] == s[perm[i]]
    &&& forall|i: int, j: int| 0 <= i < j < r.len() ==> #[trigger] perm[i] != #[trigger] perm[j]
    &&& forall|i: int, j: int|
        #![trigger r[i], r[j]]
        0 <= i < j < r.len() ==> key(r[i]) > key(r[j]) || (key(r[i]) == key(r[j]) && perm[i] < perm[j])
}

/// `r` is the stable sort of `s` by descending `key`.
pub open spec fn stable_desc<A>(s: Seq<A>, key: spec_fn(A) -> int, r: Seq<A>) -> bool {
    exists|perm: Seq<int>| #[trigger] sorts_by(s, key, r, perm)
}

/// The gain of a candidate `(offsets, gain, kernel)`.
pub open spec fn cand_gain<E>() -> spec_fn((Vec<Tick>, usize, TpPlane<E>)) -> int {
    |c: (Vec<Tick>, usize, TpPlane<E>)| c.1 as int
}

/// The accumulated gain of a beam path `(layers, work, acc)`.
pub open spec fn path_acc<E>() -> spec_fn((Seq<Layer<E>>, TpPlane<E>, int)) -> int {
    |p: (Seq<Layer<E>>, TpPlane<E>, int)| p.2
}

/// The smaller of `beam` and `n`.
pub open spec fn keep_count(beam: int, n: int) -> int {
    if beam < n {
        beam
    } else {
        n
    }
}

/// The sequences of `s`, one after the other.
pub open spec fn concat_all<A>(s: Seq<Seq<A>>) -> Seq<A>
    decreases s.len(),
{
    if s.len() == 0 {
        Seq::empty()
    } else {
        concat_all(s.drop_last()) + s.last()
    }
}

/// The beam path `q` is `p` extended by the candidate `c`: its layers add
/// `c`'s layer, its work loses `c`'s expansion, its gain adds `c`'s.
pub open spec fn extends_by<E>(
    p: (Seq<Layer<E>>, TpPlane<E>, int),
    c: (Vec<Tick>, usize, TpPlane<E>),
    q: (Seq<Layer<E>>, TpPlane<E>, int),
) -> bool {
    &&& layers_equiv(q.0, p.0.push(Layer { scatter: c.0, kernel: c.2 }))
    &&& forall|t: int, e: E| #[trigger] q.1.count(t, e) + expansion_count(c.2, c.0@, t, e) == p.1.count(t, e)
    &&& q.2 == p.2 + c.1
}

/// `c` is the candidate list of `work`: the candidate progressions against
/// the support threshold, in their order.
pub open spec fn candidate_list<E>(c: Seq<(Vec<Tick>, usize, TpPlane<E>)>, work: TpPlane<E>, max_len: int) -> bool {
    &&& exists|m: int| is_max_support(work, m) && #[trigger] cands_exact(c, work, m / (max_len - 1), max_len)
    &&& cands_ordered(c)
}

/// `kids` are the extensions of the beam path `p`: by the first `beam` of
/// its candidates taken by descending gain (stable).
pub open spec fn beam_children<E>(
    p: (Seq<Layer<E>>, TpPlane<E>, int),
    kids: Seq<(Seq<Layer<E>>, TpPlane<E>, int)>,
    beam: int,
    max_len: int,
) -> bool {
    exists|raw: Seq<(Vec<Tick>, usize, TpPlane<E>)>, sorted: Seq<(Vec<Tick>, usize, TpPlane<E>)>|
        #![trigger candidate_list(raw, p.1, max_len), stable_desc(raw, cand_gain(), sorted)]
        candidate_list(raw, p.1, max_len) && stable_desc(raw, cand_gain(), sorted) && kids.len() == keep_count(
            beam,
            sorted.len() as int,
        ) && forall|j: int| 0 <= j < kids.len() ==> #[trigger] extends_by(p, sorted[j], kids[j])
}

/// `next` is the beam level after `level`: the extensions of its paths, in
/// path order, sorted by descending accumulated gain (stable), the first
/// `beam` kept.
pub open spec fn beam_next<E>(
    level: Seq<(Seq<Layer<E>>, TpPlane<E>, int)>,
    next: Seq<(Seq<Layer<E>>, TpPlane<E>, int)>,
    beam: int,
    max_len: int,
) -> bool {
    exists|kids: Seq<Seq<(Seq<Layer<E>>, TpPlane<E>, int)>>, sorted: Seq<(Seq<Layer<E>>, TpPlane<E>, int)>|
        #![trigger stable_desc(concat_all(kids), path_acc(), sorted)]
        kids.len() == level.len() && (forall|i: int| 0 <= i < level.len() ==> #[trigger] beam_children(level[i], kids[i], beam, max_len))
            && stable_desc(concat_all(kids), path_acc(), sorted) && next == sorted.take(keep_count(beam, sorted.len() as int))
}

/// The levels of one beam round on `residual`: from the empty path, each
/// level follows from the one before, and the search stops at the budget
/// or before a level that would be empty. The round commits the first
/// path of the last level.
pub open spec fn beam_round<E>(
    residual: TpPlane<E>,
    levels: Seq<Seq<(Seq<Layer<E>>, TpPlane<E>, int)>>,
    budget: int,
    beam: int,
    max_len: int,
) -> bool {
    &&& levels.len() >= 1
    &&& levels[0].len() == 1
    &&& levels[0][0].0.len() == 0
    &&& levels[0][0].1.entries() == residual.entries()
    &&& levels[0][0].2 == 0
    &&& forall|k: int| 0 <= k < levels.len() - 1 ==> #[trigger] beam_next(levels[k], levels[k + 1], beam, max_len)
    &&& forall|k: int| 0 <= k < levels.len() ==> (#[trigger] levels[k]).len() > 0
    &&& levels.len() - 1 <= budget
    &&& levels.len() - 1 < budget ==> beam_next(levels.last(), Seq::empty(), beam, max_len)
}

/// Round `j` of a beam flow: it starts on what the earlier rounds leave of
/// `source` and commits the layers `plan[pos[j]..pos[j + 1]]`, those of the
/// best path of its beam search.
pub open spec fn beam_round_at<E>(
    source: TpPlane<E>,
    plan: Seq<Layer<E>>,
    pos: Seq<int>,
    rests: Seq<TpPlane<E>>,
    j: int,
    max_len: int,
    max_layers: int,
    beam: int,
) -> bool {
    &&& 0 <= pos[j] < pos[j + 1] <= plan.len()
    &&& forall|t: int, e: E| rests[j].count(t, e) + layers_expansion(plan.take(pos[j]), t, e) == source.count(t, e)
    &&& exists|levels: Seq<Seq<(Seq<Layer<E>>, TpPlane<E>, int)>>|
        #[trigger] beam_round(rests[j], levels, max_layers - pos[j], beam, max_len) && plan.subrange(pos[j], pos[j + 1])
            == levels.last()[0].0
}

/// The plan is made of beam rounds, one after the other.
pub open spec fn beam_rounds<E>(
    source: TpPlane<E>,
    plan: Seq<Layer<E>>,
    pos: Seq<int>,
    rests: Seq<TpPlane<E>>,
    max_len: int,
    max_layers: int,
    beam: int,
) -> bool {
    &&& pos.len() == rests.len() + 1
    &&& pos[0] == 0
    &&& pos[rests.len() as int] == plan.len()
    &&& forall|j: int| 0 <= j < rests.len() ==> #[trigger] beam_round_at(source, plan, pos, rests, j, max_len, max_layers, beam)
}

/// One insertion step of a stable descending sort.
proof fn lemma_insert_sorted<A>(input: Seq<A>, key: spec_fn(A) -> int, k: int, out: Seq<A>, perm: Seq<int>, x: A, p: int)
    requires
        0 <= k < input.len(),
        sorts_by(input.take(k), key, out, perm),
        x == input[k],
        0 <= p <= out.len(),
        forall|i: int| 0 <= i < p ==> key(out[i]) >= key(x),
        forall|i: int| p <= i < out.len() ==> key(out[i]) < key(x),
    ensures
        sorts_by(input.take(k + 1), key, out.insert(p, x), perm.insert(p, k)),
{
    let s1 = input.take(k + 1);
    let r1 = out.insert(p, x);
    let q1 = perm.insert(p, k);
    assert forall|i: int| 0 <= i < r1.len() implies 0 <= #[trigger] q1[i] < s1.len() && r1[i] == s1[q1[i]] by {
        if i < p {
            assert(q1[i] == perm[i] && r1[i] == out[i]);
            assert(out[i] == input.take(k)[perm[i]]);
        } else if i > p {
            assert(q1[i] == perm[i - 1] && r1[i] == out[i - 1]);
            assert(out[i - 1] == input.take(k)[perm[i - 1]]);
        }
    }
    assert forall|i: int, j: int| 0 <= i < j < r1.len() implies #[trigger] q1[i] != #[trigger] q1[j] by {
        if i < p && j < p {
            assert(perm[i] != perm[j]);
        } else if i > p && j > p {
            assert(perm[i - 1] != perm[j - 1]);
        } else if i < p {
            if j == p {
                assert(perm[i] < k);
            } else {
                assert(perm[i] != perm[j - 1]);
            }
        } else {
            assert(perm[j - 1] < k);
        }
    }
    assert forall|i: int, j: int|
        #![trigger r1[i], r1[j]]
        0 <= i < j < r1.len() implies key(r1[i]) > key(r1[j]) || (key(r1[i]) == key(r1[j]) && q1[i] < q1[j]) by {
        if i < p && j < p {
            assert(r1[i] == out[i] && r1[j] == out[j]);
            assert(key(out[i]) > key(out[j]) || (key(out[i]) == key(out[j]) && perm[i] < perm[j]));
        } else if i > p && j > p {
            assert(r1[i] == out[i - 1] && r1[j] == out[j - 1]);
            assert(key(out[i - 1]) > key(out[j - 1]) || (key(out[i - 1]) == key(out[j - 1]) && perm[i - 1] < perm[j - 1]));
        } else if i < p && j == p {
            assert(r1[i] == out[i]);
            assert(perm[i] < k);
        } else if i < p {
            assert(r1[i] == out[i] && r1[j] == out[j - 1]);
            assert(key(out[j - 1]) < key(x));
        } else {
            assert(r1[j] == out[j - 1]);
        }
    }
}

/// Stable sort of the candidates by descending gain.
fn sort_candidates<E>(items: Vec<(Vec<Tick>, usize, TpPlane<E>)>) -> (r: Vec<(Vec<Tick>, usize, TpPlane<E>)>)
    ensures
        r@.len() == items@.len(),
        forall|i: int| 0 <= i < r@.len() ==> items@.contains(#[trigger] r@[i]),
        forall|i: int, j: int| 0 <= i < j < r@.len() ==> r@[i].1 >= r@[j].1,
        stable_desc(items@, cand_gain::<E>(), r@),
{
    let ghost input = items@;
    let mut rest = items;
    let mut out: Vec<(Vec<Tick>, usize, TpPlane<E>)> = Vec::new();
    let ghost mut perm: Seq<int> = Seq::empty();
    let mut k: usize = 0;
    proof {
        assert(input.take(0) =~= Seq::<(Vec<Tick>, usize, TpPlane<E>)>::empty());
    }
    while rest.len() > 0
        invariant
            k <= input.len(),
            rest@ == input.skip(k as int),
            out@.len() == k,
            sorts_by(input.take(k as int), cand_gain::<E>(), out@, perm),
        decreases rest@.len(),
    {
        let x = rest.remove(0);
        proof {
            assert(x == input[k as int]);
            assert(rest@ =~= input.skip(k + 1));
        }
        let mut p: usize = 0;
        while p < out.len() && out[p].1 >= x.1
            invariant
                p <= out@.len(),
                forall|i: int| 0 <= i < p ==> out@[i].1 >= x.1,
            decreases out@.len() - p,
        {
            p = p + 1;
        }
        proof {
            assert forall|i: int| p <= i < out@.len() implies out@[i].1 < x.1 by {
                if i > p {
                    assert(cand_gain::<E>()(out@[p as int]) >= cand_gain::<E>()(out@[i]));
                }
            }
        }
        let ghost old_out = out@;
        out.insert(p, x);
        proof {
            lemma_insert_sorted(input, cand_gain::<E>(), k as int, old_out, perm, x, p as int);
            perm = perm.insert(p as int, k as int);
        }
        k = out.len();
    }
    proof {
        assert(input.take(k as int) =~= input);
        assert forall|i: int| 0 <= i < out@.len() implies input.contains(#[trigger] out@[i]) by {
            assert(out@[i] == input[perm[i]]);
        }
        assert forall|i: int, j: int| 0 <= i < j < out@.len() implies out@[i].1 >= out@[j].1 by {
            assert(cand_gain::<E>()(out@[i]) > cand_gain::<E>()(out@[j]) || cand_gain::<E>()(out@[i]) == cand_gain::<E>()(out@[j]));
        }
    }
    out
}

/// The accumulated gain of a path, as a sort key.
spec fn path_key<E>() -> spec_fn(Path<E>) -> int {
    |p: Path<E>| p.acc as int
}

/// Stable sort of the paths by descending accumulated gain.
fn sort_paths<E>(items: Vec<Path<E>>) -> (r: Vec<Path<E>>)
    ensures
        r@.len() == items@.len(),
        forall|i: int| 0 <= i < r@.len() ==> items@.contains(#[trigger] r@[i]),
        forall|i: int, j: int| 0 <= i < j < r@.len() ==> r@[i].acc >= r@[j].acc,
        stable_desc(items@, path_key::<E>(), r@),
{
    let ghost input = items@;
    let mut rest = items;
    let mut out: Vec<Path<E>> = Vec::new();
    let ghost mut perm: Seq<int> = Seq::empty();
    let mut k: usize = 0;
    proof {
        assert(input.take(0) =~= Seq::<Path<E>>::empty());
    }
    while rest.len() > 0
        invariant
            k <= input.len(),
            rest@ == input.skip(k as int),
            out@.len() == k,
            sorts_by(input.take(k as int), path_key::<E>(), out@, perm),
        decreases rest@.len(),
    {
        let x = rest.remove(0);
        proof {
            assert(x == input[k as int]);
            assert(rest@ =~= input.skip(k + 1));
        }
        let mut p: usize = 0;
        while p < out.len() && out[p].acc >= x.acc
            invariant
                p <= out@.len(),
                forall|i: int| 0 <= i < p ==> out@[i].acc >= x.acc,
            decreases out@.len() - p,
        {
            p = p + 1;
        }
        proof {
            assert forall|i: int| p <= i < out@.len() implies out@[i].acc < x.acc by {
                if i > p {
                    assert(path_key::<E>()(out@[p as int]) >= path_key::<E>()(out@[i]));
                }
            }
        }
        let ghost old_out = out@;
        out.insert(p, x);
        proof {
            lemma_insert_sorted(input, path_key::<E>(), k as int, old_out, perm, x, p as int);
            perm = perm.insert(p as int, k as int);
        }
        k = out.len();
    }
    proof {
        assert(input.take(k as int) =~= input);
        assert forall|i: int| 0 <= i < out@.len() implies input.contains(#[trigger] out@[i]) by {
            assert(out@[i] == input[perm[i]]);
        }
        assert forall|i: int, j: int| 0 <= i < j < out@.len() implies out@[i].acc >= out@[j].acc by {
            assert(path_key::<E>()(out@[i]) > path_key::<E>()(out@[j]) || path_key::<E>()(out@[i]) == path_key::<E>()(out@[j]));
        }
    }
    out
}

/// Replays explored steps on the residual: each step's kernel is the
/// feasible kernel of what the steps before leave, its expansion leaves the
/// residual, and the layer joins the plan.
fn replay_steps<E: Event>(
    plan: &mut Vec<Layer<E>>,
    residual: &mut TpPlane<E>,
    total_reuse: &mut usize,
    steps: &Vec<(Vec<Tick>, usize)>,
) -> (r: Ghost<Seq<Layer<E>>>)
    requires
        old(residual).wf(),
        *old(total_reuse) + old(residual).total() <= usize::MAX,
        forall|i: int|
            #![trigger steps@[i]]
            0 <= i < steps@.len() ==> {
                &&& steps@[i].0@.contains(0)
                &&& steps@[i].0@.no_duplicates()
                &&& shifts_fit(*old(residual), steps@[i].0@)
            },
    ensures
        r@.len() == steps@.len(),
        forall|i: int| 0 <= i < steps@.len() ==> (#[trigger] r@[i]).scatter@ == steps@[i].0@,
        final(plan)@ == old(plan)@ + r@,
        final(residual).wf(),
        is_peeling(*old(residual), r@),
        forall|t: int, e: E| final(residual).count(t, e) + layers_expansion(r@, t, e) == old(residual).count(t, e),
        *final(total_reuse) == *old(total_reuse) + plan_reuse(r@),
        *final(total_reuse) + final(residual).total() <= *old(total_reuse) + old(residual).total(),
{
    let ghost rest = *residual;
    let ghost base = plan@;
    let ghost reuse0 = *total_reuse;
    let ghost mut done: Seq<Layer<E>> = Seq::empty();
    let mut i: usize = 0;
    while i < steps.len()
        invariant
            i <= steps@.len(),
            done.len() == i,
            forall|q: int| 0 <= q < i ==> (#[trigger] done[q]).scatter@ == steps@[q].0@,
            plan@ == base + done,
            rest.wf(),
            residual.wf(),
            is_peeling(rest, done),
            forall|t: int, e: E| residual.count(t, e) + layers_expansion(done, t, e) == rest.count(t, e),
            *total_reuse == reuse0 + plan_reuse(done),
            *total_reuse + residual.total() <= reuse0 + rest.total(),
            reuse0 + rest.total() <= usize::MAX,
            forall|q: int|
                #![trigger steps@[q]]
                0 <= q < steps@.len() ==> {
                    &&& steps@[q].0@.contains(0)
                    &&& steps@[q].0@.no_duplicates()
                    &&& shifts_fit(rest, steps@[q].0@)
                },
        decreases steps@.len() - i,
    {
        let scatter = steps[i].0.clone();
        proof {
            assert(scatter@ =~= steps@[i as int].0@);
            assert(steps@[i as int].0@.contains(0));
            assert forall|t: int, e: E, q: int| residual.count(t, e) > 0 && 0 <= q < scatter@.len() implies t
                + scatter@[q] <= u32::MAX by {
                assert(rest.count(t, e) > 0);
            }
            lemma_dedup_props(scatter@);
            residual.lemma_total_mono(rest);
        }
        let kernel = feasible_kernel(residual, scatter.as_slice());
        proof {
            assert(dedup_seq(scatter@) == scatter@);
            assert forall|t: int, e: E| expansion_count(kernel, scatter@, t, e) <= usize::MAX by {
                residual.lemma_count_bounded(t, e);
            }
            assert forall|t: int, e: E, q: int| kernel.count(t, e) > 0 && 0 <= q < scatter@.len() implies t
                + scatter@[q] <= u32::MAX by {
                assert(residual.count(t, e) > 0);
                assert(rest.count(t, e) > 0);
            }
        }
        let expansion = expand(&kernel, scatter.as_slice());
        proof {
            assert(plane_le(expansion, *residual));
            expansion.lemma_total_mono(*residual);
            let n = scatter@.len();
            assert(n >= 1) by {
                assert(scatter@.contains(0));
            }
            assert(kernel.total() * (n - 1) <= kernel.total() * n) by (nonlinear_arith)
                requires
                    n >= 1,
            ;
        }
        let layer = Layer { scatter, kernel };
        let gain = layer.reuse();
        *total_reuse = *total_reuse + gain;
        let next = subtract_exact(residual, &expansion);
        proof {
            lemma_commit_layer(rest, *residual, done, layer, next);
            lemma_peeling_push(rest, done, layer);
            assert(done.push(layer).drop_last() =~= done);
            assert(plan@.push(layer) =~= base + done.push(layer));
            assert forall|q: int| 0 <= q < i + 1 implies (#[trigger] done.push(layer)[q]).scatter@ == steps@[q].0@ by {
                if q < i {
                    assert(done.push(layer)[q] == done[q]);
                }
            }
            done = done.push(layer);
        }
        *residual = next;
        plan.push(layer);
        i = i + 1;
    }
    Ghost(done)
}

/// Extending equivalent copies of a path's layers by a feasible kernel of
/// what they leave peels on, and partitions the residual with the rest.
#[verifier::spinoff_prover]
proof fn lemma_extend_layers<E>(
    residual: TpPlane<E>,
    old_l: Seq<Layer<E>>,
    copy: Seq<Layer<E>>,
    layer: Layer<E>,
    old_work: TpPlane<E>,
    new_work: TpPlane<E>,
    kernel: TpPlane<E>,
    scatter: Seq<Tick>,
)
    requires
        layers_equiv(copy, old_l),
        is_peeling(residual, old_l),
        forall|t: int, e: E| old_work.count(t, e) + layers_expansion(old_l, t, e) == residual.count(t, e),
        is_feasible_kernel(kernel, scatter, old_work),
        layer.scatter@ == scatter,
        layer.kernel.entries() == kernel.entries(),
        scatter.contains(0),
        scatter.no_duplicates(),
        forall|t: int, e: E| new_work.count(t, e) + expansion_count(kernel, scatter, t, e) == old_work.count(t, e),
    ensures
        is_peeling(residual, copy.push(layer)),
        forall|t: int, e: E| new_work.count(t, e) + layers_expansion(copy.push(layer), t, e) == residual.count(t, e),
        plan_reuse(copy.push(layer)) == plan_reuse(old_l) + kernel.total() * (scatter.len() - 1),
{
    assert(layers_equiv(old_l, copy)) by {
        assert forall|i: int| 0 <= i < old_l.len() implies (#[trigger] old_l[i]).scatter@ == copy[i].scatter@
            && old_l[i].kernel.entries() == copy[i].kernel.entries() by {
            assert(copy[i].scatter@ == old_l[i].scatter@);
        }
    }
    lemma_equiv_sums(copy, old_l);
    lemma_equiv_peeling(residual, old_l, copy);
    assert forall|t: int, e: E| #[trigger] expansion_count(layer.kernel, layer.scatter@, t, e) == expansion_count(
        kernel,
        scatter,
        t,
        e,
    ) by {
        lemma_expansion_ext(kernel, layer.kernel, scatter, t, e);
    }
    assert(layer_fits(residual, copy, layer)) by {
        assert forall|t: int, e: E|
            #[trigger] expansion_count(layer.kernel, layer.scatter@, t, e) + layers_expansion(copy, t, e)
                <= residual.count(t, e) by {
            assert(expansion_count(kernel, scatter, t, e) <= old_work.count(t, e));
        }
        assert forall|a: int, e: E| #[trigger] layer_used_up(residual, copy, layer, a, e) by {
            assert(used_up(kernel, scatter, old_work, a, e));
            let q = choose|q: int|
                #![trigger scatter[q]]
                0 <= q < scatter.len() && expansion_count(kernel, scatter, a + scatter[q], e) == old_work.count(
                    a + scatter[q],
                    e,
                );
            assert(old_work.count(a + scatter[q], e) + layers_expansion(old_l, a + scatter[q], e) == residual.count(
                a + scatter[q],
                e,
            ));
            assert(layer.scatter@[q] == scatter[q]);
        }
    }
    lemma_peeling_push(residual, copy, layer);
    let nl = copy.push(layer);
    assert(nl.drop_last() =~= copy);
    assert(nl.last() == layer);
    assert forall|t: int, e: E| new_work.count(t, e) + layers_expansion(nl, t, e) == residual.count(t, e) by {
        assert(layers_expansion(nl, t, e) == layers_expansion(copy, t, e) + expansion_count(layer.kernel, layer.scatter@, t, e));
    }
    assert(layer.kernel.total() == kernel.total());
}

/// The path extended by the layer of offsets `scatter` with `kernel` and
/// its `gain`.
#[verifier::spinoff_prover]
#[verifier::rlimit(100)]
fn extend_path<E: Event>(
    path: &Path<E>,
    scatter: &Vec<Tick>,
    gain: usize,
    kernel: &TpPlane<E>,
    max_len: usize,
    Ghost(residual): Ghost<TpPlane<E>>,
    Ghost(source): Ghost<TpPlane<E>>,
    Ghost(depth): Ghost<int>,
) -> (r: Path<E>)
    requires
        path_ok(*path, residual, source, max_len as int, depth),
        residual.wf(),
        residual.total() <= usize::MAX,
        ticks_fit(path.work, max_len as int),
        observed_ap(scatter@, path.work, max_len as int),
        observed_ap(scatter@, source, max_len as int),
        is_feasible_kernel(*kernel, scatter@, path.work),
        plane_le(*kernel, path.work),
        kernel.total() * scatter@.len() <= path.work.total(),
        gain == kernel.total() * (scatter@.len() - 1),
        gain > 0,
    ensures
        path_ok(r, residual, source, max_len as int, depth + 1),
        r.acc == path.acc + gain,
        r.layers@.len() == path.layers@.len() + 1,
        extends_by(path_view(*path), (*scatter, gain, *kernel), path_view(r)),
{
    proof {
        assert({
            &&& path.work.wf()
            &&& forall|t: int, e: E| path.work.count(t, e) + layers_expansion(path.layers@, t, e) == residual.count(t, e)
            &&& is_peeling(residual, path.layers@)
            &&& greedy_peeling(residual, path.layers@)
            &&& path.acc == plan_reuse(path.layers@)
            &&& path.acc + path.work.total() <= residual.total()
            &&& path.layers@.len() == depth
            &&& forall|i: int|
                0 <= i < path.layers@.len() ==> #[trigger] observed_ap(path.layers@[i].scatter@, source, max_len as int)
                    && path.layers@[i].kernel.total() > 0
        }) by {
            reveal(path_ok);
        }
        lemma_observed_ap_fits(scatter@, path.work, max_len as int);
        assert forall|t: int, e: E, i: int| kernel.count(t, e) > 0 && 0 <= i < scatter@.len() implies t
            + scatter@[i] <= u32::MAX by {
            assert(path.work.count(t, e) > 0);
        }
        assert forall|t: int, e: E| expansion_count(*kernel, scatter@, t, e) <= usize::MAX by {
            path.work.lemma_count_bounded(t, e);
        }
    }
    let expansion = expand(kernel, scatter.as_slice());
    proof {
        assert(plane_le(expansion, path.work));
        expansion.lemma_total_mono(path.work);
        assert(kernel.total() * (scatter@.len() - 1) <= kernel.total() * scatter@.len()) by (nonlinear_arith);
    }
    let work = subtract_exact(&path.work, &expansion);
    let mut layers = copy_layers(&path.layers);
    let offsets = scatter.clone();
    let k2 = kernel.duplicate_plane();
    let layer = Layer { scatter: offsets, kernel: k2 };
    let ghost copy = layers@;
    layers.push(layer);
    let acc = path.acc + gain;
    proof {
        assert(offsets@ =~= scatter@);
        let old_l = path.layers@;
        let nl = layers@;
        assert(nl == copy.push(layer));
        assert forall|t: int, e: E| work.count(t, e) + expansion_count(*kernel, scatter@, t, e) == path.work.count(t, e) by {}
        lemma_extend_layers(residual, old_l, copy, layer, path.work, work, *kernel, scatter@);
        lemma_greedy_peeling_equiv(residual, old_l, copy);
        lemma_equiv_sums(copy, old_l);
        lemma_greedy_on(*kernel, scatter@, path.work, left_by(residual, copy));
        assert(greedy_on(layer.kernel, layer.scatter@, left_by(residual, copy))) by {
            reveal(greedy_on);
            assert forall|t: int, e: E| #[trigger] layer.kernel.count(t, e) == kernel.count(t, e) by {}
        }
        lemma_greedy_peeling_push(residual, copy, layer);
        assert forall|i: int| 0 <= i < nl.len() implies #[trigger] observed_ap(nl[i].scatter@, source, max_len as int)
            && nl[i].kernel.total() > 0 by {
            if i < copy.len() {
                assert(nl[i] == copy[i]);
                assert(copy[i].scatter@ == old_l[i].scatter@ && copy[i].kernel.entries() == old_l[i].kernel.entries());
                assert(observed_ap(old_l[i].scatter@, source, max_len as int) && old_l[i].kernel.total() > 0);
            } else {
                assert(nl[i] == layer);
                assert(kernel.total() > 0) by (nonlinear_arith)
                    requires
                        gain == kernel.total() * (scatter@.len() - 1),
                        gain > 0,
                ;
            }
        }
        assert(work.total() + kernel.total() * scatter@.len() == path.work.total());
        assert(acc + work.total() <= residual.total());
        assert forall|t: int, e: E| work.count(t, e) <= residual.count(t, e) by {
            assert(work.count(t, e) + layers_expansion(nl, t, e) == residual.count(t, e));
        }
    }
    let r = Path { layers, work, acc };
    proof {
        let lay = Layer { scatter: *scatter, kernel: *kernel };
        assert(layers_equiv(r.layers@, path.layers@.push(lay))) by {
            assert forall|i: int| 0 <= i < r.layers@.len() implies (#[trigger] r.layers@[i]).scatter@ == path.layers@.push(lay)[i].scatter@
                && r.layers@[i].kernel.entries() == path.layers@.push(lay)[i].kernel.entries() by {
                if i < copy.len() {
                    assert(r.layers@[i] == copy[i]);
                    assert(copy[i].scatter@ == path.layers@[i].scatter@ && copy[i].kernel.entries() == path.layers@[i].kernel.entries());
                } else {
                    assert(r.layers@[i] == layer);
                }
            }
        }
        assert(path_ok(r, residual, source, max_len as int, depth + 1)) by {
            reveal(path_ok);
        }
    }
    r
}

/// Extends `path` by the first `beam` of its candidates, taken by
/// descending gain, and appends the new paths to `next`.
#[verifier::rlimit(50)]
fn expand_children<E: Event>(
    path: &Path<E>,
    next: &mut Vec<Path<E>>,
    max_len: usize,
    beam: usize,
    Ghost(residual): Ghost<TpPlane<E>>,
    Ghost(source): Ghost<TpPlane<E>>,
    Ghost(depth): Ghost<int>,
)
    requires
        path_ok(*path, residual, source, max_len as int, depth),
        residual.wf(),
        residual.total() <= usize::MAX,
        ticks_fit(residual, max_len as int),
        forall|t: int, e: E| residual.count(t, e) <= source.count(t, e),
        max_len >= 2,
        forall|i: int| 0 <= i < old(next)@.len() ==> #[trigger] path_ok(old(next)@[i], residual, source, max_len as int, depth + 1),
    ensures
        exists|kids: Seq<(Seq<Layer<E>>, TpPlane<E>, int)>|
            #[trigger] beam_children(path_view(*path), kids, beam as int, max_len as int) && path_views(final(next)@)
                == path_views(old(next)@) + kids,
        forall|i: int| 0 <= i < final(next)@.len() ==> #[trigger] path_ok(final(next)@[i], residual, source, max_len as int, depth + 1),
        max_len <= 2 || beam == 0 ==> final(next)@.len() == old(next)@.len(),
        max_len >= 3 && beam >= 1 && !no_pair(path.work) ==> final(next)@.len() > old(next)@.len(),
{
    proof {
        assert(path.work.wf() && forall|t: int, e: E| path.work.count(t, e) <= residual.count(t, e)) by {
            reveal(path_ok);
        }
        lemma_ticks_fit_sub(path.work, residual, max_len as int);
        path.work.lemma_total_mono(residual);
    }
    let raw = path_candidates(&path.work, max_len);
    let ghost raw_v = raw@;
    let cand = sort_candidates(raw);
    let ghost n0 = next@.len();
    let ghost old_views = path_views(next@);
    let ghost mut cur: Seq<(Seq<Layer<E>>, TpPlane<E>, int)> = Seq::empty();
    let mut c: usize = 0;
    proof {
        assert(path_views(next@) =~= old_views + cur);
    }
    while c < cand.len() && c < beam
        invariant
            next@.len() == n0 + c,
            cur.len() == c,
            c <= beam,
            path_views(next@) == old_views + cur,
            forall|j: int| 0 <= j < c ==> #[trigger] extends_by(path_view(*path), cand@[j], cur[j]),
            residual.wf(),
            path_ok(*path, residual, source, max_len as int, depth),
            path.work.wf(),
            forall|t: int, e: E| path.work.count(t, e) <= residual.count(t, e),
            forall|t: int, e: E| residual.count(t, e) <= source.count(t, e),
            residual.total() <= usize::MAX,
            c <= cand@.len(),
            max_len <= 2 ==> cand@.len() == 0,
            ticks_fit(path.work, max_len as int),
            forall|i: int| 0 <= i < cand@.len() ==> #[trigger] cand_ok(cand@[i], path.work, max_len as int),
            forall|i: int| 0 <= i < next@.len() ==> #[trigger] path_ok(next@[i], residual, source, max_len as int, depth + 1),
        decreases cand@.len() - c,
    {
        let entry = &cand[c];
        proof {
            assert(cand_ok(cand@[c as int], path.work, max_len as int));
            assert forall|t: int, e: E| path.work.count(t, e) <= source.count(t, e) by {
                assert(path.work.count(t, e) <= residual.count(t, e));
            }
            lemma_observed_ap_sub(entry.0@, path.work, source, max_len as int);
        }
        let np = extend_path(path, &entry.0, entry.1, &entry.2, max_len, Ghost(residual), Ghost(source), Ghost(depth));
        let ghost before = next@;
        next.push(np);
        proof {
            assert(cand@[c as int] == (entry.0, entry.1, entry.2));
            let cur2 = cur.push(path_view(np));
            assert(path_views(next@) =~= old_views + cur2) by {
                assert(next@ == before.push(np));
                assert(path_views(next@) =~= path_views(before).push(path_view(np)));
            }
            assert forall|j: int| 0 <= j < c + 1 implies #[trigger] extends_by(path_view(*path), cand@[j], cur2[j]) by {
                if j < c {
                    assert(cur2[j] == cur[j]);
                }
            }
            cur = cur2;
            assert forall|i: int| 0 <= i < next@.len() implies #[trigger] path_ok(next@[i], residual, source, max_len as int, depth + 1) by {
                if i < before.len() {
                    assert(next@[i] == before[i]);
                }
            }
        }
        c = c + 1;
    }
    proof {
        assert(c == keep_count(beam as int, cand@.len() as int));
        let pv = path_view(*path);
        assert(pv.1 == path.work);
        let m = choose|m: int| is_max_support(path.work, m) && cands_exact(raw_v, path.work, m / (max_len - 1), max_len as int);
        assert(cands_exact(raw_v, pv.1, m / (max_len as int - 1), max_len as int));
        assert(candidate_list(raw_v, pv.1, max_len as int));
        assert(stable_desc(raw_v, cand_gain(), cand@));
        assert(forall|j: int| 0 <= j < cur.len() ==> #[trigger] extends_by(pv, cand@[j], cur[j]));
        assert(beam_children(path_view(*path), cur, beam as int, max_len as int));
        if max_len >= 3 && beam >= 1 && !no_pair(path.work) {
            assert(cand@.len() > 0);
        }
    }
}

/// One round of beam search on `residual` within `budget` layers: the best
/// path of the last level reached.
#[verifier::rlimit(50)]
fn beam_search<E: Event>(
    residual: &TpPlane<E>,
    max_len: usize,
    budget: usize,
    beam: usize,
    Ghost(source): Ghost<TpPlane<E>>,
) -> (r: Path<E>)
    requires
        residual.wf(),
        residual.total() <= usize::MAX,
        ticks_fit(*residual, max_len as int),
        forall|t: int, e: E| residual.count(t, e) <= source.count(t, e),
        max_len >= 2,
    ensures
        exists|levels: Seq<Seq<(Seq<Layer<E>>, TpPlane<E>, int)>>|
            #[trigger] beam_round(*residual, levels, budget as int, beam as int, max_len as int) && path_view(r)
                == levels.last()[0],
        path_ok(r, *residual, source, max_len as int, r.layers@.len() as int),
        r.layers@.len() <= budget,
        max_len >= 3 && beam >= 1 && budget >= 1 && !no_pair(*residual) ==> r.layers@.len() >= 1,
        max_len <= 2 || beam == 0 ==> r.layers@.len() == 0,
{
    let mut paths: Vec<Path<E>> = Vec::new();
    let start = Path { layers: Vec::new(), work: residual.duplicate_plane(), acc: 0 };
    proof {
        assert(path_ok(start, *residual, source, max_len as int, 0)) by {
            reveal(path_ok);
            reveal(greedy_peeling);
            assert(start.layers@ =~= Seq::<Layer<E>>::empty());
        }
    }
    paths.push(start);
    let ghost mut levels: Seq<Seq<(Seq<Layer<E>>, TpPlane<E>, int)>> = seq![path_views(paths@)];
    let ghost progress = max_len >= 3 && beam >= 1 && !no_pair(*residual);
    proof {
        assert(paths@[0] == start);
        assert(start.work.entries() == residual.entries());
        assert(path_views(paths@)[0] == path_view(start));
    }
    let mut depth: usize = 0;
    let mut stopped = false;
    while depth < budget && !stopped
        invariant
            levels.len() == depth + 1,
            levels[0].len() == 1,
            levels[0][0].0.len() == 0,
            levels[0][0].1.entries() == residual.entries(),
            levels[0][0].2 == 0,
            forall|k: int| 0 <= k < levels.len() - 1 ==> #[trigger] beam_next(levels[k], levels[k + 1], beam as int, max_len as int),
            forall|k: int| 0 <= k < levels.len() ==> (#[trigger] levels[k]).len() > 0,
            levels.last() == path_views(paths@),
            depth <= budget,
            stopped ==> beam_next(levels.last(), Seq::empty(), beam as int, max_len as int),
            paths@.len() > 0,
            depth == 0 ==> paths@[0].work.entries() == residual.entries(),
            progress == (max_len >= 3 && beam >= 1 && !no_pair(*residual)),
            progress && stopped ==> depth >= 1,
            (max_len <= 2 || beam == 0) ==> depth == 0,
            residual.wf(),
            residual.total() <= usize::MAX,
            ticks_fit(*residual, max_len as int),
            forall|t: int, e: E| residual.count(t, e) <= source.count(t, e),
            max_len >= 2,
            forall|i: int| 0 <= i < paths@.len() ==> #[trigger] path_ok(paths@[i], *residual, source, max_len as int, depth as int),
        decreases budget - depth, (if stopped { 0int } else { 1int }),
    {
        let mut next: Vec<Path<E>> = Vec::new();
        let ghost level = levels.last();
        let ghost mut kids: Seq<Seq<(Seq<Layer<E>>, TpPlane<E>, int)>> = Seq::empty();
        let mut p: usize = 0;
        proof {
            assert(path_views(next@) =~= concat_all(kids));
        }
        while p < paths.len()
            invariant
                level == path_views(paths@),
                kids.len() == p,
                p <= paths@.len(),
                forall|i: int| 0 <= i < p ==> #[trigger] beam_children(level[i], kids[i], beam as int, max_len as int),
                path_views(next@) == concat_all(kids),
                depth == 0 ==> paths@.len() == 1 && paths@[0].work.entries() == residual.entries(),
                depth == 0 && progress && p >= 1 ==> next@.len() > 0,
                progress == (max_len >= 3 && beam >= 1 && !no_pair(*residual)),
                (max_len <= 2 || beam == 0) ==> next@.len() == 0,
                residual.wf(),
                residual.total() <= usize::MAX,
                ticks_fit(*residual, max_len as int),
                forall|t: int, e: E| residual.count(t, e) <= source.count(t, e),
                max_len >= 2,
                forall|i: int| 0 <= i < paths@.len() ==> #[trigger] path_ok(paths@[i], *residual, source, max_len as int, depth as int),
                forall|i: int| 0 <= i < next@.len() ==> #[trigger] path_ok(next@[i], *residual, source, max_len as int, depth + 1),
            decreases paths@.len() - p,
        {
            let path = &paths[p];
            proof {
                assert(path_ok(paths@[p as int], *residual, source, max_len as int, depth as int));
                if depth == 0 && progress {
                    assert(p == 0);
                    if no_pair(path.work) {
                        assert forall|t: int, u: int, e: E| #[trigger] residual.count(t, e) > 0 && #[trigger] residual.count(u, e) > 0 implies t == u by {
                            assert(path.work.count(t, e) == residual.count(t, e));
                            assert(path.work.count(u, e) == residual.count(u, e));
                        }
                    }
                }
            }
            let ghost before = next@;
            expand_children(path, &mut next, max_len, beam, Ghost(*residual), Ghost(source), Ghost(depth as int));
            proof {
                let k = choose|k: Seq<(Seq<Layer<E>>, TpPlane<E>, int)>|
                    #[trigger] beam_children(path_view(*path), k, beam as int, max_len as int) && path_views(next@)
                        == path_views(before) + k;
                let kids2 = kids.push(k);
                assert(kids2.drop_last() =~= kids);
                assert(level[p as int] == path_view(paths@[p as int]));
                assert forall|i: int| 0 <= i < p + 1 implies #[trigger] beam_children(level[i], kids2[i], beam as int, max_len as int) by {
                    if i < p {
                        assert(kids2[i] == kids[i]);
                    }
                }
                kids = kids2;
            }
            p = p + 1;
        }
        let mut sorted = sort_paths(next);
        let ghost sv = path_views(sorted@);
        proof {
            let perm = choose|perm: Seq<int>| #[trigger] sorts_by(next@, path_key::<E>(), sorted@, perm);
            assert(sorts_by(concat_all(kids), path_acc::<E>(), sv, perm)) by {
                assert forall|i: int| 0 <= i < sv.len() implies 0 <= #[trigger] perm[i] < concat_all(kids).len() && sv[i] == concat_all(kids)[perm[i]] by {
                    assert(sorted@[i] == next@[perm[i]]);
                }
                assert forall|i: int, j: int|
                    #![trigger sv[i], sv[j]]
                    0 <= i < j < sv.len() implies path_acc::<E>()(sv[i]) > path_acc::<E>()(sv[j]) || (path_acc::<E>()(sv[i])
                        == path_acc::<E>()(sv[j]) && perm[i] < perm[j]) by {
                    assert(path_key::<E>()(sorted@[i]) > path_key::<E>()(sorted@[j]) || (path_key::<E>()(sorted@[i])
                        == path_key::<E>()(sorted@[j]) && perm[i] < perm[j]));
                }
            }
            assert(stable_desc(concat_all(kids), path_acc::<E>(), sv));
            if depth == 0 && progress {
                assert(sorted@.len() > 0);
            }
        }
        let ghost pre = sorted@;
        sorted.truncate(beam);
        proof {
            let kept = keep_count(beam as int, sv.len() as int);
            assert(path_views(sorted@) =~= sv.take(kept));
            assert(beam_next(level, path_views(sorted@), beam as int, max_len as int));
            assert forall|i: int| 0 <= i < sorted@.len() implies #[trigger] path_ok(sorted@[i], *residual, source, max_len as int, depth + 1) by {
                assert(sorted@[i] == pre[i]);
                assert(next@.contains(pre[i]));
            }
        }
        if sorted.len() == 0 {
            proof {
                assert(path_views(sorted@) =~= Seq::empty());
            }
            stopped = true;
        } else {
            proof {
                let l2 = levels.push(path_views(sorted@));
                assert forall|k: int| 0 <= k < l2.len() - 1 implies #[trigger] beam_next(l2[k], l2[k + 1], beam as int, max_len as int) by {
                    if k < levels.len() - 1 {
                        assert(l2[k] == levels[k] && l2[k + 1] == levels[k + 1]);
                    } else {
                        assert(l2[k] == level);
                    }
                }
                assert forall|k: int| 0 <= k < l2.len() implies (#[trigger] l2[k]).len() > 0 by {
                    if k < levels.len() {
                        assert(l2[k] == levels[k]);
                    }
                }
                levels = l2;
            }
            paths = sorted;
            depth = depth + 1;
        }
    }
    let ghost paths0 = paths@;
    let best = paths.remove(0);
    proof {
        assert(best == paths0[0]);
        assert(path_view(best) == levels.last()[0]);
        assert(path_ok(best, *residual, source, max_len as int, depth as int));
        assert(best.layers@.len() == depth) by {
            reveal(path_ok);
        }
        assert(beam_round(*residual, levels, budget as int, beam as int, max_len as int));
    }
    best
}

/// Beam-search layer flow: each round explores up to `beam` candidate layer
/// sequences within the remaining budget, committing the globally best one.
///
/// Unlike the family-complete commit of [`reuse_flow`], layers from different
/// families compete freely at every step, so cross-family combinations emerge
/// naturally (e.g. a deep AP block from one family plus a pair from another).
/// Where no explored sequence reaches the full remaining budget, the best of
/// the longest explored ones is committed and the next round goes on from
/// what it leaves.
pub fn reuse_flow_beam<E: Event>(
    source: &TpPlane<E>,
    max_len: usize,
    max_layers: usize,
    beam: usize,
) -> (r: (Vec<Layer<E>>, usize, TpPlane<E>))
    requires
        source.wf(),
        source.total() <= usize::MAX,
        max_len >= 2 || max_layers == 0 || no_pair(*source),
        ticks_fit(*source, max_len as int),
    ensures
        r.0@.len() <= max_layers,
        r.2.wf(),
        forall|t: int, e: E| r.2.count(t, e) + layers_expansion(r.0@, t, e) == source.count(t, e),
        is_peeling(*source, r.0@),
        forall|i: int| 0 <= i < r.0@.len() ==> #[trigger] observed_ap(r.0@[i].scatter@, *source, max_len as int),
        r.1 == plan_reuse(r.0@),
        max_len <= 2 || beam == 0 ==> r.0@.len() == 0,
        forall|i: int| 0 <= i < r.0@.len() ==> (#[trigger] r.0@[i]).kernel.total() > 0,
        greedy_peeling(*source, r.0@),
        exists|pos: Seq<int>, rests: Seq<TpPlane<E>>|
            #[trigger] beam_rounds(*source, r.0@, pos, rests, max_len as int, max_layers as int, beam as int),
        max_len >= 3 && beam >= 1 && r.0@.len() < max_layers ==> no_pair(r.2),
{
    let mut residual = source.duplicate_plane();
    let mut plan: Vec<Layer<E>> = Vec::new();
    let mut total_reuse: usize = 0;
    let ghost mut pos: Seq<int> = seq![0int];
    let ghost mut rests: Seq<TpPlane<E>> = Seq::empty();
    proof {
        assert(plan@ =~= Seq::<Layer<E>>::empty());
        reveal(greedy_peeling);
    }
    loop
        invariant
            source.wf(),
            source.total() <= usize::MAX,
            max_len >= 2 || max_layers == 0 || no_pair(*source),
            ticks_fit(*source, max_len as int),
            residual.wf(),
            forall|t: int, e: E| residual.count(t, e) + layers_expansion(plan@, t, e) == source.count(t, e),
            is_peeling(*source, plan@),
            forall|i: int| 0 <= i < plan@.len() ==> #[trigger] observed_ap(plan@[i].scatter@, *source, max_len as int),
            plan@.len() <= max_layers,
            total_reuse == plan_reuse(plan@),
            total_reuse + residual.total() <= source.total(),
            max_len <= 2 || beam == 0 ==> plan@.len() == 0,
            forall|i: int| 0 <= i < plan@.len() ==> (#[trigger] plan@[i]).kernel.total() > 0,
            greedy_peeling(*source, plan@),
            beam_rounds(*source, plan@, pos, rests, max_len as int, max_layers as int, beam as int),
        ensures
            plan@.len() <= max_layers,
            max_len >= 3 && beam >= 1 && plan@.len() < max_layers ==> no_pair(residual),
            residual.wf(),
            forall|t: int, e: E| residual.count(t, e) + layers_expansion(plan@, t, e) == source.count(t, e),
            is_peeling(*source, plan@),
            forall|i: int| 0 <= i < plan@.len() ==> #[trigger] observed_ap(plan@[i].scatter@, *source, max_len as int),
            total_reuse == plan_reuse(plan@),
            max_len <= 2 || beam == 0 ==> plan@.len() == 0,
            forall|i: int| 0 <= i < plan@.len() ==> (#[trigger] plan@[i]).kernel.total() > 0,
            greedy_peeling(*source, plan@),
            beam_rounds(*source, plan@, pos, rests, max_len as int, max_layers as int, beam as int),
        decreases max_layers - plan@.len(),
    {
        if plan.len() >= max_layers {
            break;
        }
        let budget = max_layers - plan.len();
        proof {
            assert forall|d: int| support(residual, d) <= usize::MAX by {
                lemma_support_le_total(residual, d);
            }
        }
        let sup = support_plane(&residual);
        if sup.len() == 0 {
            proof {
                assert forall|t: int, u: int, e: E| #[trigger] residual.count(t, e) > 0 && #[trigger] residual.count(u, e) > 0 implies t == u by {
                    if t < u {
                        lemma_pair_support(residual, t, u, e);
                        sup.lemma_absent(u - t, ());
                    } else if u < t {
                        lemma_pair_support(residual, u, t, e);
                        sup.lemma_absent(t - u, ());
                    }
                }
            }
            break;
        }
        let max_support = max_count(&sup);
        if max_support == 0 {
            proof {
                assert(sup.entries()[0].2 > 0);
            }
            break;
        }
        proof {
            if max_len < 2 {
                assert(no_pair(*source));
                let (d0, u0, c0) = sup.entries()[0];
                sup.lemma_entry_count(0);
                lemma_support_witness(residual, d0 as int);
                let (t, e) = choose|t: int, e: E| residual.count(t, e) > 0 && #[trigger] residual.count(t + d0, e) > 0;
                assert(source.count(t, e) > 0 && source.count(t + d0, e) > 0);
            }
            assert forall|t: int, e: E| residual.count(t, e) <= source.count(t, e) by {}
            lemma_ticks_fit_sub(residual, *source, max_len as int);
            residual.lemma_total_mono(*source);
        }
        let best = beam_search(&residual, max_len, budget, beam, Ghost(*source));
        if best.layers.len() == 0 {
            break;
        }
        proof {
            assert(path_ok(best, residual, *source, max_len as int, best.layers@.len() as int));
            assert(is_peeling(residual, best.layers@)) by {
                reveal(path_ok);
            }
            assert(greedy_peeling(residual, best.layers@)) by {
                reveal(path_ok);
            }
            assert(best.acc == plan_reuse(best.layers@)) by {
                reveal(path_ok);
            }
            assert(best.acc + best.work.total() <= residual.total()) by {
                reveal(path_ok);
            }
            assert forall|i: int| 0 <= i < best.layers@.len() implies #[trigger] observed_ap(
                best.layers@[i].scatter@,
                *source,
                max_len as int,
            ) && best.layers@[i].kernel.total() > 0 by {
                reveal(path_ok);
                assert(path_ok(best, residual, *source, max_len as int, best.layers@.len() as int));
                let p0 = best;
                assert(0 <= i < p0.layers@.len());
                assert(observed_ap(p0.layers@[i].scatter@, *source, max_len as int));
                assert(p0.layers@[i].kernel.total() > 0);
            }
        }
        let ghost base = plan@;
        let ghost rest = residual;
        let ghost steps = best.layers@;
        let ghost best_view = path_view(best);
        commit_layers(&mut plan, &mut residual, &mut total_reuse, best.layers);
        proof {
            lemma_peeling_concat(*source, rest, base, steps);
            lemma_greedy_peeling_concat(*source, rest, base, steps);
            lemma_plan_reuse_concat(base, steps);
            assert forall|t: int, e: E| residual.count(t, e) + layers_expansion(plan@, t, e) == source.count(t, e) by {
                lemma_layers_expansion_concat(base, steps, t, e);
            }
            assert forall|i: int| 0 <= i < plan@.len() implies #[trigger] observed_ap(plan@[i].scatter@, *source, max_len as int)
                by {
                if i < base.len() {
                    assert(plan@[i] == base[i]);
                } else {
                    assert(plan@[i] == steps[i - base.len()]);
                    assert(observed_ap(steps[i - base.len()].scatter@, *source, max_len as int));
                }
            }
            assert forall|i: int| 0 <= i < plan@.len() implies (#[trigger] plan@[i]).kernel.total() > 0 by {
                if i < base.len() {
                    assert(plan@[i] == base[i]);
                } else {
                    assert(plan@[i] == steps[i - base.len()]);
                    assert(observed_ap(steps[i - base.len()].scatter@, *source, max_len as int));
                }
            }
            let pos2 = pos.push(plan@.len() as int);
            let rests2 = rests.push(rest);
            let j = rests.len() as int;
            assert(plan@.take(base.len() as int) =~= base);
            assert(plan@.subrange(base.len() as int, plan@.len() as int) =~= steps);
            assert(beam_round_at(*source, plan@, pos2, rests2, j, max_len as int, max_layers as int, beam as int)) by {
                assert(pos2[j] == base.len() && pos2[j + 1] == plan@.len());
                assert(rests2[j] == rest);
                let levels = choose|levels: Seq<Seq<(Seq<Layer<E>>, TpPlane<E>, int)>>|
                    #[trigger] beam_round(rest, levels, budget as int, beam as int, max_len as int) && best_view == levels.last()[0];
                assert(max_layers - pos2[j] == budget);
            }
            assert forall|q: int| 0 <= q < rests2.len() implies #[trigger] beam_round_at(*source, plan@, pos2, rests2, q, max_len as int, max_layers as int, beam as int) by {
                if q < j {
                    assert(beam_round_at(*source, base, pos, rests, q, max_len as int, max_layers as int, beam as int));
                    assert(pos2[q] == pos[q] && pos2[q + 1] == pos[q + 1] && rests2[q] == rests[q]);
                    assert(plan@.take(pos[q]) =~= base.take(pos[q]));
                    assert(plan@.subrange(pos[q], pos[q + 1]) =~= base.subrange(pos[q], pos[q + 1]));
                }
            }
            pos = pos2;
            rests = rests2;
        }
    }
    proof {
        assert(exists|pos: Seq<int>, rests: Seq<TpPlane<E>>|
            #[trigger] beam_rounds(*source, plan@, pos, rests, max_len as int, max_layers as int, beam as int));
    }
    (plan, total_reuse, residual)
}

} // verus!
