//! Translation equivalence classes: a kernel of points and the offsets by
//! which it repeats, and the step from a reuse plan to the classes that a
//! tapped delay line can play.

use crate::analysis::{lemma_count_le_total, Event, TpPlane};
use crate::notes::reversed;
use crate::reuse::{expand, expansion_count, shifts_fit, Layer};
use crate::types::Tick;
use vstd::prelude::*;

verus! {

// Gaps between offsets
//
// ++++++++++++============++++++++++++============++++++++++++============

/// The smallest difference between neighbouring offsets among the first
/// `n` (n >= 2).
pub open spec fn min_window(s: Seq<Tick>, n: int) -> int
    decreases n,
{
    if n <= 2 {
        s[1] - s[0]
    } else {
        let below = min_window(s, n - 1);
        let last = s[n - 1] - s[n - 2];
        if last < below { last } else { below }
    }
}

/// The smallest difference between neighbouring offsets, if there are two.
pub open spec fn window_min(s: Seq<Tick>) -> Option<int> {
    if s.len() < 2 {
        None
    } else {
        Some(min_window(s, s.len() as int))
    }
}

proof fn lemma_min_window(s: Seq<Tick>, n: int)
    requires
        2 <= n <= s.len(),
    ensures
        forall|i: int| 0 < i < n ==> min_window(s, n) <= #[trigger] s[i] - s[i - 1],
        exists|i: int| 0 < i < n && min_window(s, n) == #[trigger] s[i] - s[i - 1],
    decreases n,
{
    if n > 2 {
        lemma_min_window(s, n - 1);
        let j = choose|j: int| 0 < j < n - 1 && min_window(s, n - 1) == #[trigger] s[j] - s[j - 1];
        if s[n - 1] - s[n - 2] < min_window(s, n - 1) {
            assert(min_window(s, n) == s[n - 1] - s[(n - 1) - 1]);
        } else {
            assert(min_window(s, n) == s[j] - s[j - 1]);
        }
    } else {
        assert(min_window(s, n) == s[1] - s[1 - 1]);
    }
}

/// Law: the smallest gap is a gap between neighbouring offsets that no gap
/// between neighbours undercuts; there is none with fewer than two offsets.
pub proof fn lemma_window_min(s: Seq<Tick>)
    ensures
        s.len() < 2 <==> window_min(s) is None,
        s.len() >= 2 ==> forall|i: int| 0 < i < s.len() ==> window_min(s).unwrap() <= #[trigger] s[i] - s[i - 1],
        s.len() >= 2 ==> exists|i: int| 0 < i < s.len() && window_min(s).unwrap() == #[trigger] s[i] - s[i - 1],
{
    if s.len() >= 2 {
        lemma_min_window(s, s.len() as int);
    }
}


/// The offsets strictly increase.
pub open spec fn ascending(s: Seq<Tick>) -> bool {
    forall|i: int, j: int| 0 <= i < j < s.len() ==> s[i] < s[j]
}

/// The smallest gap between neighbouring offsets, if there are two.
fn smallest_gap(s: &[Tick]) -> (r: Option<Tick>)
    requires
        ascending(s@),
    ensures
        r matches Some(g) ==> window_min(s@) == Some(g as int),
        r is None <==> window_min(s@) is None,
{
    if s.len() < 2 {
        return None;
    }
    let mut best: Tick = s[1] - s[0];
    let mut i: usize = 2;
    while i < s.len()
        invariant
            ascending(s@),
            2 <= i <= s@.len(),
            best == min_window(s@, i as int),
        decreases s@.len() - i,
    {
        let gap = s[i] - s[i - 1];
        if gap < best {
            best = gap;
        }
        i = i + 1;
    }
    Some(best)
}

// TransEqClass
//
// ++++++++++++============++++++++++++============++++++++++++============

/// A translation equivalence class: a kernel of points that recurs at
/// offset 0 and at each offset of the scatter (positive, ascending; the zero
/// offset is implied).
pub struct TransEqClass<E> {
    pub scatter: Vec<Tick>,
    pub kernel: TpPlane<E>,
}

impl<E: Event> TransEqClass<E> {
    /// The offsets are positive and ascending, the kernel well formed.
    pub open spec fn wf(&self) -> bool {
        &&& ascending(self.scatter@)
        &&& forall|i: int| 0 <= i < self.scatter@.len() ==> self.scatter@[i] > 0
        &&& self.kernel.wf()
    }

    /// All offsets, the implied zero first.
    pub open spec fn offsets(&self) -> Seq<Tick> {
        seq![0u32] + self.scatter@
    }

    pub fn new(scatter: Vec<Tick>, kernel: TpPlane<E>) -> (r: Self)
        ensures
            r.scatter == scatter,
            r.kernel == kernel,
    {
        TransEqClass { scatter, kernel }
    }

    /// The reuse gain: the kernel's points times the offsets besides zero.
    pub fn reuse(&self) -> (r: usize)
        requires
            self.kernel.total() <= usize::MAX,
            self.kernel.total() * self.scatter@.len() <= usize::MAX,
        ensures
            r == self.kernel.total() * self.scatter@.len(),
    {
        let sum = self.kernel.values_sum();
        sum * self.scatter.len()
    }

    /// The kernel repeated at every offset, zero included.
    pub fn expand(&self) -> (r: TpPlane<E>)
        requires
            self.kernel.wf(),
            shifts_fit(self.kernel, self.offsets()),
            self.kernel.total() * (self.scatter@.len() + 1) <= usize::MAX,
        ensures
            r.wf(),
            forall|t: int, e: E| r.count(t, e) == expansion_count(self.kernel, self.offsets(), t, e),
    {
        let mut offsets: Vec<Tick> = vec![0];
        let mut i: usize = 0;
        while i < self.scatter.len()
            invariant
                i <= self.scatter@.len(),
                offsets@ == seq![0u32] + self.scatter@.take(i as int),
            decreases self.scatter@.len() - i,
        {
            offsets.push(self.scatter[i]);
            proof {
                assert(self.scatter@.take(i + 1) =~= self.scatter@.take(i as int).push(self.scatter@[i as int]));
            }
            i = i + 1;
        }
        proof {
            assert(self.scatter@.take(i as int) =~= self.scatter@);
            assert forall|t: int, e: E| expansion_count(self.kernel, self.offsets(), t, e) <= usize::MAX by {
                lemma_expansion_bound(self.kernel, self.offsets(), t, e);
            }
        }
        expand(&self.kernel, offsets.as_slice())
    }

    /// The smallest gap between neighbouring offsets, zero included; none
    /// without offsets besides zero.
    pub fn min_gap(&self) -> (r: Option<Tick>)
        requires
            self.wf(),
        ensures
            r matches Some(g) ==> window_min(self.offsets()) == Some(g as int),
            r is None <==> window_min(self.offsets()) is None,
    {
        let mut offsets: Vec<Tick> = vec![0];
        let mut i: usize = 0;
        while i < self.scatter.len()
            invariant
                i <= self.scatter@.len(),
                offsets@ == seq![0u32] + self.scatter@.take(i as int),
            decreases self.scatter@.len() - i,
        {
            offsets.push(self.scatter[i]);
            proof {
                assert(self.scatter@.take(i + 1) =~= self.scatter@.take(i as int).push(self.scatter@[i as int]));
            }
            i = i + 1;
        }
        proof {
            assert(self.scatter@.take(i as int) =~= self.scatter@);
            let o = offsets@;
            assert forall|a: int, b: int| 0 <= a < b < o.len() implies o[a] < o[b] by {
                if a > 0 {
                    assert(o[a] == self.scatter@[a - 1] && o[b] == self.scatter@[b - 1]);
                } else {
                    assert(o[b] == self.scatter@[b - 1]);
                }
            }
        }
        smallest_gap(offsets.as_slice())
    }
}

/// A point of the expansion occurs at most as often as the kernel's points
/// times the offsets.
pub proof fn lemma_expansion_bound<E>(k: TpPlane<E>, s: Seq<Tick>, t: int, e: E)
    ensures
        expansion_count(k, s, t, e) <= k.total() * s.len(),
    decreases s.len(),
{
    if s.len() > 0 {
        lemma_expansion_bound(k, s.drop_last(), t, e);
        lemma_count_le_total(k.entries(), t - s.last(), e);
        let a = expansion_count(k, s.drop_last(), t, e);
        assert(a + k.total() <= k.total() * s.len()) by (nonlinear_arith)
            requires
                a <= k.total() * (s.len() - 1),
                s.len() >= 1,
        ;
    }
}

// From a plan to classes
//
// ++++++++++++============++++++++++++============++++++++++++============

/// A layer becomes a class of its own when its offsets lie at least 8
/// ticks apart; the others fold back into the residual.
pub open spec fn kept_layer<E>(l: Layer<E>) -> bool {
    window_min(l.scatter@) matches Some(g) && g >= 8
}

/// The offsets besides zero and the kernel of each kept layer among the
/// first `n`, in order.
pub open spec fn kept_classes<E>(plan: Seq<Layer<E>>, n: int) -> Seq<(Seq<Tick>, TpPlane<E>)>
    decreases n,
{
    if n <= 0 {
        Seq::empty()
    } else {
        kept_classes(plan, n - 1) + if kept_layer(plan[n - 1]) {
            seq![(plan[n - 1].scatter@.drop_first(), plan[n - 1].kernel)]
        } else {
            Seq::empty()
        }
    }
}

/// The number of layers among the first `n` that fold back.
pub open spec fn folded_layers<E>(plan: Seq<Layer<E>>, n: int) -> nat
    decreases n,
{
    if n <= 0 {
        0
    } else {
        folded_layers(plan, n - 1) + if kept_layer(plan[n - 1]) { 0nat } else { 1nat }
    }
}

/// The multiplicity of `(t, e)` in the residual after the expansions of the
/// folded layers among the first `n` are added to it.
pub open spec fn absorbed<E>(plan: Seq<Layer<E>>, residual: TpPlane<E>, n: int, t: int, e: E) -> nat
    decreases n,
{
    if n <= 0 {
        residual.count(t, e)
    } else {
        absorbed(plan, residual, n - 1, t, e) + if kept_layer(plan[n - 1]) {
            0nat
        } else {
            expansion_count(plan[n - 1].kernel, plan[n - 1].scatter@, t, e)
        }
    }
}

/// The residual's points and those of all the layers' expansions.
pub open spec fn plan_points<E>(plan: Seq<Layer<E>>, residual: TpPlane<E>, n: int) -> nat
    decreases n,
{
    if n <= 0 {
        residual.total()
    } else {
        plan_points(plan, residual, n - 1) + plan[n - 1].kernel.total() * plan[n - 1].scatter@.len()
    }
}

/// A plan layer as the flow makes it: offsets ascending from zero, a well
/// formed kernel, every shifted point a tick.
pub open spec fn plan_layer_ok<E>(l: Layer<E>) -> bool {
    &&& ascending(l.scatter@)
    &&& l.scatter@.len() > 0 ==> l.scatter@[0] == 0
    &&& l.kernel.wf()
    &&& shifts_fit(l.kernel, l.scatter@)
}

/// Adds the points of `src` to `dst`.
fn add_plane<E: Event>(dst: &mut TpPlane<E>, src: &TpPlane<E>)
    requires
        old(dst).wf(),
        src.wf(),
        old(dst).total() + src.total() <= usize::MAX,
    ensures
        final(dst).wf(),
        final(dst).total() == old(dst).total() + src.total(),
        forall|t: int, e: E| final(dst).count(t, e) == old(dst).count(t, e) + src.count(t, e),
{
    let ghost s = src.entries();
    let ghost start = *dst;
    let mut i: usize = 0;
    while i < src.len()
        invariant
            s == src.entries(),
            src.wf(),
            i <= s.len(),
            dst.wf(),
            start.total() + src.total() <= usize::MAX,
            dst.total() == start.total() + crate::analysis::total_in(s.take(i as int)),
            forall|t: int, e: E| dst.count(t, e) == start.count(t, e) + crate::analysis::count_in(s.take(i as int), t, e),
        decreases s.len() - i,
    {
        let (t, e, c) = src.entry_at(i);
        proof {
            assert(s.take(i + 1).drop_last() =~= s.take(i as int));
            crate::analysis::lemma_total_push(s.take(i as int), s[i as int]);
            lemma_total_take(s, i + 1);
            crate::analysis::lemma_count_le_total(s.take(i as int), t as int, *e);
            crate::analysis::lemma_count_le_total(start.entries(), t as int, *e);
        }
        dst.add(t, e.duplicate(), c);
        proof {
            assert forall|t2: int, e2: E|
                dst.count(t2, e2) == start.count(t2, e2) + crate::analysis::count_in(s.take(i + 1), t2, e2) by {
                crate::analysis::lemma_count_push(s.take(i as int), s[i as int], t2, e2);
            }
        }
        i = i + 1;
    }
    proof {
        assert(s.take(i as int) =~= s);
    }
}

/// Turns a reuse plan into the classes a tapped delay line plays: each
/// layer whose offsets lie at least 8 ticks apart becomes a class with its
/// offsets besides zero; the others are expanded into the residual; the
/// residual, when it holds points, becomes a last class without offsets.
/// Returns the classes and the number of layers folded back.
pub fn plan_to_tecs<E: Event>(plan: Vec<Layer<E>>, residual: TpPlane<E>) -> (r: (Vec<TransEqClass<E>>, usize))
    requires
        forall|k: int| 0 <= k < plan@.len() ==> plan_layer_ok(#[trigger] plan@[k]),
        residual.wf(),
        plan_points(plan@, residual, plan@.len() as int) <= usize::MAX,
    ensures
        r.1 == folded_layers(plan@, plan@.len() as int),
        forall|k: int| 0 <= k < r.0@.len() ==> (#[trigger] r.0@[k]).wf() && shifts_fit(r.0@[k].kernel, r.0@[k].scatter@),
        ({
            let kept = kept_classes(plan@, plan@.len() as int);
            &&& kept.len() <= r.0@.len() <= kept.len() + 1
            &&& forall|k: int|
                0 <= k < kept.len() ==> (#[trigger] r.0@[k]).scatter@ == kept[k].0 && r.0@[k].kernel == kept[k].1
            &&& (r.0@.len() == kept.len() + 1) == (exists|t: int, e: E| #[trigger] absorbed(plan@, residual, plan@.len() as int, t, e) > 0)
            &&& r.0@.len() == kept.len() + 1 ==> {
                let last = r.0@[kept.len() as int];
                &&& last.scatter@.len() == 0
                &&& last.kernel.wf()
                &&& forall|t: int, e: E| last.kernel.count(t, e) == absorbed(plan@, residual, plan@.len() as int, t, e)
            }
        }),
{
    let ghost all = plan@;
    let n = plan.len();
    let mut queue = reversed(plan);
    let mut res = residual;
    let ghost start = res;
    let mut tecs: Vec<TransEqClass<E>> = Vec::new();
    let mut skipped: usize = 0;
    let mut i: usize = 0;
    while i < n
        invariant
            n == all.len(),
            i <= n,
            queue@ == all.subrange(i as int, n as int).reverse(),
            forall|k: int| 0 <= k < all.len() ==> plan_layer_ok(#[trigger] all[k]),
            start.wf(),
            plan_points(all, start, n as int) <= usize::MAX,
            res.wf(),
            forall|t: int, e: E| res.count(t, e) == absorbed(all, start, i as int, t, e),
            res.total() <= plan_points(all, start, i as int),
            skipped == folded_layers(all, i as int),
            skipped <= i,
            tecs@.len() == kept_classes(all, i as int).len(),
            forall|k: int|
                0 <= k < tecs@.len() ==> (#[trigger] tecs@[k]).scatter@ == kept_classes(all, i as int)[k].0
                    && tecs@[k].kernel == kept_classes(all, i as int)[k].1,
            forall|k: int| 0 <= k < tecs@.len() ==> (#[trigger] tecs@[k]).wf() && shifts_fit(tecs@[k].kernel, tecs@[k].scatter@),
        decreases n - i,
    {
        let layer = match queue.pop() {
            Some(l) => l,
            None => Layer { scatter: Vec::new(), kernel: TpPlane::new() },
        };
        proof {
            assert(all.subrange(i as int, n as int).reverse().last() == all[i as int]);
            lemma_plan_points_mono(all, start, i + 1, n as int);
        }
        let ghost before = tecs@;
        let gap = smallest_gap(layer.scatter.as_slice());
        let keep = match gap {
            Some(g) => g >= 8,
            None => false,
        };
        if keep {
            let mut offsets: Vec<Tick> = Vec::new();
            let mut j: usize = 1;
            while j < layer.scatter.len()
                invariant
                    1 <= j <= layer.scatter@.len() || layer.scatter@.len() == 0,
                    layer.scatter@.len() >= 2,
                    offsets@ == layer.scatter@.subrange(1, j as int),
                decreases layer.scatter@.len() - j,
            {
                offsets.push(layer.scatter[j]);
                proof {
                    assert(layer.scatter@.subrange(1, j + 1) =~= layer.scatter@.subrange(1, j as int).push(
                        layer.scatter@[j as int],
                    ));
                }
                j = j + 1;
            }
            proof {
                assert(layer.scatter@.subrange(1, j as int) =~= layer.scatter@.drop_first());
                let d = layer.scatter@.drop_first();
                assert(layer.scatter@[0] == 0);
                assert forall|a: int| 0 <= a < d.len() implies d[a] > 0 by {
                    assert(layer.scatter@[0] < layer.scatter@[a + 1]);
                }
                assert forall|t: int, e: E, a: int|
                    layer.kernel.count(t, e) > 0 && 0 <= a < d.len() implies t + d[a] <= u32::MAX by {
                    assert(d[a] == layer.scatter@[a + 1]);
                }
            }
            tecs.push(TransEqClass::new(offsets, layer.kernel));
            proof {
                assert forall|k: int| 0 <= k < tecs@.len() implies (#[trigger] tecs@[k]).scatter@ == kept_classes(
                    all,
                    i + 1,
                )[k].0 && tecs@[k].kernel == kept_classes(all, i + 1)[k].1 by {
                    if k < before.len() {
                        assert(tecs@[k] == before[k]);
                    }
                }
                assert forall|k: int| 0 <= k < tecs@.len() implies (#[trigger] tecs@[k]).wf() && shifts_fit(
                    tecs@[k].kernel,
                    tecs@[k].scatter@,
                ) by {
                    if k < before.len() {
                        assert(tecs@[k] == before[k]);
                    }
                }
            }
        } else {
            proof {
                assert forall|t: int, e: E| expansion_count(layer.kernel, layer.scatter@, t, e) <= usize::MAX by {
                    lemma_expansion_bound(layer.kernel, layer.scatter@, t, e);
                }
            }
            let expansion = expand(&layer.kernel, layer.scatter.as_slice());
            add_plane(&mut res, &expansion);
            skipped = skipped + 1;
        }
        proof {
            assert(queue@ =~= all.subrange(i + 1, n as int).reverse());
        }
        i = i + 1;
    }
    if !res.is_empty() {
        let ghost before = tecs@;
        tecs.push(TransEqClass::new(Vec::new(), res));
        proof {
            assert forall|k: int| 0 <= k < before.len() implies (#[trigger] tecs@[k]).scatter@ == kept_classes(
                all,
                n as int,
            )[k].0 && tecs@[k].kernel == kept_classes(all, n as int)[k].1 by {
                assert(tecs@[k] == before[k]);
            }
            assert forall|k: int| 0 <= k < tecs@.len() implies (#[trigger] tecs@[k]).wf() && shifts_fit(
                tecs@[k].kernel,
                tecs@[k].scatter@,
            ) by {
                if k < before.len() {
                    assert(tecs@[k] == before[k]);
                }
            }
            res.lemma_total_zero();
            res.lemma_entry_count(0);
            let t0 = res.entries()[0].0 as int;
            let e0 = res.entries()[0].1;
            assert(absorbed(all, start, n as int, t0, e0) > 0);
        }
    } else {
        proof {
            assert(res.total() == 0);
            assert forall|t: int, e: E| #[trigger] absorbed(all, start, n as int, t, e) == 0 by {
                crate::analysis::lemma_count_le_total(res.entries(), t, e);
                assert(res.count(t, e) == absorbed(all, start, i as int, t, e));
            }
        }
    }
    (tecs, skipped)
}

/// A prefix of the entries holds at most all their points.
proof fn lemma_total_take<E>(s: Seq<(Tick, E, usize)>, i: int)
    requires
        0 <= i <= s.len(),
    ensures
        crate::analysis::total_in(s.take(i)) <= crate::analysis::total_in(s),
    decreases s.len() - i,
{
    if i < s.len() {
        lemma_total_take(s, i + 1);
        assert(s.take(i + 1).drop_last() =~= s.take(i));
    } else {
        assert(s.take(i) =~= s);
    }
}

/// The points counted grow with the layers.
proof fn lemma_plan_points_mono<E>(plan: Seq<Layer<E>>, residual: TpPlane<E>, i: int, n: int)
    requires
        0 <= i <= n,
    ensures
        plan_points(plan, residual, i) <= plan_points(plan, residual, n),
    decreases n,
{
    if i < n {
        lemma_plan_points_mono(plan, residual, i, n - 1);
    }
}


// BoundedTec
//
// ++++++++++++============++++++++++++============++++++++++++============

/// The multiplicity of `(t, e)` in the bounded kernel: the kernel's, less
/// the bounded multiplicities of the points one offset earlier (never
/// below zero). Points are settled in order of time, each after all the
/// points that can reach it.
pub open spec fn bounded_count<E>(k: TpPlane<E>, s: Seq<Tick>, t: int, e: E) -> nat
    decreases t, s.len() + 1,
{
    if t < 0 {
        0
    } else {
        let c = k.count(t, e);
        let d = bounded_sum(k, s, t, e, s.len() as int);
        if c > d {
            (c - d) as nat
        } else {
            0
        }
    }
}

/// The bounded multiplicities of the points the first `j` offsets earlier
/// than `(t, e)`.
pub open spec fn bounded_sum<E>(k: TpPlane<E>, s: Seq<Tick>, t: int, e: E, j: int) -> nat
    decreases t, j,
{
    if j <= 0 {
        0
    } else {
        bounded_sum(k, s, t, e, j - 1) + if s[j - 1] > 0 && t - s[j - 1] >= 0 {
            bounded_count(k, s, t - s[j - 1], e)
        } else {
            0
        }
    }
}

/// A class whose kernel has been reduced, point by point in order of time,
/// by the points that the earlier kernel points already cover at their
/// offsets.
pub struct BoundedTec<E>(TransEqClass<E>);

impl<E: Event> BoundedTec<E> {
    /// The reduced class.
    pub closed spec fn spec_inner(&self) -> TransEqClass<E> {
        self.0
    }

    /// Reduces the kernel: each point, in order of time, loses as many as
    /// the reduced kernel holds at the points one offset earlier.
    pub fn new(tec: TransEqClass<E>) -> (r: Self)
        requires
            tec.wf(),
            shifts_fit(tec.kernel, tec.scatter@),
        ensures
            r.spec_inner().scatter == tec.scatter,
            r.spec_inner().kernel.wf(),
            forall|t: int, e: E| r.spec_inner().kernel.count(t, e) == bounded_count(tec.kernel, tec.scatter@, t, e),
    {
        let k = &tec.kernel;
        let ghost kk = tec.kernel;
        let ghost s = tec.scatter@;
        let mut out: TpPlane<E> = TpPlane::new();
        let mut last: i64 = -1;
        loop
            invariant_except_break
                kk == tec.kernel,
                *k == kk,
                s == tec.scatter@,
                tec.wf(),
                -1 <= last <= u32::MAX,
                out.wf(),
                forall|t: int, e: E| t <= last ==> out.count(t, e) == bounded_count(kk, s, t, e),
                forall|t: int, e: E| t > last ==> out.count(t, e) == 0,
            ensures
                out.wf(),
                forall|t: int, e: E| out.count(t, e) == bounded_count(kk, s, t, e),
            decreases u32::MAX + 1 - last,
        {
            // the next tick with points
            let mut next: Option<Tick> = None;
            let mut i: usize = 0;
            while i < k.len()
                invariant
                    i <= kk.entries().len(),
                    *k == kk,
                    -1 <= last <= u32::MAX,
                    next matches Some(n) ==> (n > last && exists|j: int|
                        0 <= j < i && #[trigger] kk.entries()[j].0 == n),
                    forall|j: int| 0 <= j < i && kk.entries()[j].0 > last ==> (next matches Some(n) && n <= #[trigger] kk.entries()[j].0),
                decreases kk.entries().len() - i,
            {
                let (t, _, _) = k.entry_at(i);
                if t as i64 > last {
                    next = match next {
                        Some(n) => if t < n {
                            Some(t)
                        } else {
                            Some(n)
                        },
                        None => Some(t),
                    };
                }
                i = i + 1;
            }
            let tick = match next {
                Some(n) => n,
                None => {
                    proof {
                        assert forall|t: int, e: E| out.count(t, e) == bounded_count(kk, s, t, e) by {
                            if t > last {
                                assert forall|j: int| 0 <= j < kk.entries().len() implies !(kk.entries()[j].0 as int == t
                                    && kk.entries()[j].1 == e) by {}
                                crate::analysis::lemma_count_absent(kk.entries(), t, e);
                                lemma_bounded_zero(kk, s, t, e);
                            }
                        }
                    }
                    break ;
                },
            };
            // settle the points at that tick
            proof {
                assert forall|t: int, e: E| t < tick implies out.count(t, e) == bounded_count(kk, s, t, e) by {
                    if t > last {
                        assert forall|j: int| 0 <= j < kk.entries().len() implies !(kk.entries()[j].0 as int == t
                            && kk.entries()[j].1 == e) by {
                            if kk.entries()[j].0 > last {
                                assert(tick <= kk.entries()[j].0);
                            }
                        }
                        crate::analysis::lemma_count_absent(kk.entries(), t, e);
                        lemma_bounded_zero(kk, s, t, e);
                    }
                }
            }
            let ghost before = out;
            let mut i: usize = 0;
            while i < k.len()
                invariant
                    i <= kk.entries().len(),
                    *k == kk,
                    s == tec.scatter@,
                    tec.wf(),
                    kk.wf(),
                    tick > last,
                    forall|j: int| 0 <= j < kk.entries().len() && kk.entries()[j].0 > last ==> tick <= #[trigger] kk.entries()[j].0,
                    out.wf(),
                    forall|t: int, e: E| t < tick ==> out.count(t, e) == bounded_count(kk, s, t, e),
                    forall|t: int, e: E| t > tick ==> out.count(t, e) == 0,
                    forall|e: E|
                        out.count(tick as int, e) == if exists|j: int| 0 <= j < i && #[trigger] kk.entries()[j].0 == tick && kk.entries()[j].1 == e {
                            bounded_count(kk, s, tick as int, e)
                        } else {
                            0
                        },
                decreases kk.entries().len() - i,
            {
                let (t, e, c) = k.entry_at(i);
                if t == tick {
                    let covered = self_covered(&out, &tec.scatter, t, e, c, Ghost(kk));
                    proof {
                        kk.lemma_entry_count(i as int);
                        assert(out.count(t as int, *e) == 0) by {
                            if exists|j: int| 0 <= j < i && #[trigger] kk.entries()[j].0 == tick && kk.entries()[j].1 == *e {
                                let j = choose|j: int| 0 <= j < i && #[trigger] kk.entries()[j].0 == tick && kk.entries()[j].1 == *e;
                                assert(kk.entries()[j].0 == kk.entries()[i as int].0 && kk.entries()[j].1 == kk.entries()[i as int].1);
                            }
                        }
                    }
                    if covered < c {
                        out.add(t, e.duplicate(), c - covered);
                    }
                    proof {
                        assert forall|e2: E| out.count(tick as int, e2) == if exists|j: int| 0 <= j < i + 1 && #[trigger] kk.entries()[j].0 == tick && kk.entries()[j].1 == e2 {
                            bounded_count(kk, s, tick as int, e2)
                        } else {
                            0
                        } by {
                            if e2 == *e {
                                assert(kk.entries()[i as int].0 == tick && kk.entries()[i as int].1 == e2);
                            } else if exists|j: int| 0 <= j < i + 1 && #[trigger] kk.entries()[j].0 == tick && kk.entries()[j].1 == e2 {
                                let j = choose|j: int| 0 <= j < i + 1 && #[trigger] kk.entries()[j].0 == tick && kk.entries()[j].1 == e2;
                                assert(j < i);
                            }
                        }
                    }
                }
                i = i + 1;
            }
            proof {
                assert forall|t: int, e: E| t <= tick implies out.count(t, e) == bounded_count(kk, s, t, e) by {
                    if t == tick {
                        if !(exists|j: int| 0 <= j < kk.entries().len() && #[trigger] kk.entries()[j].0 == tick && kk.entries()[j].1 == e) {
                            assert forall|j: int| 0 <= j < kk.entries().len() implies !(kk.entries()[j].0 as int == t
                                && kk.entries()[j].1 == e) by {}
                            crate::analysis::lemma_count_absent(kk.entries(), t, e);
                            lemma_bounded_zero(kk, s, t, e);
                        }
                    }
                }
            }
            last = tick as i64;
        }
        BoundedTec(TransEqClass { scatter: tec.scatter, kernel: out })
    }

    /// The reduced class.
    pub fn into_inner(self) -> (r: TransEqClass<E>)
        ensures
            r == self.spec_inner(),
    {
        self.0
    }
}

/// A point the kernel does not hold stays out of the bounded kernel.
proof fn lemma_bounded_zero<E>(k: TpPlane<E>, s: Seq<Tick>, t: int, e: E)
    requires
        k.count(t, e) == 0,
    ensures
        bounded_count(k, s, t, e) == 0,
{
}

/// How many of the `c` points at `(t, e)` the bounded points one offset
/// earlier already cover, at most `c`.
fn self_covered<E: Event>(
    out: &TpPlane<E>,
    scatter: &Vec<Tick>,
    t: Tick,
    e: &E,
    c: usize,
    Ghost(kk): Ghost<TpPlane<E>>,
) -> (r: usize)
    requires
        out.wf(),
        forall|i: int| 0 <= i < scatter@.len() ==> scatter@[i] > 0,
        forall|u: int, e2: E| u < t ==> #[trigger] out.count(u, e2) == bounded_count(kk, scatter@, u, e2),
    ensures
        r == if c <= bounded_sum(kk, scatter@, t as int, *e, scatter@.len() as int) {
            c as int
        } else {
            bounded_sum(kk, scatter@, t as int, *e, scatter@.len() as int) as int
        },
{
    let mut a: usize = 0;
    let mut j: usize = 0;
    while j < scatter.len()
        invariant
            j <= scatter@.len(),
            out.wf(),
            forall|i: int| 0 <= i < scatter@.len() ==> scatter@[i] > 0,
            forall|u: int, e2: E| u < t ==> #[trigger] out.count(u, e2) == bounded_count(kk, scatter@, u, e2),
            a == if c <= bounded_sum(kk, scatter@, t as int, *e, j as int) {
                c as int
            } else {
                bounded_sum(kk, scatter@, t as int, *e, j as int) as int
            },
        decreases scatter@.len() - j,
    {
        let o = scatter[j];
        let x: usize = if t >= o {
            out.get(t - o, e)
        } else {
            0
        };
        proof {
            assert(x == if t - o >= 0 { bounded_count(kk, scatter@, t - o, *e) } else { 0 });
        }
        a = if x > c - a {
            c
        } else {
            a + x
        };
        j = j + 1;
    }
    a
}


// Combining classes
//
// ++++++++++++============++++++++++++============++++++++++++============

proof fn lemma_push_contains(s: Seq<Tick>, x: Tick, y: Tick)
    ensures
        s.push(x).contains(y) <==> (s.contains(y) || y == x),
{
    {
        if s.push(x).contains(y) {
            let k = choose|k: int| 0 <= k < s.push(x).len() && s.push(x)[k] == y;
            if k < s.len() {
                assert(s[k] == y);
            }
        }
        if s.contains(y) {
            let k = choose|k: int| 0 <= k < s.len() && s[k] == y;
            assert(s.push(x)[k] == y);
        }
        if y == x {
            assert(s.push(x)[s.len() as int] == y);
        }
    }
}

/// The ascending offsets of both, each once.
fn merge_offsets(a: &Vec<Tick>, b: &Vec<Tick>) -> (r: Vec<Tick>)
    requires
        ascending(a@),
        ascending(b@),
    ensures
        ascending(r@),
        forall|x: Tick| r@.contains(x) <==> (a@.contains(x) || b@.contains(x)),
{
    let mut out: Vec<Tick> = Vec::new();
    let mut i: usize = 0;
    let mut j: usize = 0;
    while i < a.len() || j < b.len()
        invariant
            ascending(a@),
            ascending(b@),
            i <= a@.len(),
            j <= b@.len(),
            ascending(out@),
            forall|x: Tick| out@.contains(x) <==> (a@.take(i as int).contains(x) || b@.take(j as int).contains(x)),
            out@.len() > 0 ==> (i < a@.len() ==> out@.last() < a@[i as int]) && (j < b@.len() ==> out@.last() < b@[j as int]),
        decreases a@.len() + b@.len() - i - j,
    {
        let ghost before = out@;
        let ghost (i0, j0) = (i as int, j as int);
        let take_a = j >= b.len() || (i < a.len() && a[i] <= b[j]);
        let x = if take_a {
            a[i]
        } else {
            b[j]
        };
        out.push(x);
        if take_a {
            if j < b.len() && b[j] == x {
                j = j + 1;
            }
            i = i + 1;
        } else {
            j = j + 1;
        }
        proof {
            let ta = a@.take(i as int);
            let tb = b@.take(j as int);
            if i as int == i0 + 1 {
                assert(ta =~= a@.take(i0).push(x));
            } else {
                assert(ta =~= a@.take(i0));
            }
            if j as int == j0 + 1 {
                assert(tb =~= b@.take(j0).push(x));
            } else {
                assert(tb =~= b@.take(j0));
            }
            assert(x == a@[i0] || x == b@[j0]);
            if i as int == i0 {
                assert(b@[j0] == x);
            }
            assert(out@ == before.push(x));
            assert forall|y: Tick| out@.contains(y) <==> (ta.contains(y) || tb.contains(y)) by {
                lemma_push_contains(before, x, y);
                assert(before.contains(y) <==> (a@.take(i0).contains(y) || b@.take(j0).contains(y)));
                if i as int == i0 + 1 {
                    lemma_push_contains(a@.take(i0), x, y);
                }
                if j as int == j0 + 1 {
                    lemma_push_contains(b@.take(j0), x, y);
                }
            }
        }
    }
    proof {
        assert(a@.take(i as int) =~= a@);
        assert(b@.take(j as int) =~= b@);
    }
    out
}

impl<E: Event> TransEqClass<E> {
    /// The class of the offsets of either class over the points both
    /// kernels hold: each point as often as the lesser of its two
    /// multiplicities.
    pub fn bitand(self, rhs: Self) -> (r: Self)
        requires
            self.wf(),
            rhs.wf(),
        ensures
            r.wf(),
            forall|x: Tick| r.scatter@.contains(x) <==> (self.scatter@.contains(x) || rhs.scatter@.contains(x)),
            forall|t: int, e: E| #[trigger] r.kernel.count(t, e) == if self.kernel.count(t, e) <= rhs.kernel.count(t, e) {
                self.kernel.count(t, e)
            } else {
                rhs.kernel.count(t, e)
            },
    {
        let scatter = merge_offsets(&self.scatter, &rhs.scatter);
        let a = &self.kernel;
        let b = &rhs.kernel;
        let ghost ae = a.entries();
        let mut kernel: TpPlane<E> = TpPlane::new();
        let mut i: usize = 0;
        while i < a.len()
            invariant
                i <= ae.len(),
                ae == a.entries(),
                a.wf(),
                b.wf(),
                kernel.wf(),
                forall|t: int, e: E| #[trigger] kernel.count(t, e) == if crate::analysis::count_in(ae.take(i as int), t, e) <= b.count(t, e) {
                    crate::analysis::count_in(ae.take(i as int), t, e)
                } else {
                    b.count(t, e)
                },
            decreases ae.len() - i,
        {
            let (t, e, c) = a.entry_at(i);
            let d = b.get(t, e);
            let m = if c <= d {
                c
            } else {
                d
            };
            proof {
                assert(ae.take(i + 1).drop_last() =~= ae.take(i as int));
                assert forall|k: int| 0 <= k < ae.take(i as int).len() implies !(ae.take(i as int)[k].0 as int == t as int
                    && ae.take(i as int)[k].1 == *e) by {
                    assert(!(ae[k].0 == ae[i as int].0 && ae[k].1 == ae[i as int].1));
                }
                crate::analysis::lemma_count_absent(ae.take(i as int), t as int, *e);
                assert(kernel.count(t as int, *e) == 0);
            }
            if m > 0 {
                kernel.add(t, e.duplicate(), m);
            }
            proof {
                assert forall|t2: int, e2: E| #[trigger] kernel.count(t2, e2) == if crate::analysis::count_in(ae.take(i + 1), t2, e2) <= b.count(t2, e2) {
                    crate::analysis::count_in(ae.take(i + 1), t2, e2)
                } else {
                    b.count(t2, e2)
                } by {
                    crate::analysis::lemma_count_push(ae.take(i as int), ae[i as int], t2, e2);
                }
            }
            i = i + 1;
        }
        proof {
            assert(ae.take(i as int) =~= ae);
            assert forall|k: int| 0 <= k < scatter@.len() implies scatter@[k] > 0 by {
                assert(scatter@.contains(scatter@[k]));
                if self.scatter@.contains(scatter@[k]) {
                    let j = choose|j: int| 0 <= j < self.scatter@.len() && self.scatter@[j] == scatter@[k];
                } else {
                    let j = choose|j: int| 0 <= j < rhs.scatter@.len() && rhs.scatter@[j] == scatter@[k];
                }
            }
        }
        TransEqClass { scatter, kernel }
    }
}


/// Whether a plan and residual meet what [`plan_to_tecs`] needs: each
/// layer as the flow makes it, and all the points they expand to countable.
pub fn plan_fits<E: Event>(plan: &Vec<Layer<E>>, residual: &TpPlane<E>) -> (r: bool)
    ensures
        r == ((forall|k: int| 0 <= k < plan@.len() ==> plan_layer_ok(#[trigger] plan@[k])) && residual.wf()
            && plan_points(plan@, *residual, plan@.len() as int) <= usize::MAX),
{
    if !residual.check_wf() {
        return false;
    }
    let mut total: u128 = match plane_total(residual) {
        Some(x) => x as u128,
        None => {
            proof {
                lemma_plan_points_mono(plan@, *residual, 0, plan@.len() as int);
            }
            return false;
        },
    };
    let mut k: usize = 0;
    while k < plan.len()
        invariant
            k <= plan@.len(),
            residual.wf(),
            forall|j: int| 0 <= j < k ==> plan_layer_ok(#[trigger] plan@[j]),
            total == plan_points(plan@, *residual, k as int),
            total <= usize::MAX,
        decreases plan@.len() - k,
    {
        let layer = &plan[k];
        if !layer_ok(layer) {
            return false;
        }
        let points: u128 = match plane_total(&layer.kernel) {
            Some(x) => x as u128,
            None => {
                proof {
                    if layer.scatter@.len() > 0 {
                        assert(layer.kernel.total() <= layer.kernel.total() * layer.scatter@.len()) by (nonlinear_arith)
                            requires
                                layer.scatter@.len() >= 1,
                        ;
                        lemma_plan_points_mono(plan@, *residual, k + 1, plan@.len() as int);
                    }
                }
                if layer.scatter.len() > 0 {
                    return false;
                }
                0
            },
        };
        let len = layer.scatter.len() as u128;
        proof {
            assert(points * len <= 18446744073709551615u128 * 18446744073709551615u128) by (nonlinear_arith)
                requires
                    points <= usize::MAX,
                    len <= usize::MAX,
            ;
        }
        let add = points * len;
        proof {
            if len == 0 {
                assert(layer.kernel.total() * layer.scatter@.len() == 0) by (nonlinear_arith)
                    requires
                        layer.scatter@.len() == 0,
                ;
            } else {
                assert(points == layer.kernel.total());
            }
            assert(add == layer.kernel.total() * layer.scatter@.len());
        }
        total = total + add;
        if total > usize::MAX as u128 {
            proof {
                lemma_plan_points_mono(plan@, *residual, k + 1, plan@.len() as int);
            }
            return false;
        }
        k = k + 1;
    }
    true
}

/// Whether a layer is as the flow makes it.
fn layer_ok<E: Event>(l: &Layer<E>) -> (r: bool)
    ensures
        r == plan_layer_ok(*l),
{
    let s = &l.scatter;
    if s.len() > 0 && s[0] != 0 {
        return false;
    }
    let mut i: usize = 1;
    while i < s.len()
        invariant
            *s == l.scatter,
            1 <= i,
            forall|a: int, b: int| 0 <= a < b < i && b < s@.len() ==> s@[a] < s@[b],
        decreases s@.len() - i,
    {
        if s[i - 1] >= s[i] {
            proof {
                if ascending(s@) {
                    assert(s@[i - 1] < s@[i as int]);
                }
            }
            return false;
        }
        proof {
            assert forall|a: int, b: int| 0 <= a < b < i + 1 && b < s@.len() implies s@[a] < s@[b] by {
                if b == i && a < i - 1 {
                    assert(s@[a] < s@[i - 1]);
                }
            }
        }
        i = i + 1;
    }
    if !l.kernel.check_wf() {
        return false;
    }
    let top = max_offset(s);
    let kernel = &l.kernel;
    let ghost ke = kernel.entries();
    let mut j: usize = 0;
    while j < kernel.len()
        invariant
            *s == l.scatter,
            *kernel == l.kernel,
            j <= ke.len(),
            ke == kernel.entries(),
            kernel.wf(),
            top matches Some(m) ==> forall|a: int| 0 <= a < s@.len() ==> s@[a] <= m,
            top matches Some(m) ==> s@.contains(m),
            top is None ==> s@.len() == 0,
            forall|q: int, a: int| 0 <= q < j && 0 <= a < s@.len() ==> ke[q].0 + s@[a] <= u32::MAX,
        decreases ke.len() - j,
    {
        let (t, _, _) = kernel.entry_at(j);
        if let Some(m) = top {
            if t as u64 + m as u64 > 4294967295 {
                proof {
                    let a = choose|a: int| 0 <= a < s@.len() && s@[a] == m;
                    kernel.lemma_entry_count(j as int);
                    let e = ke[j as int].1;
                    assert(kernel.count(t as int, e) > 0);
                    if shifts_fit(l.kernel, l.scatter@) {
                        assert(l.kernel.count(t as int, e) > 0 && 0 <= a < s@.len());
                        assert(t as int + s@[a] <= u32::MAX);
                    }
                }
                return false;
            }
        }
        j = j + 1;
    }
    proof {
        assert forall|t: int, e: E, a: int| kernel.count(t, e) > 0 && 0 <= a < s@.len() implies t + s@[a] <= u32::MAX by {
            lemma_count_positive_entry(kernel.entries(), t, e);
            let q = choose|q: int| 0 <= q < ke.len() && ke[q].0 as int == t && ke[q].1 == e;
        }
    }
    true
}

/// The largest offset, if any.
fn max_offset(s: &Vec<Tick>) -> (r: Option<Tick>)
    ensures
        r matches Some(m) ==> (forall|a: int| 0 <= a < s@.len() ==> s@[a] <= m) && s@.contains(m),
        r is None <==> s@.len() == 0,
{
    if s.len() == 0 {
        return None;
    }
    let mut m = s[0];
    let mut i: usize = 1;
    while i < s.len()
        invariant
            1 <= i <= s@.len(),
            forall|a: int| 0 <= a < i ==> s@[a] <= m,
            s@.contains(m),
        decreases s@.len() - i,
    {
        if s[i] > m {
            m = s[i];
        }
        i = i + 1;
    }
    Some(m)
}


/// A point with a positive multiplicity has an entry.
proof fn lemma_count_positive_entry<E>(s: Seq<(Tick, E, usize)>, t: int, e: E)
    requires
        crate::analysis::count_in(s, t, e) > 0,
    ensures
        exists|q: int| 0 <= q < s.len() && s[q].0 as int == t && s[q].1 == e,
{
    if !(exists|q: int| 0 <= q < s.len() && s[q].0 as int == t && s[q].1 == e) {
        crate::analysis::lemma_count_absent(s, t, e);
    }
}

/// The plane's points, if they can be counted in a `usize`.
fn plane_total<E: Event>(p: &TpPlane<E>) -> (r: Option<usize>)
    ensures
        r matches Some(x) ==> x == p.total(),
        r is None ==> p.total() > usize::MAX,
{
    let ghost s = p.entries();
    let mut sum: usize = 0;
    let mut i: usize = 0;
    while i < p.len()
        invariant
            s == p.entries(),
            i <= s.len(),
            sum == crate::analysis::total_in(s.take(i as int)),
        decreases s.len() - i,
    {
        let (_, _, c) = p.entry_at(i);
        proof {
            assert(s.take(i + 1).drop_last() =~= s.take(i as int));
            crate::analysis::lemma_total_push(s.take(i as int), s[i as int]);
        }
        if c > usize::MAX - sum {
            proof {
                lemma_total_take(s, i + 1);
            }
            return None;
        }
        sum = sum + c;
        i = i + 1;
    }
    proof {
        assert(s.take(i as int) =~= s);
    }
    Some(sum)
}

} // verus!
