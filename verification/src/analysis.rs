//! Translation analysis of the time/event plane.
//!
//! The plane is a multiset of `(tick, event)` points. Everything that the
//! reuse decomposition `M = K (+) S + R` needs from it lives here: counting,
//! adding and removing multiplicity, and the spec-level sums over entries.

use crate::types::Tick;
use vstd::prelude::*;
use vstd::std_specs::cmp::PartialEqSpecImpl;

verus! {

/// A point in the TE (time/event) plane.
pub type Point<E> = (Tick, E);

/// The plane's second axis: an event occurring at a tick.
///
/// The plane only needs to tell two events apart and to copy one; both
/// operations must agree with mathematical equality.
pub trait Event: Sized {
    /// Whether two events are the same event.
    fn same(&self, other: &Self) -> (r: bool)
        ensures
            r == (*self == *other),
    ;

    /// A copy of the event.
    fn duplicate(&self) -> (r: Self)
        ensures
            r == *self,
    ;
}

// Spec-level sums over entry sequences
//
// ++++++++++++============++++++++++++============++++++++++++============

/// Multiplicity of the point `(t, e)` in a sequence of entries.
pub open spec fn count_in<E>(s: Seq<(Tick, E, usize)>, t: int, e: E) -> nat
    decreases s.len(),
{
    if s.len() == 0 {
        0
    } else {
        count_in(s.drop_last(), t, e) + (if s.last().0 as int == t && s.last().1 == e {
            s.last().2 as nat
        } else {
            0
        })
    }
}

/// Sum of all multiplicities in a sequence of entries.
pub open spec fn total_in<E>(s: Seq<(Tick, E, usize)>) -> nat
    decreases s.len(),
{
    if s.len() == 0 {
        0
    } else {
        total_in(s.drop_last()) + s.last().2 as nat
    }
}

/// Number of occurrences of `(t, e)` in a sequence of points.
pub open spec fn occurrences<E>(s: Seq<(Tick, E)>, t: int, e: E) -> nat
    decreases s.len(),
{
    if s.len() == 0 {
        0
    } else {
        occurrences(s.drop_last(), t, e) + (if s.last().0 as int == t && s.last().1 == e {
            1nat
        } else {
            0
        })
    }
}

/// No two entries share a point.
pub open spec fn keys_distinct<E>(s: Seq<(Tick, E, usize)>) -> bool {
    forall|i: int, j: int|
        0 <= i < j < s.len() ==> !(s[i].0 == s[j].0 && s[i].1 == s[j].1)
}

/// Every entry carries a positive multiplicity.
pub open spec fn counts_positive<E>(s: Seq<(Tick, E, usize)>) -> bool {
    forall|i: int| 0 <= i < s.len() ==> s[i].2 > 0
}

pub proof fn lemma_count_push<E>(s: Seq<(Tick, E, usize)>, x: (Tick, E, usize), t: int, e: E)
    ensures
        count_in(s.push(x), t, e) == count_in(s, t, e) + (if x.0 as int == t && x.1 == e {
            x.2 as nat
        } else {
            0
        }),
{
    assert(s.push(x).drop_last() =~= s);
}

pub proof fn lemma_total_push<E>(s: Seq<(Tick, E, usize)>, x: (Tick, E, usize))
    ensures
        total_in(s.push(x)) == total_in(s) + x.2,
{
    assert(s.push(x).drop_last() =~= s);
}

pub proof fn lemma_count_absent<E>(s: Seq<(Tick, E, usize)>, t: int, e: E)
    requires
        forall|i: int| 0 <= i < s.len() ==> !(s[i].0 as int == t && s[i].1 == e),
    ensures
        count_in(s, t, e) == 0,
    decreases s.len(),
{
    if s.len() > 0 {
        lemma_count_absent(s.drop_last(), t, e);
    }
}

pub proof fn lemma_count_at<E>(s: Seq<(Tick, E, usize)>, i: int)
    requires
        keys_distinct(s),
        0 <= i < s.len(),
    ensures
        count_in(s, s[i].0 as int, s[i].1) == s[i].2,
    decreases s.len(),
{
    let t = s[i].0 as int;
    let e = s[i].1;
    if i == s.len() - 1 {
        lemma_count_absent(s.drop_last(), t, e);
    } else {
        lemma_count_at(s.drop_last(), i);
    }
}

pub proof fn lemma_count_update<E>(s: Seq<(Tick, E, usize)>, i: int, c: usize, t: int, e: E)
    requires
        0 <= i < s.len(),
    ensures
        count_in(s.update(i, (s[i].0, s[i].1, c)), t, e) as int == count_in(s, t, e) as int
            - (if s[i].0 as int == t && s[i].1 == e {
            s[i].2 as int
        } else {
            0
        }) + (if s[i].0 as int == t && s[i].1 == e {
            c as int
        } else {
            0
        }),
    decreases s.len(),
{
    let u = s.update(i, (s[i].0, s[i].1, c));
    if i == s.len() - 1 {
        assert(u.drop_last() =~= s.drop_last());
    } else {
        assert(u.drop_last() =~= s.drop_last().update(i, (s[i].0, s[i].1, c)));
        lemma_count_update(s.drop_last(), i, c, t, e);
    }
}

pub proof fn lemma_total_update<E>(s: Seq<(Tick, E, usize)>, i: int, c: usize)
    requires
        0 <= i < s.len(),
    ensures
        total_in(s.update(i, (s[i].0, s[i].1, c))) as int == total_in(s) as int - s[i].2 as int
            + c as int,
    decreases s.len(),
{
    let u = s.update(i, (s[i].0, s[i].1, c));
    if i == s.len() - 1 {
        assert(u.drop_last() =~= s.drop_last());
    } else {
        assert(u.drop_last() =~= s.drop_last().update(i, (s[i].0, s[i].1, c)));
        lemma_total_update(s.drop_last(), i, c);
    }
}

pub proof fn lemma_count_le_total<E>(s: Seq<(Tick, E, usize)>, t: int, e: E)
    ensures
        count_in(s, t, e) <= total_in(s),
    decreases s.len(),
{
    if s.len() > 0 {
        lemma_count_le_total(s.drop_last(), t, e);
    }
}

/// Sum, over the points of `keys`, of their multiplicities in `b`.
pub open spec fn count_sum_keys<E>(b: Seq<(Tick, E, usize)>, keys: Seq<(Tick, E, usize)>) -> nat
    decreases keys.len(),
{
    if keys.len() == 0 {
        0
    } else {
        count_sum_keys(b, keys.drop_last()) + count_in(b, keys.last().0 as int, keys.last().1)
    }
}

/// `c` times the number of points of `keys` equal to `(t, e)`.
pub open spec fn matches_sum<E>(keys: Seq<(Tick, E, usize)>, t: int, e: E, c: nat) -> nat
    decreases keys.len(),
{
    if keys.len() == 0 {
        0
    } else {
        matches_sum(keys.drop_last(), t, e, c) + (if keys.last().0 as int == t && keys.last().1
            == e {
            c
        } else {
            0
        })
    }
}

pub proof fn lemma_matches_sum_distinct<E>(keys: Seq<(Tick, E, usize)>, t: int, e: E, c: nat)
    requires
        keys_distinct(keys),
    ensures
        matches_sum(keys, t, e, c) <= c,
        (forall|i: int| 0 <= i < keys.len() ==> !(keys[i].0 as int == t && keys[i].1 == e))
            ==> matches_sum(keys, t, e, c) == 0,
    decreases keys.len(),
{
    if keys.len() > 0 {
        let k = keys.drop_last();
        lemma_matches_sum_distinct(k, t, e, c);
        if keys.last().0 as int == t && keys.last().1 == e {
            assert forall|i: int| 0 <= i < k.len() implies !(k[i].0 as int == t && k[i].1
                == e) by {
                assert(!(keys[i].0 == keys[keys.len() - 1].0 && keys[i].1 == keys[keys.len()
                    - 1].1));
            }
        }
    }
}

pub proof fn lemma_count_sum_keys_push<E>(
    b: Seq<(Tick, E, usize)>,
    y: (Tick, E, usize),
    keys: Seq<(Tick, E, usize)>,
)
    ensures
        count_sum_keys(b.push(y), keys) == count_sum_keys(b, keys) + matches_sum(
            keys,
            y.0 as int,
            y.1,
            y.2 as nat,
        ),
    decreases keys.len(),
{
    if keys.len() > 0 {
        lemma_count_sum_keys_push(b, y, keys.drop_last());
        lemma_count_push(b, y, keys.last().0 as int, keys.last().1);
    }
}

pub proof fn lemma_count_sum_keys_le_total<E>(b: Seq<(Tick, E, usize)>, keys: Seq<(Tick, E, usize)>)
    requires
        keys_distinct(keys),
    ensures
        count_sum_keys(b, keys) <= total_in(b),
    decreases b.len(),
{
    if b.len() == 0 {
        lemma_count_sum_keys_zero(b, keys);
    } else {
        let bd = b.drop_last();
        let y = b.last();
        assert(bd.push(y) =~= b);
        lemma_count_sum_keys_le_total(bd, keys);
        lemma_count_sum_keys_push(bd, y, keys);
        lemma_matches_sum_distinct(keys, y.0 as int, y.1, y.2 as nat);
    }
}

pub proof fn lemma_count_sum_keys_zero<E>(b: Seq<(Tick, E, usize)>, keys: Seq<(Tick, E, usize)>)
    requires
        b.len() == 0,
    ensures
        count_sum_keys(b, keys) == 0,
    decreases keys.len(),
{
    if keys.len() > 0 {
        lemma_count_sum_keys_zero(b, keys.drop_last());
    }
}

/// Pointwise domination gives domination of totals.
pub proof fn lemma_total_mono<E>(a: Seq<(Tick, E, usize)>, b: Seq<(Tick, E, usize)>)
    requires
        keys_distinct(a),
        forall|t: int, e: E| count_in(a, t, e) <= count_in(b, t, e),
    ensures
        total_in(a) <= total_in(b),
{
    lemma_total_le_count_sum(a, b, a.len() as int);
    assert(a.take(a.len() as int) =~= a);
    lemma_count_sum_keys_le_total(b, a);
}

proof fn lemma_total_le_count_sum<E>(a: Seq<(Tick, E, usize)>, b: Seq<(Tick, E, usize)>, k: int)
    requires
        keys_distinct(a),
        0 <= k <= a.len(),
        forall|t: int, e: E| count_in(a, t, e) <= count_in(b, t, e),
    ensures
        total_in(a.take(k)) <= count_sum_keys(b, a.take(k)),
    decreases k,
{
    if k > 0 {
        lemma_total_le_count_sum(a, b, k - 1);
        assert(a.take(k).drop_last() =~= a.take(k - 1));
        lemma_count_at(a, k - 1);
    }
}

// TpPlane
//
// ++++++++++++============++++++++++++============++++++++++++============

/// TE (time/event) plane multiset: each point `(tick, event)` carries a
/// multiplicity.
#[derive(Debug, Clone)]
pub struct TpPlane<E> {
    entries: Vec<(Tick, E, usize)>,
}

impl<E> TpPlane<E> {
    /// The stored entries: one per point with a positive multiplicity.
    pub closed spec fn entries(self) -> Seq<(Tick, E, usize)> {
        self.entries@
    }

    /// Well-formedness: each point is stored once, with a positive count.
    pub open spec fn wf(self) -> bool {
        &&& keys_distinct(self.entries())
        &&& counts_positive(self.entries())
    }

    /// Multiplicity of the point `(t, e)`.
    pub open spec fn count(self, t: int, e: E) -> nat {
        count_in(self.entries(), t, e)
    }

    /// Sum of all multiplicities.
    pub open spec fn total(self) -> nat {
        total_in(self.entries())
    }

    /// Two planes hold the same multiset.
    pub open spec fn same_as(self, other: Self) -> bool {
        forall|t: int, e: E| self.count(t, e) == other.count(t, e)
    }

    /// The empty plane.
    pub fn new() -> (r: Self)
        ensures
            r.wf(),
            r.entries().len() == 0,
            r.total() == 0,
            forall|t: int, e: E| r.count(t, e) == 0,
    {
        TpPlane { entries: Vec::new() }
    }

    /// Number of distinct points.
    pub fn len(&self) -> (r: usize)
        ensures
            r == self.entries().len(),
    {
        self.entries.len()
    }

    /// Whether the plane holds no point.
    pub fn is_empty(&self) -> (r: bool)
        requires
            self.wf(),
        ensures
            r == (self.total() == 0),
            r == (self.entries().len() == 0),
    {
        proof {
            self.lemma_total_zero();
        }
        self.entries.len() == 0
    }

    /// The `i`-th stored point and its multiplicity.
    pub fn entry_at(&self, i: usize) -> (r: (Tick, &E, usize))
        requires
            i < self.entries().len(),
        ensures
            r.0 == self.entries()[i as int].0,
            *r.1 == self.entries()[i as int].1,
            r.2 == self.entries()[i as int].2,
    {
        let entry = &self.entries[i];
        (entry.0, &entry.1, entry.2)
    }

    /// A plane holds no point exactly when its total is zero.
    pub proof fn lemma_total_zero(self)
        requires
            self.wf(),
        ensures
            (self.total() == 0) == (self.entries().len() == 0),
    {
        let s = self.entries();
        if s.len() > 0 {
            lemma_total_positive(s);
        }
    }

    /// The multiplicity of a stored entry's point is the entry's count.
    pub proof fn lemma_entry_count(self, i: int)
        requires
            self.wf(),
            0 <= i < self.entries().len(),
        ensures
            self.count(self.entries()[i].0 as int, self.entries()[i].1) == self.entries()[i].2,
    {
        lemma_count_at(self.entries(), i);
    }

    /// A point absent from the entries has multiplicity zero.
    pub proof fn lemma_absent(self, t: int, e: E)
        requires
            forall|i: int|
                0 <= i < self.entries().len() ==> !(self.entries()[i].0 as int == t
                    && self.entries()[i].1 == e),
        ensures
            self.count(t, e) == 0,
    {
        lemma_count_absent(self.entries(), t, e);
    }

    /// A positive multiplicity belongs to some stored entry.
    pub proof fn lemma_present(self, t: int, e: E)
        requires
            self.count(t, e) > 0,
        ensures
            exists|i: int|
                0 <= i < self.entries().len() && self.entries()[i].0 as int == t
                    && self.entries()[i].1 == e,
    {
        if !exists|i: int|
            0 <= i < self.entries().len() && self.entries()[i].0 as int == t
                && self.entries()[i].1 == e {
            lemma_count_absent(self.entries(), t, e);
        }
    }

    /// A well-formed plane's multiplicities fit in a `usize`.
    pub proof fn lemma_count_bounded(self, t: int, e: E)
        requires
            self.wf(),
        ensures
            self.count(t, e) <= usize::MAX,
    {
        if self.count(t, e) > 0 {
            self.lemma_present(t, e);
            let i = choose|i: int|
                0 <= i < self.entries().len() && self.entries()[i].0 as int == t
                    && self.entries()[i].1 == e;
            self.lemma_entry_count(i);
        }
    }

    /// Every multiplicity is bounded by the total.
    pub proof fn lemma_count_le_total(self, t: int, e: E)
        ensures
            self.count(t, e) <= self.total(),
    {
        lemma_count_le_total(self.entries(), t, e);
    }

    /// Sum of all multiplicities (`values().sum()`).
    pub fn values_sum(&self) -> (r: usize)
        requires
            self.total() <= usize::MAX,
        ensures
            r == self.total(),
    {
        let mut sum: usize = 0;
        let mut i: usize = 0;
        while i < self.entries.len()
            invariant
                i <= self.entries().len(),
                sum == total_in(self.entries().take(i as int)),
                self.total() <= usize::MAX,
            decreases self.entries().len() - i,
        {
            proof {
                let s = self.entries();
                assert(s.take(i + 1).drop_last() =~= s.take(i as int));
                lemma_total_prefix_le(s, i + 1);
            }
            sum = sum + self.entries[i].2;
            i = i + 1;
        }
        proof {
            assert(self.entries().take(i as int) =~= self.entries());
        }
        sum
    }
}

pub proof fn lemma_total_positive<E>(s: Seq<(Tick, E, usize)>)
    requires
        counts_positive(s),
        s.len() > 0,
    ensures
        total_in(s) > 0,
{
}

pub proof fn lemma_total_prefix_le<E>(s: Seq<(Tick, E, usize)>, k: int)
    requires
        0 <= k <= s.len(),
    ensures
        total_in(s.take(k)) <= total_in(s),
    decreases s.len() - k,
{
    if k < s.len() {
        let t = s.take(k + 1);
        assert(t.drop_last() =~= s.take(k));
        lemma_total_prefix_le(s, k + 1);
    } else {
        assert(s.take(k) =~= s);
    }
}

impl Event for () {
    fn same(&self, other: &Self) -> (r: bool) {
        true
    }

    fn duplicate(&self) -> (r: Self) {
        ()
    }
}

impl<E: Event> TpPlane<E> {
    /// Index of the entry holding `(t, e)`, if any.
    fn find(&self, t: Tick, e: &E) -> (r: Option<usize>)
        ensures
            match r {
                Some(i) => i < self.entries().len() && self.entries()[i as int].0 == t
                    && self.entries()[i as int].1 == *e,
                None => forall|i: int|
                    0 <= i < self.entries().len() ==> !(self.entries()[i].0 == t
                        && self.entries()[i].1 == *e),
            },
    {
        let mut i: usize = 0;
        while i < self.entries.len()
            invariant
                i <= self.entries().len(),
                forall|j: int|
                    0 <= j < i ==> !(self.entries()[j].0 == t && self.entries()[j].1 == *e),
            decreases self.entries().len() - i,
        {
            let entry = &self.entries[i];
            if entry.0 == t && entry.1.same(e) {
                return Some(i);
            }
            i = i + 1;
        }
        None
    }

    /// Multiplicity of the point `(t, e)`.
    pub fn get(&self, t: Tick, e: &E) -> (r: usize)
        requires
            keys_distinct(self.entries()),
        ensures
            r == self.count(t as int, *e),
    {
        match self.find(t, e) {
            Some(i) => {
                proof {
                    lemma_count_at(self.entries(), i as int);
                }
                self.entries[i].2
            },
            None => {
                proof {
                    self.lemma_absent(t as int, *e);
                }
                0
            },
        }
    }

    /// Add `c` to the multiplicity of `(t, e)`.
    pub fn add(&mut self, t: Tick, e: E, c: usize)
        requires
            old(self).wf(),
            c > 0,
            old(self).count(t as int, e) + c <= usize::MAX,
        ensures
            final(self).wf(),
            final(self).total() == old(self).total() + c,
            forall|t2: int, e2: E|
                final(self).count(t2, e2) == old(self).count(t2, e2) + (if t2 == t as int && e2
                    == e {
                    c as nat
                } else {
                    0
                }),
    {
        let ghost s = self.entries@;
        match self.find(t, &e) {
            Some(i) => {
                proof {
                    lemma_count_at(s, i as int);
                }
                let old_c = self.entries[i].2;
                self.entries.set(i, (t, e, old_c + c));
                proof {
                    assert(self.entries@ =~= s.update(i as int, (s[i as int].0, s[i as int].1, (
                    old_c + c) as usize)));
                    assert forall|t2: int, e2: E|
                        self.count(t2, e2) == old(self).count(t2, e2) + (if t2 == t as int && e2
                            == e {
                            c as nat
                        } else {
                            0
                        }) by {
                        lemma_count_update(s, i as int, (old_c + c) as usize, t2, e2);
                    }
                    lemma_total_update(s, i as int, (old_c + c) as usize);
                }
            },
            None => {
                self.entries.push((t, e, c));
                proof {
                    assert(self.entries@ =~= s.push((t, e, c)));
                    assert forall|t2: int, e2: E|
                        self.count(t2, e2) == old(self).count(t2, e2) + (if t2 == t as int && e2
                            == e {
                            c as nat
                        } else {
                            0
                        }) by {
                        lemma_count_push(s, (t, e, c), t2, e2);
                    }
                    lemma_total_push(s, (t, e, c));
                }
            },
        }
    }

    /// Remove `c` from the multiplicity of `(t, e)`; an entry that drops to
    /// zero stays stored with count zero until [`Self::compact`] runs.
    pub(crate) fn take_away(&mut self, t: Tick, e: &E, c: usize)
        requires
            keys_distinct(old(self).entries()),
            c <= old(self).count(t as int, *e),
        ensures
            keys_distinct(final(self).entries()),
            final(self).entries().len() == old(self).entries().len(),
            forall|i: int|
                0 <= i < final(self).entries().len() ==> final(self).entries()[i].0 == old(
                    self,
                ).entries()[i].0 && final(self).entries()[i].1 == old(self).entries()[i].1,
            final(self).total() + c == old(self).total(),
            forall|t2: int, e2: E|
                final(self).count(t2, e2) + (if t2 == t as int && e2 == *e {
                    c as nat
                } else {
                    0
                }) == old(self).count(t2, e2),
    {
        let ghost s = self.entries@;
        let mut i: usize = 0;
        while i < self.entries.len()
            invariant
                self.entries@ == s,
                s == old(self).entries(),
                i <= s.len(),
                keys_distinct(s),
                c <= count_in(s, t as int, *e),
                forall|j: int| 0 <= j < i ==> !(s[j].0 == t && s[j].1 == *e),
            decreases s.len() - i,
        {
            if self.entries[i].0 == t && self.entries[i].1.same(e) {
                proof {
                    lemma_count_at(s, i as int);
                }
                let old_c = self.entries[i].2;
                let ev = self.entries[i].1.duplicate();
                self.entries.set(i, (t, ev, old_c - c));
                proof {
                    assert(self.entries@ =~= s.update(i as int, (s[i as int].0, s[i as int].1, (
                    old_c - c) as usize)));
                    assert forall|t2: int, e2: E|
                        self.count(t2, e2) + (if t2 == t as int && e2 == *e {
                            c as nat
                        } else {
                            0
                        }) == old(self).count(t2, e2) by {
                        lemma_count_update(s, i as int, (old_c - c) as usize, t2, e2);
                    }
                    lemma_total_update(s, i as int, (old_c - c) as usize);
                }
                return;
            }
            i = i + 1;
        }
        proof {
            lemma_count_absent(s, t as int, *e);
        }
    }

    /// Drop the entries whose count reached zero.
    pub(crate) fn compact(self) -> (r: Self)
        requires
            keys_distinct(self.entries()),
        ensures
            r.wf(),
            r.total() == self.total(),
            forall|t: int, e: E| r.count(t, e) == self.count(t, e),
    {
        let s = self.entries;
        let ghost gs = s@;
        let mut out: Vec<(Tick, E, usize)> = Vec::new();
        let mut i: usize = 0;
        while i < s.len()
            invariant
                s@ == gs,
                i <= gs.len(),
                keys_distinct(gs),
                keys_distinct(out@),
                counts_positive(out@),
                forall|j: int|
                    #![trigger out@[j]]
                    0 <= j < out@.len() ==> exists|k: int|
                        #![trigger gs[k]]
                        0 <= k < i && gs[k].0 == out@[j].0 && gs[k].1 == out@[j].1,
                total_in(out@) == total_in(gs.take(i as int)),
                forall|t: int, e: E| count_in(out@, t, e) == count_in(gs.take(i as int), t, e),
            decreases gs.len() - i,
        {
            let ghost before = out@;
            proof {
                assert(gs.take(i + 1).drop_last() =~= gs.take(i as int));
            }
            if s[i].2 > 0 {
                let ev = s[i].1.duplicate();
                out.push((s[i].0, ev, s[i].2));
                proof {
                    assert forall|t: int, e: E|
                        count_in(out@, t, e) == count_in(gs.take(i + 1), t, e) by {
                        lemma_count_push(before, (gs[i as int].0, gs[i as int].1, gs[i as int].2),
                            t, e);
                    }
                    lemma_total_push(before, (gs[i as int].0, gs[i as int].1, gs[i as int].2));
                    assert forall|j: int, k: int|
                        0 <= j < k < out@.len() implies !(out@[j].0 == out@[k].0 && out@[j].1
                            == out@[k].1) by {
                        if k == out@.len() - 1 {
                            let w = choose|w: int|
                                0 <= w < i && gs[w].0 == out@[j].0 && gs[w].1 == out@[j].1;
                            assert(gs[w].0 == gs[i as int].0 ==> gs[w].1 != gs[i as int].1);
                        }
                    }
                    assert forall|j: int|
                        #![trigger out@[j]]
                        0 <= j < out@.len() implies exists|k: int|
                            #![trigger gs[k]]
                            0 <= k < i + 1 && gs[k].0 == out@[j].0 && gs[k].1 == out@[j].1 by {
                        if j == out@.len() - 1 {
                            assert(gs[i as int].0 == out@[j].0 && gs[i as int].1 == out@[j].1);
                        } else {
                            let w = choose|w: int|
                                0 <= w < i && gs[w].0 == out@[j].0 && gs[w].1 == out@[j].1;
                            assert(0 <= w < i + 1);
                        }
                    }
                }
            }
            i = i + 1;
        }
        proof {
            assert(gs.take(i as int) =~= gs);
        }
        TpPlane { entries: out }
    }

    /// Collects `(tick, event)` points into a plane, each point counted as
    /// often as it occurs.
    pub fn from_iter(points: Vec<(Tick, E)>) -> (r: Self)
        ensures
            r.wf(),
            r.total() == points.len(),
            forall|t: int, e: E| r.count(t, e) == occurrences(points@, t, e),
    {
        let mut plane = Self::new();
        let mut i: usize = 0;
        while i < points.len()
            invariant
                i <= points.len(),
                plane.wf(),
                plane.total() == i,
                forall|t: int, e: E| plane.count(t, e) == occurrences(points@.take(i as int), t, e),
            decreases points.len() - i,
        {
            proof {
                assert(points@.take(i + 1).drop_last() =~= points@.take(i as int));
                plane.lemma_count_le_total(points@[i as int].0 as int, points@[i as int].1);
            }
            let ev = points[i].1.duplicate();
            plane.add(points[i].0, ev, 1);
            i = i + 1;
        }
        proof {
            assert(points@.take(i as int) =~= points@);
        }
        plane
    }

    /// Pointwise domination gives domination of totals.
    pub proof fn lemma_total_mono(self, other: Self)
        requires
            self.wf(),
            forall|t: int, e: E| self.count(t, e) <= other.count(t, e),
        ensures
            self.total() <= other.total(),
    {
        assert forall|t: int, e: E|
            count_in(self.entries(), t, e) <= count_in(other.entries(), t, e) by {
            assert(self.count(t, e) <= other.count(t, e));
        }
        lemma_total_mono(self.entries(), other.entries());
    }

    /// Whether the stored entries are well formed.
    pub fn check_wf(&self) -> (r: bool)
        ensures
            r == self.wf(),
    {
        let n = self.entries.len();
        let mut i: usize = 0;
        while i < n
            invariant
                n == self.entries().len(),
                i <= n,
                forall|a: int, b: int|
                    0 <= a < i && a < b < n ==> !(self.entries()[a].0 == self.entries()[b].0
                        && self.entries()[a].1 == self.entries()[b].1),
                forall|a: int| 0 <= a < i ==> self.entries()[a].2 > 0,
            decreases n - i,
        {
            if self.entries[i].2 == 0 {
                return false;
            }
            let mut j: usize = i + 1;
            while j < n
                invariant
                    n == self.entries().len(),
                    i < j <= n,
                    forall|b: int|
                        i < b < j ==> !(self.entries()[i as int].0 == self.entries()[b].0
                            && self.entries()[i as int].1 == self.entries()[b].1),
                decreases n - j,
            {
                if self.entries[i].0 == self.entries[j].0 && self.entries[i].1.same(
                    &self.entries[j].1,
                ) {
                    return false;
                }
                j = j + 1;
            }
            i = i + 1;
        }
        true
    }

    /// Every stored point of `self` has the same multiplicity in `other`.
    fn covered_by(&self, other: &Self) -> (r: bool)
        requires
            self.wf(),
            other.wf(),
        ensures
            r == forall|i: int|
                0 <= i < self.entries().len() ==> other.count(
                    self.entries()[i].0 as int,
                    self.entries()[i].1,
                ) == self.entries()[i].2,
    {
        let n = self.entries.len();
        let mut i: usize = 0;
        while i < n
            invariant
                n == self.entries().len(),
                i <= n,
                other.wf(),
                forall|a: int|
                    0 <= a < i ==> other.count(self.entries()[a].0 as int, self.entries()[a].1)
                        == self.entries()[a].2,
            decreases n - i,
        {
            let entry = &self.entries[i];
            if other.get(entry.0, &entry.1) != entry.2 {
                return false;
            }
            i = i + 1;
        }
        true
    }

    /// Whether two planes are well formed and hold the same multiset.
    pub fn equals(&self, other: &Self) -> (r: bool)
        ensures
            r == (self.wf() && other.wf() && self.same_as(*other)),
    {
        if !self.check_wf() || !other.check_wf() {
            return false;
        }
        let a = self.covered_by(other);
        let b = other.covered_by(self);
        proof {
            if a && b {
                assert forall|t: int, e: E| self.count(t, e) == other.count(t, e) by {
                    if self.count(t, e) > 0 {
                        self.lemma_present(t, e);
                        let i = choose|i: int|
                            0 <= i < self.entries().len() && self.entries()[i].0 as int == t
                                && self.entries()[i].1 == e;
                        self.lemma_entry_count(i);
                    } else if other.count(t, e) > 0 {
                        other.lemma_present(t, e);
                        let i = choose|i: int|
                            0 <= i < other.entries().len() && other.entries()[i].0 as int == t
                                && other.entries()[i].1 == e;
                        other.lemma_entry_count(i);
                    }
                }
            }
            if self.same_as(*other) {
                assert forall|i: int| 0 <= i < self.entries().len() implies other.count(
                    self.entries()[i].0 as int,
                    self.entries()[i].1,
                ) == self.entries()[i].2 by {
                    self.lemma_entry_count(i);
                }
                assert forall|i: int| 0 <= i < other.entries().len() implies self.count(
                    other.entries()[i].0 as int,
                    other.entries()[i].1,
                ) == other.entries()[i].2 by {
                    other.lemma_entry_count(i);
                }
            }
        }
        a && b
    }

    /// The points of the plane shifted by `offset`, each repeated by its
    /// multiplicity, in entry order.
    pub fn translated(&self, offset: Tick) -> (r: Vec<(Tick, E)>)
        requires
            self.wf(),
            forall|t: int, e: E| self.count(t, e) > 0 ==> t + offset <= u32::MAX,
        ensures
            forall|u: int, e: E| #[trigger] occurrences(r@, u, e) == self.count(u - offset, e),
    {
        let ghost s = self.entries();
        let mut out: Vec<(Tick, E)> = Vec::new();
        let n = self.len();
        let mut i: usize = 0;
        while i < n
            invariant
                n == s.len(),
                s == self.entries(),
                self.wf(),
                forall|t: int, e: E| self.count(t, e) > 0 ==> t + offset <= u32::MAX,
                i <= n,
                forall|u: int, e: E| #[trigger] occurrences(out@, u, e) == count_in(s.take(i as int), u - offset, e),
            decreases n - i,
        {
            let (t, ev, c) = self.entry_at(i);
            proof {
                self.lemma_entry_count(i as int);
            }
            let ghost base = out@;
            let mut k: usize = 0;
            while k < c
                invariant
                    k <= c,
                    c > 0 ==> t + offset <= u32::MAX,
                    forall|u: int, e: E|
                        #[trigger] occurrences(out@, u, e) == occurrences(base, u, e) + (if u == t + offset && e == *ev {
                            k as nat
                        } else {
                            0
                        }),
                decreases c - k,
            {
                let ghost before = out@;
                out.push((t + offset, ev.duplicate()));
                proof {
                    assert forall|u: int, e: E| #[trigger] occurrences(out@, u, e) == occurrences(before, u, e) + (if u == t + offset
                        && e == *ev {
                        1nat
                    } else {
                        0
                    }) by {
                        assert(out@.drop_last() =~= before);
                    }
                }
                k = k + 1;
            }
            proof {
                assert(s.take(i + 1) =~= s.take(i as int).push(s[i as int]));
                assert forall|u: int, e: E| #[trigger] occurrences(out@, u, e) == count_in(s.take(i + 1), u - offset, e) by {
                    lemma_count_push(s.take(i as int), s[i as int], u - offset, e);
                }
            }
            i = i + 1;
        }
        proof {
            assert(s.take(n as int) =~= s);
        }
        out
    }

    /// The points of the plane, each repeated by its multiplicity, in entry
    /// order.
    pub fn into_points(self) -> (r: Vec<(Tick, E)>)
        requires
            self.wf(),
        ensures
            forall|t: int, e: E| #[trigger] occurrences(r@, t, e) == self.count(t, e),
    {
        proof {
            assert forall|t: int, e: E| self.count(t, e) > 0 implies t + 0 <= u32::MAX by {
                self.lemma_present(t, e);
            }
        }
        let r = self.translated(0);
        proof {
            assert forall|t: int, e: E| #[trigger] occurrences(r@, t, e) == self.count(t, e) by {
                assert(t - 0 == t);
            }
        }
        r
    }

    /// A copy of the plane.
    pub fn duplicate_plane(&self) -> (r: Self)
        ensures
            r.entries() == self.entries(),
    {
        let mut out: Vec<(Tick, E, usize)> = Vec::new();
        let mut i: usize = 0;
        while i < self.entries.len()
            invariant
                i <= self.entries().len(),
                out@ == self.entries().take(i as int),
            decreases self.entries().len() - i,
        {
            let entry = &self.entries[i];
            out.push((entry.0, entry.1.duplicate(), entry.2));
            proof {
                assert(out@ =~= self.entries().take(i + 1));
            }
            i = i + 1;
        }
        proof {
            assert(out@ =~= self.entries());
        }
        TpPlane { entries: out }
    }
}

/// Two planes are equal when they hold the same multiset.
impl<E: Event> PartialEq for TpPlane<E> {
    fn eq(&self, other: &Self) -> (r: bool) {
        self.equals(other)
    }
}

impl<E: Event> PartialEqSpecImpl for TpPlane<E> {
    open spec fn obeys_eq_spec() -> bool {
        true
    }

    open spec fn eq_spec(&self, other: &Self) -> bool {
        self.wf() && other.wf() && self.same_as(*other)
    }
}

} // verus!
