//! The ordered note collection: notes keyed by position, kept in position
//! order (by tick, then by layer), as NBS serialization needs them.

use crate::note::Note;
use crate::types::{Index, Position, Tick};
use vstd::prelude::*;

verus! {

broadcast use {Position::lemma_at_fields, Position::lemma_at_of};

/// Positions strictly increase along the sequence.
pub open spec fn sorted_positions<E>(s: Seq<(Position, E)>) -> bool {
    forall|i: int, j: int| 0 <= i < j < s.len() ==> (#[trigger] s[i]).0.less((#[trigger] s[j]).0)
}

/// The map that inserting the pairs in order builds (a later pair replaces
/// an earlier one at the same position).
pub open spec fn map_of<E>(s: Seq<(Position, E)>) -> Map<Position, E>
    decreases s.len(),
{
    if s.len() == 0 {
        Map::empty()
    } else {
        map_of(s.drop_last()).insert(s.last().0, s.last().1)
    }
}

/// The key set of `map_of(s)` is the set of positions of `s`.
pub proof fn lemma_map_of_dom<E>(s: Seq<(Position, E)>, p: Position)
    ensures
        map_of(s).contains_key(p) <==> exists|i: int| 0 <= i < s.len() && (#[trigger] s[i]).0 == p,
    decreases s.len(),
{
    if s.len() > 0 {
        lemma_map_of_dom(s.drop_last(), p);
        if exists|i: int| 0 <= i < s.len() && (#[trigger] s[i]).0 == p {
            let i = choose|i: int| 0 <= i < s.len() && (#[trigger] s[i]).0 == p;
            if i < s.len() - 1 {
                assert(s.drop_last()[i] == s[i]);
            }
        }
        if exists|i: int| 0 <= i < s.drop_last().len() && (#[trigger] s.drop_last()[i]).0 == p {
            let i = choose|i: int| 0 <= i < s.drop_last().len() && (#[trigger] s.drop_last()[i]).0 == p;
            assert(s[i] == s.drop_last()[i]);
        }
    }
}

/// In a sorted sequence, each position maps to the value stored with it.
pub proof fn lemma_map_of_at<E>(s: Seq<(Position, E)>, i: int)
    requires
        sorted_positions(s),
        0 <= i < s.len(),
    ensures
        map_of(s).contains_key(s[i].0),
        map_of(s)[s[i].0] == s[i].1,
    decreases s.len(),
{
    if i < s.len() - 1 {
        assert(s.drop_last()[i] == s[i]);
        assert(sorted_positions(s.drop_last())) by {
            assert forall|a: int, b: int| 0 <= a < b < s.drop_last().len() implies (
            #[trigger] s.drop_last()[a]).0.less((#[trigger] s.drop_last()[b]).0) by {
                assert(s[a] == s.drop_last()[a] && s[b] == s.drop_last()[b]);
            }
        }
        lemma_map_of_at(s.drop_last(), i);
        assert(s[i].0.less(s[s.len() - 1].0));
        assert(s[i].0 != s.last().0);
    }
}

/// The map of a sorted sequence has as many keys as the sequence has pairs.
pub proof fn lemma_map_of_len<E>(s: Seq<(Position, E)>)
    requires
        sorted_positions(s),
    ensures
        map_of(s).dom().finite(),
        map_of(s).dom().len() == s.len(),
    decreases s.len(),
{
    if s.len() > 0 {
        let d = s.drop_last();
        assert(sorted_positions(d)) by {
            assert forall|a: int, b: int| 0 <= a < b < d.len() implies (#[trigger] d[a]).0.less(
                (#[trigger] d[b]).0,
            ) by {
                assert(s[a] == d[a] && s[b] == d[b]);
            }
        }
        lemma_map_of_len(d);
        lemma_map_of_dom(d, s.last().0);
        if map_of(d).contains_key(s.last().0) {
            let i = choose|i: int| 0 <= i < d.len() && (#[trigger] d[i]).0 == s.last().0;
            assert(s[i] == d[i]);
            assert(s[i].0.less(s[s.len() - 1].0));
        }
    }
}

/// Ordered note set, guarantees position order for NBS serialization.
#[derive(Debug, Clone)]
pub struct Notes<E = Note> {
    entries: Vec<(Position, E)>,
}

impl<E> Notes<E> {
    /// The stored pairs, in position order.
    pub closed spec fn entries(self) -> Seq<(Position, E)> {
        self.entries@
    }

    /// Well-formedness: positions strictly increase.
    pub open spec fn wf(self) -> bool {
        sorted_positions(self.entries())
    }

    /// The notes by position.
    pub open spec fn view(self) -> Map<Position, E> {
        map_of(self.entries())
    }

    /// The empty collection.
    pub fn new() -> (r: Self)
        ensures
            r.wf(),
            r.entries().len() == 0,
            r.view() == Map::<Position, E>::empty(),
    {
        Notes { entries: Vec::new() }
    }

    /// Number of notes.
    pub fn len(&self) -> (r: usize)
        ensures
            r == self.entries().len(),
    {
        self.entries.len()
    }

    /// Whether there is no note.
    pub fn is_empty(&self) -> (r: bool)
        ensures
            r == (self.entries().len() == 0),
    {
        self.entries.len() == 0
    }

    /// The `i`-th note in position order.
    pub fn entry_at(&self, i: usize) -> (r: (Position, &E))
        requires
            i < self.entries().len(),
        ensures
            r.0 == self.entries()[i as int].0,
            *r.1 == self.entries()[i as int].1,
    {
        let entry = &self.entries[i];
        (entry.0, &entry.1)
    }

    /// The position of the `i`-th note in position order.
    pub fn position_at(&self, i: usize) -> (r: Position)
        requires
            i < self.entries().len(),
        ensures
            r == self.entries()[i as int].0,
    {
        self.entries[i].0
    }

    /// The last note (at the greatest position), if any.
    pub fn last_key_value(&self) -> (r: Option<(Position, &E)>)
        ensures
            r is None <==> self.entries().len() == 0,
            r matches Some(kv) ==> kv.0 == self.entries().last().0 && *kv.1 == self.entries().last().1,
    {
        let n = self.entries.len();
        if n == 0 {
            None
        } else {
            let entry = &self.entries[n - 1];
            Some((entry.0, &entry.1))
        }
    }

    /// Replaces the value of the `i`-th note.
    pub fn set_value_at(&mut self, i: usize, value: E)
        requires
            i < old(self).entries().len(),
        ensures
            final(self).entries() == old(self).entries().update(
                i as int,
                (old(self).entries()[i as int].0, value),
            ),
    {
        let p = self.entries[i].0;
        self.entries.set(i, (p, value));
    }

    /// The pairs in position order.
    pub fn into_entries(self) -> (r: Vec<(Position, E)>)
        ensures
            r@ == self.entries(),
    {
        self.entries
    }

    /// Where `pos` stands: `Ok(i)` if the `i`-th note is at `pos`, else
    /// `Err(i)` with `i` the index where a note at `pos` belongs.
    pub fn search(&self, pos: Position) -> (r: Result<usize, usize>)
        requires
            self.wf(),
        ensures
            r matches Ok(i) ==> i < self.entries().len() && self.entries()[i as int].0 == pos,
            r matches Err(i) ==> i <= self.entries().len() && (forall|j: int|
                0 <= j < i ==> (#[trigger] self.entries()[j]).0.less(pos)) && (forall|j: int|
                i <= j < self.entries().len() ==> pos.less((#[trigger] self.entries()[j]).0)),
    {
        let mut lo: usize = 0;
        let mut hi: usize = self.entries.len();
        while lo < hi
            invariant
                self.wf(),
                lo <= hi <= self.entries().len(),
                forall|j: int| 0 <= j < lo ==> (#[trigger] self.entries()[j]).0.less(pos),
                forall|j: int| hi <= j < self.entries().len() ==> pos.less((#[trigger] self.entries()[j]).0),
            decreases hi - lo,
        {
            let mid = lo + (hi - lo) / 2;
            let p = self.entries[mid].0;
            if p.before(&pos) {
                proof {
                    assert forall|j: int| 0 <= j < mid + 1 implies (#[trigger] self.entries()[j]).0.less(pos) by {
                        if j < mid {
                            assert(self.entries()[j].0.less(self.entries()[mid as int].0));
                        }
                    }
                }
                lo = mid + 1;
            } else if pos.before(&p) {
                proof {
                    assert forall|j: int| mid <= j < self.entries().len() implies pos.less((#[trigger] self.entries()[j]).0) by {
                        if j > mid {
                            assert(self.entries()[mid as int].0.less(self.entries()[j].0));
                        }
                    }
                }
                hi = mid;
            } else {
                proof {
                    p.lemma_eq(pos);
                }
                return Ok(mid);
            }
        }
        Err(lo)
    }

    /// The note at `pos`, if any.
    pub fn get(&self, pos: Position) -> (r: Option<&E>)
        requires
            self.wf(),
        ensures
            r is Some <==> self@.contains_key(pos),
            r matches Some(v) ==> *v == self@[pos],
    {
        proof {
            lemma_map_of_dom(self.entries(), pos);
        }
        match self.search(pos) {
            Ok(i) => {
                proof {
                    lemma_map_of_at(self.entries(), i as int);
                }
                Some(&self.entries[i].1)
            },
            Err(i) => {
                proof {
                    assert forall|j: int| 0 <= j < self.entries().len() implies (#[trigger] self.entries()[j]).0 != pos by {
                        if j < i {
                            assert(self.entries()[j].0.less(pos));
                        } else {
                            assert(pos.less(self.entries()[j].0));
                        }
                    }
                }
                None
            },
        }
    }

    /// Puts `value` at `pos`, returning the note it replaces, if any.
    pub fn insert(&mut self, pos: Position, value: E) -> (r: Option<E>)
        requires
            old(self).wf(),
        ensures
            final(self).wf(),
            final(self)@ == old(self)@.insert(pos, value),
            r is Some <==> old(self)@.contains_key(pos),
            r matches Some(v) ==> v == old(self)@[pos],
            r is Some ==> final(self).entries().len() == old(self).entries().len(),
            r is None ==> final(self).entries().len() == old(self).entries().len() + 1,
    {
        let ghost s = self.entries();
        proof {
            lemma_map_of_dom(s, pos);
        }
        match self.search(pos) {
            Ok(i) => {
                proof {
                    lemma_map_of_at(s, i as int);
                }
                let old_entry = self.entries.remove(i);
                self.entries.insert(i, (pos, value));
                proof {
                    let t = s.update(i as int, (pos, value));
                    assert(self.entries() =~= t);
                    assert(sorted_positions(t)) by {
                        assert forall|a: int, b: int| 0 <= a < b < t.len() implies (#[trigger] t[a]).0.less((#[trigger] t[b]).0) by {
                            assert(s[a].0.less(s[b].0));
                        }
                    }
                    lemma_map_update(s, i as int, value);
                }
                Some(old_entry.1)
            },
            Err(i) => {
                self.entries.insert(i, (pos, value));
                proof {
                    let t = s.insert(i as int, (pos, value));
                    assert(self.entries() =~= t);
                    assert(sorted_positions(t)) by {
                        assert forall|a: int, b: int| 0 <= a < b < t.len() implies (#[trigger] t[a]).0.less((#[trigger] t[b]).0) by {
                            if b < i {
                                assert(s[a].0.less(s[b].0));
                            } else if b == i {
                                assert(s[a].0.less(pos));
                            } else if a < i {
                                assert(s[a].0.less(pos) && pos.less(s[b - 1].0));
                            } else if a == i {
                                assert(pos.less(s[b - 1].0));
                            } else {
                                assert(s[a - 1].0.less(s[b - 1].0));
                            }
                        }
                    }
                    assert forall|j: int| 0 <= j < s.len() implies (#[trigger] s[j]).0 != pos by {
                        if j < i {
                            assert(s[j].0.less(pos));
                        } else {
                            assert(pos.less(s[j].0));
                        }
                    }
                    lemma_map_insert_new(s, i as int, pos, value);
                }
                None
            },
        }
    }

    /// Collects position/value pairs; a later pair replaces an earlier one at
    /// the same position.
    pub fn from_entries(pairs: Vec<(Position, E)>) -> (r: Self)
        ensures
            r.wf(),
            r@ == map_of(pairs@),
    {
        let mut notes = Self::new();
        let ghost all = pairs@;
        let count = pairs.len();
        let mut rest = pairs;
        let mut pairs: Vec<(Position, E)> = Vec::new();
        while rest.len() > 0
            invariant
                count == all.len(),
                rest@.len() + pairs@.len() == all.len(),
                rest@ == all.take(rest@.len() as int),
                pairs@ == all.skip(rest@.len() as int).reverse(),
            decreases rest@.len(),
        {
            let ghost before = rest@;
            let x = rest.pop().unwrap();
            proof {
                assert(x == all[rest@.len() as int]);
                assert(rest@ =~= all.take(rest@.len() as int));
            }
            pairs.push(x);
            proof {
                assert(pairs@ =~= all.skip(rest@.len() as int).reverse());
            }
        }
        let mut k: usize = 0;
        proof {
            assert(all.skip(0) =~= all);
        }
        while pairs.len() > 0
            invariant
                k <= all.len(),
                count == all.len(),
                pairs@ == all.skip(k as int).reverse(),
                notes.wf(),
                notes@ == map_of(all.take(k as int)),
            decreases pairs@.len(),
        {
            let ghost before = pairs@;
            let (pos, value) = pairs.pop().unwrap();
            proof {
                assert(before.last() == all[k as int]);
                assert(pairs@ =~= all.skip(k + 1).reverse());
                assert(all.take(k + 1).drop_last() =~= all.take(k as int));
            }
            notes.insert(pos, value);
            k = k + 1;
        }
        proof {
            assert(all.take(k as int) =~= all);
        }
        notes
    }
}

/// Changing the values of the pairs by `g`, keeping the positions, changes
/// the map's values by `g`.
pub proof fn lemma_map_of_values<E>(s: Seq<(Position, E)>, t: Seq<(Position, E)>, g: spec_fn(E) -> E)
    requires
        t.len() == s.len(),
        forall|i: int| 0 <= i < s.len() ==> (#[trigger] t[i]).0 == s[i].0 && t[i].1 == g(s[i].1),
    ensures
        map_of(t) == map_of(s).map_values(g),
    decreases s.len(),
{
    if s.len() > 0 {
        lemma_map_of_values(s.drop_last(), t.drop_last(), g);
        assert(map_of(t) =~= map_of(s).map_values(g));
    } else {
        assert(map_of(t) =~= map_of(s).map_values(g));
    }
}

/// Replacing the value at a stored position updates the map at it.
pub proof fn lemma_map_update<E>(s: Seq<(Position, E)>, i: int, value: E)
    requires
        sorted_positions(s),
        0 <= i < s.len(),
    ensures
        map_of(s.update(i, (s[i].0, value))) == map_of(s).insert(s[i].0, value),
    decreases s.len(),
{
    let t = s.update(i, (s[i].0, value));
    if i == s.len() - 1 {
        assert(t.drop_last() =~= s.drop_last());
    } else {
        let d = s.drop_last();
        assert(sorted_positions(d)) by {
            assert forall|a: int, b: int| 0 <= a < b < d.len() implies (#[trigger] d[a]).0.less(
                (#[trigger] d[b]).0,
            ) by {
                assert(s[a] == d[a] && s[b] == d[b]);
            }
        }
        assert(t.drop_last() =~= d.update(i, (d[i].0, value)));
        lemma_map_update(d, i, value);
        assert(s[i].0.less(s.last().0));
        assert(map_of(t) =~= map_of(s).insert(s[i].0, value));
    }
}

/// Inserting a pair at a new position anywhere in the sequence inserts it
/// into the map.
pub proof fn lemma_map_insert_new<E>(s: Seq<(Position, E)>, i: int, pos: Position, value: E)
    requires
        0 <= i <= s.len(),
        forall|j: int| 0 <= j < s.len() ==> (#[trigger] s[j]).0 != pos,
    ensures
        map_of(s.insert(i, (pos, value))) == map_of(s).insert(pos, value),
    decreases s.len(),
{
    let t = s.insert(i, (pos, value));
    if i == s.len() {
        assert(t.drop_last() =~= s);
    } else {
        let d = s.drop_last();
        assert forall|j: int| 0 <= j < d.len() implies (#[trigger] d[j]).0 != pos by {
            assert(s[j] == d[j]);
        }
        assert(t.drop_last() =~= d.insert(i, (pos, value)));
        lemma_map_insert_new(d, i, pos, value);
        assert(s.last().0 != pos);
        assert(map_of(t) =~= map_of(s).insert(pos, value));
    }
}

impl<E> Default for Notes<E> {
    fn default() -> (r: Self)
        ensures
            r.wf(),
            r.entries().len() == 0,
    {
        Notes { entries: Vec::new() }
    }
}

// Layer utilities
//
// ++++++++++++============++++++++++++============++++++++++++============

/// Some note of `m` lies on layer `l`.
pub open spec fn has_layer<E>(m: Map<Position, E>, l: int) -> bool {
    exists|p: Position| #[trigger] m.contains_key(p) && p.spec_layer() == l
}

/// Layer `l` starts a block of contiguous used layers: it is used and the
/// layer below it is not.
pub open spec fn is_block_start<E>(m: Map<Position, E>, l: int) -> bool {
    has_layer(m, l) && !has_layer(m, l - 1)
}

/// The notes of `m` on layers `lo <= layer < hi`, with layers counted from
/// `lo`.
pub open spec fn band<E>(m: Map<Position, E>, lo: Index, hi: int) -> Map<Position, E> {
    Map::new(
        |q: Position|
            q.spec_layer() + lo < hi && q.spec_layer() + lo <= u32::MAX && m.contains_key(
                Position::spec_at(q.spec_tick(), (q.spec_layer() + lo) as Index),
            ),
        |q: Position| m[Position::spec_at(q.spec_tick(), (q.spec_layer() + lo) as Index)],
    )
}

/// The upper end of block `k` of the block starts `starts`.
pub open spec fn block_end(starts: Seq<Index>, k: int) -> int {
    if k + 1 < starts.len() {
        starts[k + 1] as int
    } else {
        u32::MAX + 1
    }
}

/// `starts` lists, ascending, exactly the block starts of `m`.
pub open spec fn lists_block_starts<E>(m: Map<Position, E>, starts: Seq<Index>) -> bool {
    &&& forall|i: int, j: int| 0 <= i < j < starts.len() ==> starts[i] < starts[j]
    &&& forall|i: int| 0 <= i < starts.len() ==> is_block_start(m, #[trigger] starts[i] as int)
    &&& forall|l: Index| is_block_start(m, l as int) ==> #[trigger] starts.contains(l)
}

/// The layers of a sequence's positions are exactly the layers of its map.
pub proof fn lemma_has_layer<E>(s: Seq<(Position, E)>, l: int)
    ensures
        has_layer(map_of(s), l) <==> exists|i: int| 0 <= i < s.len() && (#[trigger] s[i]).0.spec_layer() == l,
{
    if has_layer(map_of(s), l) {
        let p = choose|p: Position| #[trigger] map_of(s).contains_key(p) && p.spec_layer() == l;
        lemma_map_of_dom(s, p);
    }
    if exists|i: int| 0 <= i < s.len() && (#[trigger] s[i]).0.spec_layer() == l {
        let i = choose|i: int| 0 <= i < s.len() && (#[trigger] s[i]).0.spec_layer() == l;
        lemma_map_of_dom(s, s[i].0);
        assert(map_of(s).contains_key(s[i].0));
    }
}

/// A band of the map after one more insertion.
pub proof fn lemma_band_insert<E>(m: Map<Position, E>, p: Position, v: E, lo: Index, hi: int)
    requires
        hi <= u32::MAX + 1,
    ensures
        band(m.insert(p, v), lo, hi) == (if lo <= p.spec_layer() < hi {
            band(m, lo, hi).insert(Position::spec_at(p.spec_tick(), (p.spec_layer() - lo) as Index), v)
        } else {
            band(m, lo, hi)
        }),
{
    let b2 = band(m.insert(p, v), lo, hi);
    if lo <= p.spec_layer() < hi {
        let q0 = Position::spec_at(p.spec_tick(), (p.spec_layer() - lo) as Index);
        assert(Position::spec_at(q0.spec_tick(), (q0.spec_layer() + lo) as Index) == p);
        assert forall|q: Position| #[trigger] b2.contains_key(q) == band(m, lo, hi).insert(q0, v).contains_key(q) by {
            if q != q0 && q.spec_layer() + lo <= u32::MAX {
                assert(Position::spec_at(q.spec_tick(), (q.spec_layer() + lo) as Index) != p) by {
                    if Position::spec_at(q.spec_tick(), (q.spec_layer() + lo) as Index) == p {
                        q.lemma_eq(q0);
                    }
                }
            }
        }
        assert(b2 =~= band(m, lo, hi).insert(q0, v)) by {
            assert forall|q: Position| b2.contains_key(q) implies b2[q] == band(m, lo, hi).insert(q0, v)[q] by {
                if q != q0 {
                    assert(Position::spec_at(q.spec_tick(), (q.spec_layer() + lo) as Index) != p) by {
                        if Position::spec_at(q.spec_tick(), (q.spec_layer() + lo) as Index) == p {
                            q.lemma_eq(q0);
                        }
                    }
                }
            }
        }
    } else {
        assert forall|q: Position| #[trigger] b2.contains_key(q) == band(m, lo, hi).contains_key(q) by {
            if q.spec_layer() + lo < hi && q.spec_layer() + lo <= u32::MAX {
                assert(Position::spec_at(q.spec_tick(), (q.spec_layer() + lo) as Index) != p);
            }
        }
        assert(b2 =~= band(m, lo, hi)) by {
            assert forall|q: Position| b2.contains_key(q) implies b2[q] == band(m, lo, hi)[q] by {
                assert(Position::spec_at(q.spec_tick(), (q.spec_layer() + lo) as Index) != p);
            }
        }
    }
}

/// The used layers of the notes, ascending, each once.
fn sorted_layers<E>(notes: &Notes<E>) -> (r: Vec<Index>)
    ensures
        forall|i: int, j: int| 0 <= i < j < r@.len() ==> r@[i] < r@[j],
        forall|x: Index| r@.contains(x) <==> has_layer(notes@, x as int),
{
    let mut out: Vec<Index> = Vec::new();
    let mut k: usize = 0;
    while k < notes.len()
        invariant
            k <= notes.entries().len(),
            forall|i: int, j: int| 0 <= i < j < out@.len() ==> out@[i] < out@[j],
            forall|x: Index| out@.contains(x) <==> exists|i: int| 0 <= i < k && (#[trigger] notes.entries()[i]).0.spec_layer() == x,
        decreases notes.entries().len() - k,
    {
        let l = notes.position_at(k).layer();
        let mut p: usize = 0;
        while p < out.len() && out[p] < l
            invariant
                p <= out@.len(),
                forall|i: int| 0 <= i < p ==> out@[i] < l,
            decreases out@.len() - p,
        {
            p = p + 1;
        }
        let ghost old_out = out@;
        if p < out.len() && out[p] == l {
            proof {
                assert forall|x: Index| out@.contains(x) <==> exists|i: int| 0 <= i < k + 1 && (#[trigger] notes.entries()[i]).0.spec_layer() == x by {
                    if x == l {
                        assert(out@[p as int] == x);
                    }
                }
            }
        } else {
            proof {
                if p < out@.len() {
                    assert forall|i: int| p <= i < out@.len() implies out@[i] > l by {
                        if i > p {
                            assert(out@[p as int] < out@[i]);
                        }
                    }
                }
            }
            out.insert(p, l);
            proof {
                assert forall|i: int, j: int| 0 <= i < j < out@.len() implies out@[i] < out@[j] by {
                    if j < p {
                        assert(out@[i] == old_out[i] && out@[j] == old_out[j]);
                    } else if j == p {
                        assert(out@[i] == old_out[i]);
                    } else if i < p {
                        assert(out@[i] == old_out[i] && out@[j] == old_out[j - 1]);
                    } else if i == p {
                        assert(out@[j] == old_out[j - 1]);
                    } else {
                        assert(out@[i] == old_out[i - 1] && out@[j] == old_out[j - 1]);
                    }
                }
                assert forall|x: Index| out@.contains(x) <==> exists|i: int| 0 <= i < k + 1 && (#[trigger] notes.entries()[i]).0.spec_layer() == x by {
                    if out@.contains(x) {
                        let j = choose|j: int| 0 <= j < out@.len() && out@[j] == x;
                        if j < p {
                            assert(old_out[j] == x);
                            assert(old_out.contains(x));
                        } else if j > p {
                            assert(old_out[j - 1] == x);
                            assert(old_out.contains(x));
                        }
                    }
                    if exists|i: int| 0 <= i < k + 1 && (#[trigger] notes.entries()[i]).0.spec_layer() == x {
                        if x == l {
                            assert(out@[p as int] == x);
                        } else {
                            let i = choose|i: int| 0 <= i < k + 1 && (#[trigger] notes.entries()[i]).0.spec_layer() == x;
                            assert(i < k);
                            assert(old_out.contains(x));
                            let j = choose|j: int| 0 <= j < old_out.len() && old_out[j] == x;
                            if j < p {
                                assert(out@[j] == x);
                            } else {
                                assert(out@[j + 1] == x);
                            }
                        }
                    }
                }
            }
        }
        k = k + 1;
    }
    proof {
        assert forall|x: Index| out@.contains(x) <==> has_layer(notes@, x as int) by {
            lemma_has_layer(notes.entries(), x as int);
        }
    }
    out
}

/// The layers of `layers` (ascending) that do not follow a used layer
/// directly.
fn block_starts(layers: &Vec<Index>) -> (r: Vec<Index>)
    requires
        forall|i: int, j: int| 0 <= i < j < layers@.len() ==> layers@[i] < layers@[j],
    ensures
        forall|i: int, j: int| 0 <= i < j < r@.len() ==> r@[i] < r@[j],
        forall|x: Index| #[trigger] r@.contains(x) <==> (layers@.contains(x) && !(x > 0 && layers@.contains((x - 1) as Index))),
        layers@.len() > 0 ==> r@.len() > 0 && r@[0] == layers@[0],
{
    let mut out: Vec<Index> = Vec::new();
    let mut i: usize = 0;
    while i < layers.len()
        invariant
            i <= layers@.len(),
            forall|a: int, b: int| 0 <= a < b < layers@.len() ==> layers@[a] < layers@[b],
            forall|a: int, b: int| 0 <= a < b < out@.len() ==> out@[a] < out@[b],
            forall|a: int| 0 <= a < out@.len() ==> exists|q: int| 0 <= q < i && layers@[q] == #[trigger] out@[a],
            forall|q: int| 0 <= q < i ==> (#[trigger] out@.contains(layers@[q]) <==> (q == 0 || layers@[q - 1] + 1 != layers@[q])),
            i > 0 ==> out@.len() > 0 && out@[0] == layers@[0],
            out@.len() > 0 ==> i > 0 && out@.last() <= layers@[i - 1],
        decreases layers@.len() - i,
    {
        let l = layers[i];
        if i == 0 || layers[i - 1] + 1 != l {
            let ghost old_out = out@;
            out.push(l);
            proof {
                assert forall|a: int| 0 <= a < out@.len() implies exists|q: int| 0 <= q < i + 1 && layers@[q] == #[trigger] out@[a] by {
                    if a < old_out.len() {
                        assert(out@[a] == old_out[a]);
                    } else {
                        assert(layers@[i as int] == out@[a]);
                    }
                }
                assert forall|q: int| 0 <= q < i + 1 implies (#[trigger] out@.contains(layers@[q]) <==> (q == 0 || layers@[q - 1] + 1 != layers@[q])) by {
                    if q < i {
                        assert(layers@[q] < l);
                        if out@.contains(layers@[q]) {
                            let a = choose|a: int| 0 <= a < out@.len() && out@[a] == layers@[q];
                            if a < old_out.len() {
                                assert(old_out[a] == layers@[q]);
                            }
                        }
                        if old_out.contains(layers@[q]) {
                            let a = choose|a: int| 0 <= a < old_out.len() && old_out[a] == layers@[q];
                            assert(out@[a] == layers@[q]);
                        }
                    } else {
                        assert(out@[old_out.len() as int] == l);
                    }
                }
            }
        } else {
            proof {
                assert forall|q: int| 0 <= q < i + 1 implies (#[trigger] out@.contains(layers@[q]) <==> (q == 0 || layers@[q - 1] + 1 != layers@[q])) by {
                    if q == i && out@.contains(layers@[q]) {
                        let a = choose|a: int| 0 <= a < out@.len() && out@[a] == layers@[q];
                        let q2 = choose|q2: int| 0 <= q2 < i && layers@[q2] == #[trigger] out@[a];
                        assert(layers@[q2] < layers@[i as int]);
                    }
                }
            }
        }
        i = i + 1;
    }
    proof {
        assert forall|x: Index| #[trigger] out@.contains(x) <==> (layers@.contains(x) && !(x > 0 && layers@.contains((x - 1) as Index))) by {
            if out@.contains(x) {
                let a = choose|a: int| 0 <= a < out@.len() && out@[a] == x;
                let q = choose|q: int| 0 <= q < i && layers@[q] == #[trigger] out@[a];
                assert(layers@.contains(x));
                if x > 0 && layers@.contains((x - 1) as Index) {
                    let q2 = choose|q2: int| 0 <= q2 < layers@.len() && layers@[q2] == (x - 1) as Index;
                    assert(q2 < q);
                    if q2 < q - 1 {
                        assert(layers@[q2] < layers@[q - 1]);
                    }
                }
            }
            if layers@.contains(x) && !(x > 0 && layers@.contains((x - 1) as Index)) {
                let q = choose|q: int| 0 <= q < layers@.len() && layers@[q] == x;
                if q > 0 {
                    assert(layers@.contains(layers@[q - 1]));
                    assert(layers@[q - 1] < x);
                }
            }
        }
    }
    out
}

/// The block of `layer`: the last start not above it.
fn block_index(starts: &Vec<Index>, layer: Index) -> (r: usize)
    requires
        starts@.len() > 0,
        forall|i: int, j: int| 0 <= i < j < starts@.len() ==> starts@[i] < starts@[j],
        starts@[0] <= layer,
    ensures
        r < starts@.len(),
        starts@[r as int] <= layer,
        layer < block_end(starts@, r as int),
{
    let mut lo: usize = 0;
    let mut hi: usize = starts.len();
    while lo + 1 < hi
        invariant
            0 <= lo < hi <= starts@.len(),
            forall|i: int, j: int| 0 <= i < j < starts@.len() ==> starts@[i] < starts@[j],
            starts@[lo as int] <= layer,
            hi < starts@.len() ==> layer < starts@[hi as int],
        decreases hi - lo,
    {
        let mid = lo + (hi - lo) / 2;
        if starts[mid] <= layer {
            lo = mid;
        } else {
            hi = mid;
        }
    }
    lo
}

/// The elements in reverse order, so that popping yields them in order.
pub fn reversed<T>(v: Vec<T>) -> (r: Vec<T>)
    ensures
        r@ == v@.reverse(),
{
    let ghost all = v@;
    let mut rest = v;
    let mut out: Vec<T> = Vec::new();
    while rest.len() > 0
        invariant
            rest@.len() + out@.len() == all.len(),
            rest@ == all.take(rest@.len() as int),
            out@ == all.skip(rest@.len() as int).reverse(),
        decreases rest@.len(),
    {
        let x = rest.pop().unwrap();
        proof {
            assert(x == all[rest@.len() as int]);
            assert(rest@ =~= all.take(rest@.len() as int));
        }
        out.push(x);
        proof {
            assert(out@ =~= all.skip(rest@.len() as int).reverse());
        }
    }
    proof {
        assert(all.skip(0) =~= all);
    }
    out
}

impl<E> Notes<E> {
    /// Groups notes into contiguous blocks separated by empty layers; each
    /// block's layers are counted from the block's first layer.
    pub fn split_by_layer_gaps(self) -> (r: Vec<Notes<E>>)
        requires
            self.wf(),
        ensures
            exists|starts: Seq<Index>|
                {
                    &&& starts.len() == r@.len()
                    &&& lists_block_starts(self@, starts)
                    &&& forall|k: int|
                        0 <= k < r@.len() ==> (#[trigger] r@[k]).wf() && r@[k]@ == band(
                            self@,
                            starts[k],
                            block_end(starts, k),
                        )
                },
    {
        let ghost m = self@;
        let ghost s = self.entries();
        let layers = sorted_layers(&self);
        let starts = block_starts(&layers);
        proof {
            assert forall|x: Index| #[trigger] starts@.contains(x) <==> is_block_start(m, x as int) by {
                if x > 0 {
                    assert(layers@.contains((x - 1) as Index) <==> has_layer(m, x - 1));
                }
            }
            assert forall|i: int| 0 <= i < starts@.len() implies is_block_start(m, #[trigger] starts@[i] as int) by {
                assert(starts@.contains(starts@[i]));
            }
        }
        let mut groups: Vec<Notes<E>> = Vec::new();
        while groups.len() < starts.len()
            invariant
                groups@.len() <= starts@.len(),
                forall|k: int| 0 <= k < groups@.len() ==> (#[trigger] groups@[k]).wf() && groups@[k]@ == Map::<Position, E>::empty(),
            decreases starts@.len() - groups@.len(),
        {
            groups.push(Notes::new());
        }
        let count = self.len();
        let mut queue = reversed(self.into_entries());
        let mut i: usize = 0;
        proof {
            assert forall|k: int| 0 <= k < groups@.len() implies (#[trigger] groups@[k]).wf() && groups@[k]@ == band(
                map_of(s.take(0)),
                starts@[k],
                block_end(starts@, k),
            ) by {
                assert(band(map_of(s.take(0)), starts@[k], block_end(starts@, k)) =~= Map::<Position, E>::empty());
            }
        }
        while queue.len() > 0
            invariant
                m == map_of(s),
                sorted_positions(s),
                count == s.len(),
                i <= s.len(),
                queue@ == s.skip(i as int).reverse(),
                groups@.len() == starts@.len(),
                forall|a: int, b: int| 0 <= a < b < starts@.len() ==> starts@[a] < starts@[b],
                forall|x: Index| #[trigger] layers@.contains(x) <==> has_layer(m, x as int),
                forall|a: int, b: int| 0 <= a < b < layers@.len() ==> layers@[a] < layers@[b],
                layers@.len() > 0 ==> starts@.len() > 0 && starts@[0] == layers@[0],
                forall|k: int|
                    0 <= k < groups@.len() ==> (#[trigger] groups@[k]).wf() && groups@[k]@ == band(
                        map_of(s.take(i as int)),
                        starts@[k],
                        block_end(starts@, k),
                    ),
            decreases queue@.len(),
        {
            let ghost before = queue@;
            let (pos, note) = queue.pop().unwrap();
            proof {
                assert(before.last() == s[i as int]);
                assert(queue@ =~= s.skip(i + 1).reverse());
                lemma_has_layer(s, pos.spec_layer() as int);
                assert(s[i as int].0.spec_layer() == pos.spec_layer());
                assert(layers@.contains(pos.spec_layer()));
                let q = choose|q: int| 0 <= q < layers@.len() && layers@[q] == pos.spec_layer();
                if q > 0 {
                    assert(layers@[0] < layers@[q]);
                }
            }
            let idx = block_index(&starts, pos.layer());
            let start = starts[idx];
            let np = pos.with_layer(pos.layer() - start);
            let mut g = groups.remove(idx);
            g.insert(np, note);
            groups.insert(idx, g);
            proof {
                assert(s.take(i + 1).drop_last() =~= s.take(i as int));
                let mi = map_of(s.take(i as int));
                assert(map_of(s.take(i + 1)) == mi.insert(pos, note));
                assert forall|k: int| 0 <= k < groups@.len() implies (#[trigger] groups@[k]).wf() && groups@[k]@ == band(
                    map_of(s.take(i + 1)),
                    starts@[k],
                    block_end(starts@, k),
                ) by {
                    lemma_band_insert(mi, pos, note, starts@[k], block_end(starts@, k));
                    if k < idx {
                        assert(block_end(starts@, k) <= starts@[idx as int]) by {
                            if k + 1 < idx {
                                assert(starts@[k + 1] < starts@[idx as int]);
                            }
                        }
                    } else if k > idx {
                        assert(block_end(starts@, idx as int) <= starts@[k]) by {
                            if idx + 1 < k {
                                assert(starts@[idx + 1] < starts@[k]);
                            }
                        }
                    }
                }
            }
            i = i + 1;
        }
        proof {
            assert(s.take(i as int) =~= s);
            assert(lists_block_starts(m, starts@));
        }
        groups
    }
}

/// Some note of `m` lies in layer group `g` of size `n`.
pub open spec fn has_group<E>(m: Map<Position, E>, n: Index, g: int) -> bool {
    exists|p: Position| #[trigger] m.contains_key(p) && p.spec_layer() / n == g
}

/// The notes of layer group `g` of size `n`, with layers counted within
/// the group.
pub open spec fn layer_group<E>(m: Map<Position, E>, n: Index, g: int) -> Map<Position, E> {
    Map::new(
        |q: Position|
            q.spec_layer() < n && g * n + q.spec_layer() <= u32::MAX && m.contains_key(
                Position::spec_at(q.spec_tick(), (g * n + q.spec_layer()) as Index),
            ),
        |q: Position| m[Position::spec_at(q.spec_tick(), (g * n + q.spec_layer()) as Index)],
    )
}

/// `groups` lists, ascending, exactly the used layer groups of `m`.
pub open spec fn lists_groups<E>(m: Map<Position, E>, n: Index, groups: Seq<int>) -> bool {
    &&& forall|i: int, j: int| 0 <= i < j < groups.len() ==> groups[i] < groups[j]
    &&& forall|i: int| 0 <= i < groups.len() ==> has_group(m, n, #[trigger] groups[i])
    &&& forall|g: int| has_group(m, n, g) ==> #[trigger] groups.contains(g)
}

proof fn lemma_div_mod_parts(x: int, n: int, g: int, r: int)
    requires
        n > 0,
        0 <= r < n,
        x == g * n + r,
    ensures
        x / n == g,
        x % n == r,
{
    vstd::arithmetic::div_mod::lemma_fundamental_div_mod_converse(x, n, g, r);
}

proof fn lemma_div_mod_whole(x: int, n: int)
    requires
        n > 0,
        x >= 0,
    ensures
        x == (x / n) * n + x % n,
        0 <= x % n < n,
        x / n >= 0,
{
    vstd::arithmetic::div_mod::lemma_fundamental_div_mod(x, n);
    vstd::arithmetic::mul::lemma_mul_is_commutative(n, x / n);
    vstd::arithmetic::div_mod::lemma_mod_bound(x, n);
    vstd::arithmetic::div_mod::lemma_div_pos_is_pos(x, n);
}

/// The position that a group member `q` of group `g` stands for.
pub open spec fn group_source(q: Position, n: Index, g: int) -> Position {
    Position::spec_at(q.spec_tick(), (g * n + q.spec_layer()) as Index)
}

/// A layer group of the map after one more insertion.
pub proof fn lemma_group_insert<E>(m: Map<Position, E>, p: Position, v: E, n: Index, g: int)
    requires
        n > 0,
        g >= 0,
    ensures
        layer_group(m.insert(p, v), n, g) == (if p.spec_layer() / n == g {
            layer_group(m, n, g).insert(Position::spec_at(p.spec_tick(), (p.spec_layer() % n) as Index), v)
        } else {
            layer_group(m, n, g)
        }),
{
    let b1 = layer_group(m, n, g);
    let b2 = layer_group(m.insert(p, v), n, g);
    let l = p.spec_layer() as int;
    lemma_div_mod_whole(l, n as int);
    // A member standing for `p` has the group and offset of `p`.
    assert forall|q: Position|
        q.spec_layer() < n && g * n + q.spec_layer() <= u32::MAX && group_source(q, n, g) == p implies l / (
    n as int) == g && q.spec_layer() == l % (n as int) by {
        assert(g * n + q.spec_layer() >= 0) by (nonlinear_arith)
            requires
                g >= 0,
                n > 0,
        ;
        assert(group_source(q, n, g).spec_layer() == (g * n + q.spec_layer()) as Index);
        assert(l == g * n + q.spec_layer());
        lemma_div_mod_parts(l, n as int, g, q.spec_layer() as int);
    }
    if l / (n as int) == g {
        let q0 = Position::spec_at(p.spec_tick(), (l % (n as int)) as Index);
        assert(q0.spec_layer() == l % (n as int));
        assert(g * n + q0.spec_layer() == l);
        assert(group_source(q0, n, g) == p) by {
            group_source(q0, n, g).lemma_eq(p);
        }
        assert(b2 =~= b1.insert(q0, v)) by {
            assert forall|q: Position| #[trigger] b2.contains_key(q) == b1.insert(q0, v).contains_key(q) by {
                if q != q0 && q.spec_layer() < n && g * n + q.spec_layer() <= u32::MAX {
                    if group_source(q, n, g) == p {
                        q.lemma_eq(q0);
                    }
                }
            }
            assert forall|q: Position| b2.contains_key(q) implies b2[q] == b1.insert(q0, v)[q] by {
                if q != q0 {
                    if group_source(q, n, g) == p {
                        q.lemma_eq(q0);
                    }
                }
            }
        }
    } else {
        assert(b2 =~= b1);
    }
}

/// A map without members of group `g` has an empty group `g`.
pub proof fn lemma_group_empty<E>(m: Map<Position, E>, n: Index, g: int)
    requires
        n > 0,
        g >= 0,
        !has_group(m, n, g),
    ensures
        layer_group(m, n, g) == Map::<Position, E>::empty(),
{
    assert forall|q: Position| !layer_group(m, n, g).contains_key(q) by {
        if layer_group(m, n, g).contains_key(q) {
            let p3 = group_source(q, n, g);
            assert(g * n + q.spec_layer() >= 0) by (nonlinear_arith)
                requires
                    g >= 0,
                    n > 0,
            ;
            assert(p3.spec_layer() == g * n + q.spec_layer());
            lemma_div_mod_parts(p3.spec_layer() as int, n as int, g, q.spec_layer() as int);
            assert(m.contains_key(p3));
        }
    }
    assert(layer_group(m, n, g) =~= Map::<Position, E>::empty());
}

/// The group ids and contents, after one more note, are those before with
/// the note's group updated or inserted.
proof fn lemma_groups_step<E>(
    mi: Map<Position, E>,
    pos: Position,
    note: E,
    size: Index,
    g: Index,
    old_groups: Seq<(Index, Notes<E>)>,
    groups: Seq<(Index, Notes<E>)>,
    k: int,
    inserted: bool,
)
    requires
        size > 0,
        g == pos.spec_layer() / size,
        forall|a: int, b: int| 0 <= a < b < old_groups.len() ==> old_groups[a].0 < old_groups[b].0,
        forall|j: int| 0 <= j < old_groups.len() ==> has_group(mi, size, #[trigger] old_groups[j].0 as int),
        forall|g2: int| has_group(mi, size, g2) ==> exists|j: int| 0 <= j < old_groups.len() && #[trigger] old_groups[j].0 == g2,
        forall|j: int|
            0 <= j < old_groups.len() ==> (#[trigger] old_groups[j]).1.wf() && old_groups[j].1@ == layer_group(mi, size, old_groups[j].0 as int),
        0 <= k,
        inserted ==> k <= old_groups.len() && (forall|j: int| 0 <= j < k ==> (#[trigger] old_groups[j]).0 < g)
            && (forall|j: int| k <= j < old_groups.len() ==> g < (#[trigger] old_groups[j]).0),
        !inserted ==> k < old_groups.len() && old_groups[k].0 == g,
        groups.len() == (if inserted { old_groups.len() + 1 } else { old_groups.len() }),
        groups[k].0 == g,
        groups[k].1.wf(),
        inserted ==> groups[k].1@ == Map::<Position, E>::empty().insert(
            Position::spec_at(pos.spec_tick(), (pos.spec_layer() % size) as Index),
            note,
        ),
        !inserted ==> groups[k].1@ == old_groups[k].1@.insert(
            Position::spec_at(pos.spec_tick(), (pos.spec_layer() % size) as Index),
            note,
        ),
        forall|j: int| 0 <= j < k ==> groups[j] == old_groups[j],
        forall|j: int| k < j < groups.len() ==> groups[j] == old_groups[if inserted { j - 1 } else { j }],
    ensures
        forall|a: int, b: int| 0 <= a < b < groups.len() ==> groups[a].0 < groups[b].0,
        forall|j: int| 0 <= j < groups.len() ==> has_group(mi.insert(pos, note), size, #[trigger] groups[j].0 as int),
        forall|g2: int| has_group(mi.insert(pos, note), size, g2) ==> exists|j: int| 0 <= j < groups.len() && #[trigger] groups[j].0 == g2,
        forall|j: int|
            0 <= j < groups.len() ==> (#[trigger] groups[j]).1.wf() && groups[j].1@ == layer_group(mi.insert(pos, note), size, groups[j].0 as int),
{
    let mi2 = mi.insert(pos, note);
    lemma_div_mod_whole(pos.spec_layer() as int, size as int);
    assert(mi2.contains_key(pos));
    assert(has_group(mi2, size, g as int));
    assert forall|j: int| 0 <= j < groups.len() implies #[trigger] groups[j] == (if j == k {
        groups[k]
    } else if j < k {
        old_groups[j]
    } else {
        old_groups[if inserted { j - 1 } else { j }]
    }) by {}
    assert forall|a: int, b: int| 0 <= a < b < groups.len() implies groups[a].0 < groups[b].0 by {
        if a != k && b != k {
            let a2 = if a > k && inserted { a - 1 } else { a };
            let b2 = if b > k && inserted { b - 1 } else { b };
            assert(groups[a] == old_groups[a2] && groups[b] == old_groups[b2]);
        } else if a == k {
            let b2 = if inserted { b - 1 } else { b };
            assert(groups[b] == old_groups[b2]);
            if !inserted {
                assert(old_groups[k].0 < old_groups[b2].0);
            }
        } else {
            assert(groups[a] == old_groups[a]);
            if !inserted {
                assert(old_groups[a].0 < old_groups[k].0);
            }
        }
    }
    assert forall|j: int| 0 <= j < groups.len() implies has_group(mi2, size, #[trigger] groups[j].0 as int) by {
        if j != k {
            let j2 = if j > k && inserted { j - 1 } else { j };
            assert(groups[j] == old_groups[j2]);
            assert(has_group(mi, size, old_groups[j2].0 as int));
            let p2 = choose|p2: Position| #[trigger] mi.contains_key(p2) && p2.spec_layer() / size == old_groups[j2].0 as int;
            assert(mi2.contains_key(p2));
        }
    }
    assert forall|g2: int| has_group(mi2, size, g2) implies exists|j: int| 0 <= j < groups.len() && #[trigger] groups[j].0 == g2 by {
        let p2 = choose|p2: Position| #[trigger] mi2.contains_key(p2) && p2.spec_layer() / size == g2;
        if p2 == pos {
            assert(groups[k].0 == g2);
        } else {
            assert(mi.contains_key(p2));
            assert(has_group(mi, size, g2));
            let j = choose|j: int| 0 <= j < old_groups.len() && #[trigger] old_groups[j].0 == g2;
            if j < k {
                assert(groups[j] == old_groups[j]);
            } else if inserted {
                assert(groups[j + 1] == old_groups[j]);
            } else {
                assert(groups[j] == old_groups[j] || j == k);
            }
        }
    }
    assert forall|j: int| 0 <= j < groups.len() implies (#[trigger] groups[j]).1.wf() && groups[j].1@ == layer_group(
        mi2,
        size,
        groups[j].0 as int,
    ) by {
        lemma_group_insert(mi, pos, note, size, groups[j].0 as int);
        if j == k {
            if inserted {
                assert(!has_group(mi, size, g as int)) by {
                    if has_group(mi, size, g as int) {
                        let j2 = choose|j2: int| 0 <= j2 < old_groups.len() && #[trigger] old_groups[j2].0 == g as int;
                        if j2 < k {
                            assert(old_groups[j2].0 < g);
                        } else {
                            assert(g < old_groups[j2].0);
                        }
                    }
                }
                lemma_group_empty(mi, size, g as int);
            }
        } else {
            let j2 = if j > k && inserted { j - 1 } else { j };
            assert(groups[j] == old_groups[j2]);
            assert(old_groups[j2].0 != g) by {
                if !inserted {
                    if j2 < k {
                        assert(old_groups[j2].0 < old_groups[k].0);
                    } else {
                        assert(old_groups[k].0 < old_groups[j2].0);
                    }
                }
            }
        }
    }
}

/// The position of group id `g` in the ascending ids, or where it belongs.
fn search_group<E>(groups: &Vec<(Index, Notes<E>)>, g: Index) -> (r: Result<usize, usize>)
    requires
        forall|a: int, b: int| 0 <= a < b < groups@.len() ==> groups@[a].0 < groups@[b].0,
    ensures
        r matches Ok(i) ==> i < groups@.len() && groups@[i as int].0 == g,
        r matches Err(i) ==> i <= groups@.len() && (forall|j: int| 0 <= j < i ==> (#[trigger] groups@[j]).0 < g)
            && (forall|j: int| i <= j < groups@.len() ==> g < (#[trigger] groups@[j]).0),
{
    let mut lo: usize = 0;
    let mut hi: usize = groups.len();
    while lo < hi
        invariant
            lo <= hi <= groups@.len(),
            forall|a: int, b: int| 0 <= a < b < groups@.len() ==> groups@[a].0 < groups@[b].0,
            forall|j: int| 0 <= j < lo ==> (#[trigger] groups@[j]).0 < g,
            forall|j: int| hi <= j < groups@.len() ==> g < (#[trigger] groups@[j]).0,
        decreases hi - lo,
    {
        let mid = lo + (hi - lo) / 2;
        let id = groups[mid].0;
        if id < g {
            lo = mid + 1;
        } else if g < id {
            hi = mid;
        } else {
            return Ok(mid);
        }
    }
    Err(lo)
}

impl<E> Notes<E> {
    /// Splits notes into groups of `size` layers each: group `g` holds the
    /// layers `g * size .. (g + 1) * size`, renumbered from 0; only groups
    /// with notes are returned, in ascending order. Without a size, all
    /// notes form one group.
    pub fn split_by_layer_count(self, size: Option<usize>) -> (r: Vec<Notes<E>>)
        requires
            self.wf(),
            size matches Some(n) ==> n as Index != 0,
        ensures
            size is None ==> r@.len() == 1 && r@[0].wf() && r@[0]@ == self@,
            size matches Some(n) ==> exists|gs: Seq<int>|
                {
                    &&& gs.len() == r@.len()
                    &&& lists_groups(self@, n as Index, gs)
                    &&& forall|k: int|
                        0 <= k < r@.len() ==> (#[trigger] r@[k]).wf() && r@[k]@ == layer_group(
                            self@,
                            n as Index,
                            gs[k],
                        )
                },
    {
        let size = match size {
            None => {
                let mut single: Vec<Notes<E>> = Vec::new();
                single.push(self);
                return single;
            },
            Some(n) => n as Index,
        };
        let ghost m = self@;
        let ghost s = self.entries();
        let count = self.len();
        let mut queue = reversed(self.into_entries());
        let mut groups: Vec<(Index, Notes<E>)> = Vec::new();
        let mut i: usize = 0;
        while queue.len() > 0
            invariant
                m == map_of(s),
                sorted_positions(s),
                count == s.len(),
                i <= s.len(),
                size > 0,
                queue@ == s.skip(i as int).reverse(),
                forall|a: int, b: int| 0 <= a < b < groups@.len() ==> groups@[a].0 < groups@[b].0,
                forall|k: int| 0 <= k < groups@.len() ==> has_group(map_of(s.take(i as int)), size, #[trigger] groups@[k].0 as int),
                forall|g: int| has_group(map_of(s.take(i as int)), size, g) ==> exists|k: int| 0 <= k < groups@.len() && #[trigger] groups@[k].0 == g,
                forall|k: int|
                    0 <= k < groups@.len() ==> (#[trigger] groups@[k]).1.wf() && groups@[k].1@ == layer_group(
                        map_of(s.take(i as int)),
                        size,
                        groups@[k].0 as int,
                    ),
            decreases queue@.len(),
        {
            let ghost before = queue@;
            let ghost old_groups = groups@;
            let (pos, note) = queue.pop().unwrap();
            proof {
                assert(before.last() == s[i as int]);
                assert(queue@ =~= s.skip(i + 1).reverse());
                assert(s.take(i + 1).drop_last() =~= s.take(i as int));
            }
            let ghost mi = map_of(s.take(i as int));
            let ghost mi2 = mi.insert(pos, note);
            proof {
                assert(map_of(s.take(i + 1)) == mi2);
            }
            let g = pos.layer() / size;
            let np = pos.with_layer(pos.layer() % size);
            match search_group(&groups, g) {
                Ok(k) => {
                    let (id, mut notes) = groups.remove(k);
                    let ghost before_notes = notes;
                    notes.insert(np, note);
                    groups.insert(k, (id, notes));
                    proof {
                        assert(before_notes == old_groups[k as int].1);
                        lemma_groups_step(mi, pos, note, size, g, old_groups, groups@, k as int, false);
                    }
                },
                Err(k) => {
                    let mut notes = Notes::new();
                    notes.insert(np, note);
                    groups.insert(k, (g, notes));
                    proof {
                        assert(notes@ =~= Map::<Position, E>::empty().insert(np, note));
                        lemma_groups_step(mi, pos, note, size, g, old_groups, groups@, k as int, true);
                    }
                },
            }
            i = i + 1;
        }
        proof {
            assert(s.take(i as int) =~= s);
        }
        let ghost ids = groups@.map_values(|x: (Index, Notes<E>)| x.0 as int);
        let mut out: Vec<Notes<E>> = Vec::new();
        let total = groups.len();
        let mut rest = reversed(groups);
        let ghost gs = rest@.reverse();
        proof {
            assert(gs =~= groups@);
        }
        let mut k: usize = 0;
        while rest.len() > 0
            invariant
                total == gs.len(),
                k <= gs.len(),
                rest@ == gs.skip(k as int).reverse(),
                out@.len() == k,
                forall|j: int| 0 <= j < k ==> (#[trigger] out@[j]) == gs[j].1,
            decreases rest@.len(),
        {
            let ghost before = rest@;
            let (_id, notes) = rest.pop().unwrap();
            proof {
                assert(before.last() == gs[k as int]);
                assert(rest@ =~= gs.skip(k + 1).reverse());
            }
            out.push(notes);
            k = k + 1;
        }
        proof {
            let seq_ids = gs.map_values(|x: (Index, Notes<E>)| x.0 as int);
            assert forall|j: int| 0 <= j < out@.len() implies (#[trigger] out@[j]).wf() && out@[j]@ == layer_group(m, size, seq_ids[j]) by {
                assert(out@[j] == gs[j].1);
            }
            assert(lists_groups(m, size, seq_ids)) by {
                assert forall|g2: int| has_group(m, size, g2) implies #[trigger] seq_ids.contains(g2) by {
                    let j = choose|j: int| 0 <= j < gs.len() && #[trigger] gs[j].0 == g2;
                    assert(seq_ids[j] == g2);
                }
                assert forall|a: int| 0 <= a < seq_ids.len() implies has_group(m, size, #[trigger] seq_ids[a]) by {
                    assert(has_group(m, size, gs[a].0 as int));
                }
            }
        }
        out
    }
}

/// The highest layer of the pairs (-1 for none).
pub open spec fn top_layer<E>(s: Seq<(Position, E)>) -> int
    decreases s.len(),
{
    if s.len() == 0 {
        -1
    } else {
        let rest = top_layer(s.drop_last());
        let l = s.last().0.spec_layer() as int;
        if rest < l {
            l
        } else {
            rest
        }
    }
}

/// The layers a group takes in a stack: its top layer and two blank layers
/// above it, or nothing for an empty group.
pub open spec fn stack_step<E>(s: Seq<(Position, E)>) -> int {
    if s.len() == 0 {
        0
    } else {
        top_layer(s) + 3
    }
}

/// The first layer of group `k` in the stack of `ns`.
pub open spec fn stack_base<E>(ns: Seq<Notes<E>>, k: int) -> int
    decreases k,
{
    if k <= 0 {
        0
    } else {
        stack_base(ns, k - 1) + stack_step(ns[k - 1].entries())
    }
}

/// The pairs moved up by `base` layers.
pub open spec fn lifted<E>(s: Seq<(Position, E)>, base: int) -> Seq<(Position, E)> {
    Seq::new(
        s.len(),
        |i: int| (Position::spec_at(s[i].0.spec_tick(), (s[i].0.spec_layer() + base) as Index), s[i].1),
    )
}

/// The groups stacked on each other, each lifted to its stack base.
pub open spec fn stacked<E>(ns: Seq<Notes<E>>) -> Seq<(Position, E)>
    decreases ns.len(),
{
    if ns.len() == 0 {
        Seq::empty()
    } else {
        stacked(ns.drop_last()) + lifted(ns.last().entries(), stack_base(ns, ns.len() - 1))
    }
}

pub proof fn lemma_top_layer<E>(s: Seq<(Position, E)>)
    ensures
        forall|i: int| 0 <= i < s.len() ==> (#[trigger] s[i]).0.spec_layer() <= top_layer(s),
        s.len() > 0 ==> 0 <= top_layer(s) <= u32::MAX,
        s.len() == 0 ==> top_layer(s) == -1,
    decreases s.len(),
{
    if s.len() > 0 {
        lemma_top_layer(s.drop_last());
        assert forall|i: int| 0 <= i < s.len() implies (#[trigger] s[i]).0.spec_layer() <= top_layer(s) by {
            if i < s.len() - 1 {
                assert(s[i] == s.drop_last()[i]);
            }
        }
    }
}

pub proof fn lemma_stack_base_mono<E>(ns: Seq<Notes<E>>, a: int, b: int)
    requires
        0 <= a <= b,
    ensures
        stack_base(ns, a) <= stack_base(ns, b),
    decreases b - a,
{
    if a < b {
        lemma_stack_base_mono(ns, a, b - 1);
        lemma_top_layer(ns[b - 1].entries());
    }
}

pub proof fn lemma_stack_base_prefix<E>(ns: Seq<Notes<E>>, k: int, j: int)
    requires
        0 <= j <= k <= ns.len(),
    ensures
        stack_base(ns.take(k), j) == stack_base(ns, j),
    decreases j,
{
    if j > 0 {
        lemma_stack_base_prefix(ns, k, j - 1);
        assert(ns.take(k)[j - 1] == ns[j - 1]);
    }
}

impl<E> Notes<E> {
    /// The highest layer used by a note.
    fn top(&self) -> (r: Option<Index>)
        ensures
            r is None <==> self.entries().len() == 0,
            r matches Some(t) ==> t == top_layer(self.entries()),
    {
        let mut best: Option<Index> = None;
        let mut i: usize = 0;
        while i < self.entries.len()
            invariant
                i <= self.entries().len(),
                best is None <==> i == 0,
                best matches Some(t) ==> t == top_layer(self.entries().take(i as int)),
            decreases self.entries().len() - i,
        {
            let l = self.entries[i].0.layer();
            proof {
                let s = self.entries();
                assert(s.take(i + 1).drop_last() =~= s.take(i as int));
                assert(s.take(i + 1).last() == s[i as int]);
            }
            let ghost prev = best;
            let next = match best {
                None => l,
                Some(t) => if t < l {
                    l
                } else {
                    t
                },
            };
            proof {
                let s = self.entries();
                assert(top_layer(s.take(i + 1)) == (if top_layer(s.take(i as int)) < l as int {
                    l as int
                } else {
                    top_layer(s.take(i as int))
                }));
                if i == 0 {
                    assert(s.take(0) =~= Seq::<(Position, E)>::empty());
                }
                assert(next == top_layer(s.take(i + 1)));
            }
            best = Some(next);
            i = i + 1;
        }
        proof {
            assert(self.entries().take(i as int) =~= self.entries());
        }
        best
    }

    /// Stacks note groups vertically with 2 blank layers between, consuming
    /// them by value: each group starts 3 layers above the previous group's
    /// highest layer, and empty groups take no layers.
    pub fn concat(notes: Vec<Notes<E>>) -> (r: Vec<(Position, E)>)
        requires
            stack_base(notes@, notes@.len() as int) <= u32::MAX,
        ensures
            r@ == stacked(notes@),
    {
        let ghost ns = notes@;
        let count = notes.len();
        let mut queue = reversed(notes);
        let mut out: Vec<(Position, E)> = Vec::new();
        let mut offset: Index = 0;
        let mut k: usize = 0;
        while queue.len() > 0
            invariant
                count == ns.len(),
                k <= ns.len(),
                queue@ == ns.skip(k as int).reverse(),
                offset == stack_base(ns, k as int),
                stack_base(ns, ns.len() as int) <= u32::MAX,
                out@ == stacked(ns.take(k as int)),
            decreases queue@.len(),
        {
            let ghost before = queue@;
            let group = queue.pop().unwrap();
            proof {
                assert(before.last() == ns[k as int]);
                assert(queue@ =~= ns.skip(k + 1).reverse());
                lemma_stack_base_mono(ns, k + 1, ns.len() as int);
                lemma_top_layer(group.entries());
            }
            let top = group.top();
            let base = offset;
            let ghost gs = group.entries();
            let n = group.len();
            let mut items = reversed(group.into_entries());
            let mut i: usize = 0;
            let ghost out0 = out@;
            while items.len() > 0
                invariant
                    n == gs.len(),
                    i <= gs.len(),
                    items@ == gs.skip(i as int).reverse(),
                    out@ == out0 + lifted(gs, base as int).take(i as int),
                    forall|j: int| 0 <= j < gs.len() ==> (#[trigger] gs[j]).0.spec_layer() + base <= u32::MAX,
                decreases items@.len(),
            {
                let ghost before_items = items@;
                let (pos, value) = items.pop().unwrap();
                proof {
                    assert(before_items.last() == gs[i as int]);
                    assert(items@ =~= gs.skip(i + 1).reverse());
                    assert(gs[i as int].0.spec_layer() + base <= u32::MAX);
                }
                out.push((pos.with_layer(pos.layer() + base), value));
                proof {
                    assert(out@ =~= out0 + lifted(gs, base as int).take(i + 1));
                }
                i = i + 1;
            }
            proof {
                assert(lifted(gs, base as int).take(i as int) =~= lifted(gs, base as int));
                assert(ns.take(k + 1).drop_last() =~= ns.take(k as int));
                assert(ns.take(k + 1).last() == ns[k as int]);
                lemma_stack_base_prefix(ns, k + 1, k as int);
            }
            match top {
                Some(t) => {
                    offset = offset + (t + 3);
                },
                None => {},
            }
            proof {
                assert(stack_base(ns, k + 1) == stack_base(ns, k as int) + stack_step(ns[k as int].entries()));
            }
            k = k + 1;
        }
        proof {
            assert(ns.take(k as int) =~= ns);
        }
        out
    }
}

} // verus!

