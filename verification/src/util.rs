//! Experimental pattern matching over a song's notes.

use crate::note::Note;
use crate::notes::{lemma_map_of_at, lemma_map_of_dom, map_of, reversed, sorted_positions, Notes};
use crate::types::{Position, Tick};
use vstd::prelude::*;

verus! {

broadcast use {Position::lemma_at_fields, Position::lemma_at_of};

/// `f` accepts note `a` as a partner of the anchor note `b`.
pub open spec fn accepts<F: Fn(&Note, &Note) -> bool>(f: F, a: Note, b: Note) -> bool {
    f.ensures((&a, &b), true)
}

/// `f` can be called on any two notes, and its postcondition determines
/// its answer.
pub open spec fn usable<F: Fn(&Note, &Note) -> bool>(f: F) -> bool {
    forall|a: &Note, b: &Note|
        #![trigger f.requires((a, b))]
        f.requires((a, b)) && !(f.ensures((a, b), true) && f.ensures((a, b), false))
}

/// The tick that pattern offset `p` points to from the anchor at `a`,
/// wrapping around the song length.
pub open spec fn target(a: Position, p: Tick, song_length: Tick) -> int {
    (a.spec_tick() + p) % (song_length as int)
}

/// The note at `q` is a partner of the anchor at `a` for pattern offset `p`.
pub open spec fn partner_of<F: Fn(&Note, &Note) -> bool>(
    f: F,
    m: Map<Position, Note>,
    q: Position,
    a: Position,
    p: Tick,
    song_length: Tick,
) -> bool {
    q.spec_tick() == target(a, p, song_length) && accepts(f, m[q], m[a])
}

/// Every pattern offset shifts every note within the tick range.
pub open spec fn pattern_fits(m: Map<Position, Note>, pattern: Seq<Tick>) -> bool {
    forall|q: Position, k: int|
        #![trigger m.contains_key(q), pattern[k]]
        m.contains_key(q) && 0 <= k < pattern.len() ==> q.spec_tick() + pattern[k] <= u32::MAX
}

/// Some note of `group` is a partner of the anchor at `a` for offset `p`.
pub open spec fn covers<F: Fn(&Note, &Note) -> bool>(
    f: F,
    m: Map<Position, Note>,
    group: Map<Position, Note>,
    a: Position,
    p: Tick,
    song_length: Tick,
) -> bool {
    exists|q: Position| #[trigger] group.contains_key(q) && partner_of(f, m, q, a, p, song_length)
}

/// The note at `q` is in one of the first `g` groups.
pub open spec fn in_earlier(groups: Seq<Map<Position, Note>>, g: int, q: Position) -> bool {
    exists|h: int| 0 <= h < g && #[trigger] groups[h].contains_key(q)
}

/// The note at `q` is, among the notes of `m` outside the first `g` groups,
/// the first in position order that is a partner of the anchor at `a` for
/// pattern offset `p`.
pub open spec fn first_fit<F: Fn(&Note, &Note) -> bool>(
    f: F,
    m: Map<Position, Note>,
    groups: Seq<Map<Position, Note>>,
    g: int,
    q: Position,
    a: Position,
    p: Tick,
    song_length: Tick,
) -> bool {
    &&& m.contains_key(q)
    &&& !in_earlier(groups, g, q)
    &&& partner_of(f, m, q, a, p, song_length)
    &&& forall|v: Position|
        #[trigger] m.contains_key(v) && v.less(q) && !in_earlier(groups, g, v) ==> !partner_of(f, m, v, a, p, song_length)
}

/// The result of greedy pattern matching of `m`: `groups` and `unmatched`
/// partition the notes; group `g` was formed around the anchor
/// `anchors[g]` (anchors in position order) and holds, for each pattern
/// offset, a note at the offset tick that `f` accepts, and nothing else; and
/// every unmatched note that anchors no group has a pattern offset for which
/// no unmatched note is an acceptable partner. More exactly, the notes are
/// tried in position order against the groups formed before each: an
/// anchor is in none of the groups formed before its own; each group holds
/// exactly the first fitting partners of its anchor, one per offset, among
/// the notes outside the groups formed before it; and a note that anchors
/// no group and is outside the groups formed before its turn has an offset
/// with no partner outside them.
pub open spec fn matching_result<F: Fn(&Note, &Note) -> bool>(
    m: Map<Position, Note>,
    groups: Seq<Map<Position, Note>>,
    unmatched: Map<Position, Note>,
    anchors: Seq<Position>,
    pattern: Seq<Tick>,
    song_length: Tick,
    f: F,
) -> bool {
    &&& anchors.len() == groups.len()
    &&& forall|p: Position|
        #[trigger] m.contains_key(p) <==> (unmatched.contains_key(p) || exists|g: int|
            0 <= g < groups.len() && #[trigger] groups[g].contains_key(p))
    &&& forall|p: Position| #[trigger] unmatched.contains_key(p) ==> unmatched[p] == m[p]
    &&& forall|g: int, p: Position|
        0 <= g < groups.len() && #[trigger] groups[g].contains_key(p) ==> groups[g][p] == m[p]
            && !unmatched.contains_key(p)
    &&& forall|g: int, h: int, p: Position|
        0 <= g < h < groups.len() && #[trigger] groups[g].contains_key(p) ==> !#[trigger] groups[h].contains_key(p)
    &&& forall|g: int| 0 <= g < anchors.len() ==> m.contains_key(#[trigger] anchors[g])
    &&& forall|g: int, h: int| 0 <= g < h < anchors.len() ==> (#[trigger] anchors[g]).less(#[trigger] anchors[h])
    &&& forall|g: int, k: int|
        0 <= g < groups.len() && 0 <= k < pattern.len() ==> #[trigger] covers(f, m, groups[g], anchors[g], pattern[k], song_length)
    &&& forall|g: int, q: Position|
        0 <= g < groups.len() && #[trigger] groups[g].contains_key(q) ==> exists|k: int|
            0 <= k < pattern.len() && partner_of(f, m, q, anchors[g], #[trigger] pattern[k], song_length)
    &&& forall|u: Position|
        #[trigger] unmatched.contains_key(u) && !anchors.contains(u) ==> exists|k: int|
            0 <= k < pattern.len() && forall|v: Position|
                #[trigger] unmatched.contains_key(v) ==> !partner_of(f, m, v, u, #[trigger] pattern[k], song_length)
    &&& forall|g: int| 0 <= g < anchors.len() ==> !in_earlier(groups, g, #[trigger] anchors[g])
    &&& forall|g: int, q: Position|
        0 <= g < groups.len() ==> (#[trigger] groups[g].contains_key(q) <==> exists|k: int|
            0 <= k < pattern.len() && #[trigger] first_fit(f, m, groups, g, q, anchors[g], pattern[k], song_length))
    &&& forall|u: Position, g: int|
        #[trigger] m.contains_key(u) && 0 <= g <= anchors.len() && !anchors.contains(u) && (g == 0 || anchors[g - 1].less(u))
            && (g == anchors.len() || u.less(anchors[g])) && !#[trigger] in_earlier(groups, g, u) ==> exists|k: int|
            0 <= k < pattern.len() && forall|v: Position|
                #[trigger] m.contains_key(v) && !in_earlier(groups, g, v) ==> !partner_of(f, m, v, u, #[trigger] pattern[k], song_length)
}

/// The first `g` groups and anchors of two matching results agree.
spec fn agree_upto(
    g1: Seq<Map<Position, Note>>,
    a1: Seq<Position>,
    g2: Seq<Map<Position, Note>>,
    a2: Seq<Position>,
    g: int,
) -> bool {
    &&& g <= a1.len() && g <= a2.len()
    &&& forall|h: int| 0 <= h < g ==> #[trigger] a1[h] == a2[h] && g1[h] == g2[h]
}

/// Where two matching results agree on their first `g` groups, the next
/// anchor of the first is not before that of the second: otherwise the
/// second would have left a note with partners for every offset outside its
/// groups.
proof fn lemma_no_earlier_anchor<F: Fn(&Note, &Note) -> bool>(
    m: Map<Position, Note>,
    g1: Seq<Map<Position, Note>>,
    u1: Map<Position, Note>,
    a1: Seq<Position>,
    g2: Seq<Map<Position, Note>>,
    u2: Map<Position, Note>,
    a2: Seq<Position>,
    pattern: Seq<Tick>,
    song_length: Tick,
    f: F,
    g: int,
)
    requires
        matching_result(m, g1, u1, a1, pattern, song_length, f),
        matching_result(m, g2, u2, a2, pattern, song_length, f),
        agree_upto(g1, a1, g2, a2, g),
        0 <= g < a1.len(),
    ensures
        g < a2.len() && !a1[g].less(a2[g]),
{
    if !(g < a2.len() && !a1[g].less(a2[g])) {
        let x = a1[g];
        assert forall|q: Position| #[trigger] in_earlier(g1, g, q) == in_earlier(g2, g, q) by {
            if in_earlier(g1, g, q) {
                let h = choose|h: int| 0 <= h < g && #[trigger] g1[h].contains_key(q);
                assert(a1[h] == a2[h] && g1[h] == g2[h]);
            }
            if in_earlier(g2, g, q) {
                let h = choose|h: int| 0 <= h < g && #[trigger] g2[h].contains_key(q);
                assert(a1[h] == a2[h] && g1[h] == g2[h]);
            }
        }
        assert(!in_earlier(g1, g, x));
        assert(m.contains_key(x));
        if g > 0 {
            assert(a1[g - 1] == a2[g - 1]);
            assert(a1[g - 1].less(a1[g]));
        }
        assert(!a2.contains(x)) by {
            if a2.contains(x) {
                let j = choose|j: int| 0 <= j < a2.len() && a2[j] == x;
                if j < g {
                    assert(a1[j] == a2[j]);
                    assert(a1[j].less(a1[g]));
                } else if j > g {
                    assert(a2[g].less(a2[j]));
                }
            }
        }
        assert(m.contains_key(x) && 0 <= g <= a2.len() && !a2.contains(x) && (g == 0 || a2[g - 1].less(x)) && (g == a2.len()
            || x.less(a2[g])) && !in_earlier(g2, g, x));
        let k = choose|k: int|
            0 <= k < pattern.len() && forall|v: Position|
                #[trigger] m.contains_key(v) && !in_earlier(g2, g, v) ==> !partner_of(f, m, v, x, #[trigger] pattern[k], song_length);
        assert(covers(f, m, g1[g], a1[g], pattern[k], song_length));
        let q = choose|q: Position| #[trigger] g1[g].contains_key(q) && partner_of(f, m, q, a1[g], pattern[k], song_length);
        assert(m.contains_key(q));
        assert(!in_earlier(g1, g, q)) by {
            if in_earlier(g1, g, q) {
                let h = choose|h: int| 0 <= h < g && #[trigger] g1[h].contains_key(q);
            }
        }
    }
}

/// Two matching results that agree on their first `g` groups agree on the
/// next one as well.
proof fn lemma_agree_step<F: Fn(&Note, &Note) -> bool>(
    m: Map<Position, Note>,
    g1: Seq<Map<Position, Note>>,
    u1: Map<Position, Note>,
    a1: Seq<Position>,
    g2: Seq<Map<Position, Note>>,
    u2: Map<Position, Note>,
    a2: Seq<Position>,
    pattern: Seq<Tick>,
    song_length: Tick,
    f: F,
    g: int,
)
    requires
        matching_result(m, g1, u1, a1, pattern, song_length, f),
        matching_result(m, g2, u2, a2, pattern, song_length, f),
        agree_upto(g1, a1, g2, a2, g),
        0 <= g,
        g < a1.len() || g < a2.len(),
    ensures
        agree_upto(g1, a1, g2, a2, g + 1),
{
    if g < a1.len() {
        lemma_no_earlier_anchor(m, g1, u1, a1, g2, u2, a2, pattern, song_length, f, g);
    }
    if g < a2.len() {
        assert(agree_upto(g2, a2, g1, a1, g)) by {
            assert forall|h: int| 0 <= h < g implies #[trigger] a2[h] == a1[h] && g2[h] == g1[h] by {
                assert(a1[h] == a2[h] && g1[h] == g2[h]);
            }
        }
        lemma_no_earlier_anchor(m, g2, u2, a2, g1, u1, a1, pattern, song_length, f, g);
    }
    assert(g < a1.len() && g < a2.len());
    a1[g].lemma_eq(a2[g]);
    assert(a1[g] == a2[g]);
    assert forall|q: Position| #[trigger] in_earlier(g1, g, q) == in_earlier(g2, g, q) by {
        if in_earlier(g1, g, q) {
            let h = choose|h: int| 0 <= h < g && #[trigger] g1[h].contains_key(q);
            assert(a1[h] == a2[h] && g1[h] == g2[h]);
        }
        if in_earlier(g2, g, q) {
            let h = choose|h: int| 0 <= h < g && #[trigger] g2[h].contains_key(q);
            assert(a1[h] == a2[h] && g1[h] == g2[h]);
        }
    }
    assert forall|q: Position, k: int| 0 <= k < pattern.len() implies #[trigger] first_fit(f, m, g1, g, q, a1[g], pattern[k], song_length)
        == first_fit(f, m, g2, g, q, a2[g], pattern[k], song_length) by {
        assert(in_earlier(g1, g, q) == in_earlier(g2, g, q));
        assert forall|v: Position| #[trigger] m.contains_key(v) implies in_earlier(g1, g, v) == in_earlier(g2, g, v) by {}
    }
    assert(g1[g] =~= g2[g]) by {
        assert forall|q: Position| #[trigger] g1[g].contains_key(q) == g2[g].contains_key(q) by {
            if g1[g].contains_key(q) {
                let k = choose|k: int| 0 <= k < pattern.len() && #[trigger] first_fit(f, m, g1, g, q, a1[g], pattern[k], song_length);
                assert(first_fit(f, m, g2, g, q, a2[g], pattern[k], song_length));
            }
            if g2[g].contains_key(q) {
                let k = choose|k: int| 0 <= k < pattern.len() && #[trigger] first_fit(f, m, g2, g, q, a2[g], pattern[k], song_length);
                assert(first_fit(f, m, g1, g, q, a1[g], pattern[k], song_length));
            }
        }
        assert forall|q: Position| #[trigger] g1[g].contains_key(q) implies g1[g][q] == g2[g][q] by {
            assert(g1[g][q] == m[q]);
            assert(g2[g][q] == m[q]);
        }
    }
    assert forall|h: int| 0 <= h < g + 1 implies #[trigger] a1[h] == a2[h] && g1[h] == g2[h] by {
        if h < g {
            assert(a1[h] == a2[h] && g1[h] == g2[h]);
        }
    }
}

/// Two matching results that agree on their first `g` groups agree
/// entirely.
proof fn lemma_agree_from<F: Fn(&Note, &Note) -> bool>(
    m: Map<Position, Note>,
    g1: Seq<Map<Position, Note>>,
    u1: Map<Position, Note>,
    a1: Seq<Position>,
    g2: Seq<Map<Position, Note>>,
    u2: Map<Position, Note>,
    a2: Seq<Position>,
    pattern: Seq<Tick>,
    song_length: Tick,
    f: F,
    g: int,
)
    requires
        matching_result(m, g1, u1, a1, pattern, song_length, f),
        matching_result(m, g2, u2, a2, pattern, song_length, f),
        agree_upto(g1, a1, g2, a2, g),
        0 <= g,
    ensures
        a1 == a2,
        g1 == g2,
    decreases a1.len() + a2.len() - 2 * g,
{
    if g < a1.len() || g < a2.len() {
        lemma_agree_step(m, g1, u1, a1, g2, u2, a2, pattern, song_length, f, g);
        lemma_agree_from(m, g1, u1, a1, g2, u2, a2, pattern, song_length, f, g + 1);
    } else {
        assert(a1 =~= a2) by {
            assert forall|h: int| 0 <= h < a1.len() implies a1[h] == a2[h] by {
                assert(a1[h] == a2[h] && g1[h] == g2[h]);
            }
        }
        assert(g1 =~= g2) by {
            assert forall|h: int| 0 <= h < g1.len() implies g1[h] == g2[h] by {
                assert(a1[h] == a2[h] && g1[h] == g2[h]);
            }
        }
    }
}

/// The number of keys of the maps, together.
pub open spec fn dom_total(gs: Seq<Map<Position, Note>>) -> int
    decreases gs.len(),
{
    if gs.len() == 0 {
        0
    } else {
        dom_total(gs.drop_last()) + gs.last().dom().len()
    }
}

/// The keys of `unmatched` and of the first `k` groups.
spec fn keys_upto(unmatched: Map<Position, Note>, groups: Seq<Map<Position, Note>>, k: int) -> Set<Position>
    decreases k,
{
    if k <= 0 {
        unmatched.dom()
    } else {
        keys_upto(unmatched, groups, k - 1) + groups[k - 1].dom()
    }
}

proof fn lemma_keys_upto<F: Fn(&Note, &Note) -> bool>(
    m: Map<Position, Note>,
    groups: Seq<Map<Position, Note>>,
    unmatched: Map<Position, Note>,
    anchors: Seq<Position>,
    pattern: Seq<Tick>,
    song_length: Tick,
    f: F,
    k: int,
)
    requires
        matching_result(m, groups, unmatched, anchors, pattern, song_length, f),
        m.dom().finite(),
        0 <= k <= groups.len(),
    ensures
        keys_upto(unmatched, groups, k).finite(),
        keys_upto(unmatched, groups, k).len() == unmatched.dom().len() + dom_total(groups.take(k)),
        forall|q: Position| #[trigger] keys_upto(unmatched, groups, k).contains(q) <==> (unmatched.contains_key(q) || exists|g: int|
            0 <= g < k && #[trigger] groups[g].contains_key(q)),
    decreases k,
{
    assert(unmatched.dom().subset_of(m.dom()));
    vstd::set_lib::lemma_len_subset(unmatched.dom(), m.dom());
    if k == 0 {
        assert(groups.take(0) =~= Seq::<Map<Position, Note>>::empty());
    } else {
        lemma_keys_upto(m, groups, unmatched, anchors, pattern, song_length, f, k - 1);
        let a = keys_upto(unmatched, groups, k - 1);
        let b = groups[k - 1].dom();
        assert(b.subset_of(m.dom()));
        vstd::set_lib::lemma_len_subset(b, m.dom());
        assert(a.disjoint(b)) by {
            assert forall|q: Position| !(a.contains(q) && b.contains(q)) by {
                if a.contains(q) && b.contains(q) {
                    if !unmatched.contains_key(q) {
                        let g = choose|g: int| 0 <= g < k - 1 && #[trigger] groups[g].contains_key(q);
                        assert(!groups[k - 1].contains_key(q));
                    }
                }
            }
        }
        vstd::set_lib::lemma_set_disjoint_lens(a, b);
        assert(groups.take(k).drop_last() =~= groups.take(k - 1));
        assert forall|q: Position| #[trigger] keys_upto(unmatched, groups, k).contains(q) <==> (unmatched.contains_key(q) || exists|g: int|
            0 <= g < k && #[trigger] groups[g].contains_key(q)) by {
            if groups[k - 1].contains_key(q) {
                assert(exists|g: int| 0 <= g < k && #[trigger] groups[g].contains_key(q));
            }
            if exists|g: int| 0 <= g < k && #[trigger] groups[g].contains_key(q) {
                let g = choose|g: int| 0 <= g < k && #[trigger] groups[g].contains_key(q);
                if g < k - 1 {
                    assert(a.contains(q));
                }
            }
        }
    }
}

/// Law: the groups and the unmatched notes of a matching partition the
/// notes, so their numbers add up to the number of notes.
pub proof fn lemma_matching_count<F: Fn(&Note, &Note) -> bool>(
    m: Map<Position, Note>,
    groups: Seq<Map<Position, Note>>,
    unmatched: Map<Position, Note>,
    anchors: Seq<Position>,
    pattern: Seq<Tick>,
    song_length: Tick,
    f: F,
)
    requires
        matching_result(m, groups, unmatched, anchors, pattern, song_length, f),
        m.dom().finite(),
    ensures
        dom_total(groups) + unmatched.dom().len() == m.dom().len(),
{
    let n = groups.len() as int;
    lemma_keys_upto(m, groups, unmatched, anchors, pattern, song_length, f, n);
    assert(keys_upto(unmatched, groups, n) =~= m.dom());
    assert(groups.take(n) =~= groups);
}


/// Offsets distinct modulo the song length point, from any anchor, to
/// distinct ticks.
proof fn lemma_targets_distinct(a: Position, p1: Tick, p2: Tick, song_length: Tick)
    requires
        song_length > 0,
        p1 % song_length != p2 % song_length,
    ensures
        target(a, p1, song_length) != target(a, p2, song_length),
{
    let l = song_length as int;
    let x = a.spec_tick() as int;
    vstd::arithmetic::div_mod::lemma_add_mod_noop(x, p1 as int, l);
    vstd::arithmetic::div_mod::lemma_add_mod_noop(x, p2 as int, l);
    let x0 = x % l;
    let y1 = (p1 as int) % l;
    let y2 = (p2 as int) % l;
    assert(0 <= x0 < l && 0 <= y1 < l && 0 <= y2 < l);
    lemma_mod_below_twice(x0 + y1, l);
    lemma_mod_below_twice(x0 + y2, l);
}

/// Below twice the modulus, the remainder subtracts the modulus at most once.
proof fn lemma_mod_below_twice(s: int, l: int)
    requires
        l > 0,
        0 <= s < 2 * l,
    ensures
        s % l == (if s < l { s } else { s - l }),
{
    if s < l {
        vstd::arithmetic::div_mod::lemma_small_mod(s as nat, l as nat);
    } else {
        vstd::arithmetic::div_mod::lemma_mod_add_multiples_vanish(s - l, l);
        vstd::arithmetic::div_mod::lemma_small_mod((s - l) as nat, l as nat);
    }
}

/// The note that a group holds for one pattern offset is unique.
proof fn lemma_first_fit_unique<F: Fn(&Note, &Note) -> bool>(
    f: F,
    m: Map<Position, Note>,
    groups: Seq<Map<Position, Note>>,
    g: int,
    q1: Position,
    q2: Position,
    a: Position,
    p: Tick,
    song_length: Tick,
)
    requires
        first_fit(f, m, groups, g, q1, a, p, song_length),
        first_fit(f, m, groups, g, q2, a, p, song_length),
    ensures
        q1 == q2,
{
    if q1.less(q2) {
        assert(!partner_of(f, m, q1, a, p, song_length));
    } else if q2.less(q1) {
        assert(!partner_of(f, m, q2, a, p, song_length));
    } else {
        q1.lemma_eq(q2);
    }
}

/// Law: when the pattern offsets are distinct modulo the song length, every
/// group of a matching holds exactly one note per pattern offset.
pub proof fn lemma_group_sizes<F: Fn(&Note, &Note) -> bool>(
    m: Map<Position, Note>,
    groups: Seq<Map<Position, Note>>,
    unmatched: Map<Position, Note>,
    anchors: Seq<Position>,
    pattern: Seq<Tick>,
    song_length: Tick,
    f: F,
    g: int,
)
    requires
        matching_result(m, groups, unmatched, anchors, pattern, song_length, f),
        song_length > 0,
        forall|i: int, j: int| 0 <= i < j < pattern.len() ==> pattern[i] % song_length != pattern[j] % song_length,
        0 <= g < groups.len(),
    ensures
        groups[g].dom().finite(),
        groups[g].dom().len() == pattern.len(),
{
    let a = anchors[g];
    let pick = |k: int| choose|q: Position| first_fit(f, m, groups, g, q, a, pattern[k], song_length);
    let qs = Seq::new(pattern.len(), pick);
    assert forall|k: int| 0 <= k < pattern.len() implies #[trigger] first_fit(f, m, groups, g, qs[k], a, pattern[k], song_length) && groups[g].contains_key(qs[k]) by {
        assert(covers(f, m, groups[g], a, pattern[k], song_length));
        let q = choose|q: Position| #[trigger] groups[g].contains_key(q) && partner_of(f, m, q, a, pattern[k], song_length);
        let k2 = choose|k2: int| 0 <= k2 < pattern.len() && #[trigger] first_fit(f, m, groups, g, q, a, pattern[k2], song_length);
        if k2 != k {
            assert(q.spec_tick() == target(a, pattern[k], song_length));
            assert(q.spec_tick() == target(a, pattern[k2], song_length));
            if k < k2 {
                lemma_targets_distinct(a, pattern[k], pattern[k2], song_length);
            } else {
                lemma_targets_distinct(a, pattern[k2], pattern[k], song_length);
            }
        }
        assert(first_fit(f, m, groups, g, q, a, pattern[k], song_length));
        assert(first_fit(f, m, groups, g, qs[k], a, pattern[k], song_length));
        lemma_first_fit_unique(f, m, groups, g, q, qs[k], a, pattern[k], song_length);
    }
    assert(qs.no_duplicates()) by {
        assert forall|i: int, j: int| 0 <= i < qs.len() && 0 <= j < qs.len() && i != j implies qs[i] != qs[j] by {
            assert(first_fit(f, m, groups, g, qs[i], a, pattern[i], song_length));
            assert(first_fit(f, m, groups, g, qs[j], a, pattern[j], song_length));
            if i < j {
                lemma_targets_distinct(a, pattern[i], pattern[j], song_length);
            } else {
                lemma_targets_distinct(a, pattern[j], pattern[i], song_length);
            }
        }
    }
    assert(groups[g].dom() =~= qs.to_set()) by {
        assert forall|q: Position| groups[g].dom().contains(q) <==> qs.to_set().contains(q) by {
            if groups[g].contains_key(q) {
                let k = choose|k: int| 0 <= k < pattern.len() && #[trigger] first_fit(f, m, groups, g, q, a, pattern[k], song_length);
                assert(first_fit(f, m, groups, g, qs[k], a, pattern[k], song_length));
                lemma_first_fit_unique(f, m, groups, g, q, qs[k], a, pattern[k], song_length);
                assert(qs.contains(q));
            }
            if qs.to_set().contains(q) {
                let k = choose|k: int| 0 <= k < qs.len() && qs[k] == q;
                assert(first_fit(f, m, groups, g, qs[k], a, pattern[k], song_length));
            }
        }
    }
    qs.unique_seq_to_set();
    broadcast use vstd::seq_lib::seq_to_set_is_finite;
}


/// A matching result is unique: the groups, their anchors and the
/// unmatched notes are determined by the notes, the pattern, the song
/// length and `f`. So [`Notes::group_match`] and [`Notes::matches_by`] leave
/// the same notes unmatched, and the groups of the first partition the
/// notes the second matches.
pub proof fn lemma_matching_unique<F: Fn(&Note, &Note) -> bool>(
    m: Map<Position, Note>,
    g1: Seq<Map<Position, Note>>,
    u1: Map<Position, Note>,
    a1: Seq<Position>,
    g2: Seq<Map<Position, Note>>,
    u2: Map<Position, Note>,
    a2: Seq<Position>,
    pattern: Seq<Tick>,
    song_length: Tick,
    f: F,
)
    requires
        matching_result(m, g1, u1, a1, pattern, song_length, f),
        matching_result(m, g2, u2, a2, pattern, song_length, f),
    ensures
        a1 == a2,
        g1 == g2,
        u1 == u2,
{
    lemma_agree_from(m, g1, u1, a1, g2, u2, a2, pattern, song_length, f, 0);
    assert(u1 =~= u2) by {
        assert forall|p: Position| #[trigger] u1.contains_key(p) == u2.contains_key(p) by {
            if u1.contains_key(p) && !u2.contains_key(p) {
                assert(m.contains_key(p));
                let g = choose|g: int| 0 <= g < g2.len() && #[trigger] g2[g].contains_key(p);
                assert(g1[g].contains_key(p));
            }
            if u2.contains_key(p) && !u1.contains_key(p) {
                assert(m.contains_key(p));
                let g = choose|g: int| 0 <= g < g1.len() && #[trigger] g1[g].contains_key(p);
                assert(g2[g].contains_key(p));
            }
        }
        assert forall|p: Position| #[trigger] u1.contains_key(p) implies u1[p] == u2[p] by {
            assert(u1[p] == m[p]);
            assert(u2[p] == m[p]);
        }
    }
}

// Candidates
//
// ++++++++++++============++++++++++++============++++++++++++============

/// A note with its match state.
struct Candidate {
    pos: Position,
    note: Note,
    is_matched: bool,
    group: usize,
}

spec fn member(c: Seq<Candidate>, j: int, g: int) -> bool {
    c[j].is_matched && c[j].group == g
}

/// Candidate `j` is a partner of candidate `a` for offset `p`.
spec fn cand_partner<F: Fn(&Note, &Note) -> bool>(c: Seq<Candidate>, j: int, a: int, p: Tick, song_length: Tick, f: F) -> bool {
    c[j].pos.spec_tick() == target(c[a].pos, p, song_length) && accepts(f, c[j].note, c[a].note)
}

/// Group ids are below the group count; anchors increase and lie before
/// `done`.
#[verifier::opaque]
spec fn ms_groups(c: Seq<Candidate>, anchors: Seq<int>, done: int) -> bool {
    &&& forall|j: int| 0 <= j < c.len() && (#[trigger] c[j]).is_matched ==> c[j].group < anchors.len()
    &&& forall|g: int| 0 <= g < anchors.len() ==> 0 <= #[trigger] anchors[g] < done
    &&& forall|g: int, h: int| 0 <= g < h < anchors.len() ==> #[trigger] anchors[g] < #[trigger] anchors[h]
}

/// Some member of group `g` is a partner of candidate `a` for offset `p`.
spec fn has_partner<F: Fn(&Note, &Note) -> bool>(c: Seq<Candidate>, g: int, a: int, p: Tick, song_length: Tick, f: F) -> bool {
    exists|j: int| 0 <= j < c.len() && member(c, j, g) && #[trigger] cand_partner(c, j, a, p, song_length, f)
}

/// Every group has a partner for every pattern offset.
#[verifier::opaque]
spec fn ms_complete<F: Fn(&Note, &Note) -> bool>(c: Seq<Candidate>, anchors: Seq<int>, pattern: Seq<Tick>, song_length: Tick, f: F) -> bool {
    forall|g: int, k: int|
        0 <= g < anchors.len() && 0 <= k < pattern.len() ==> #[trigger] has_partner(c, g, anchors[g], pattern[k], song_length, f)
}

/// Every matched candidate is a partner of its group's anchor.
#[verifier::opaque]
spec fn ms_sound<F: Fn(&Note, &Note) -> bool>(c: Seq<Candidate>, anchors: Seq<int>, pattern: Seq<Tick>, song_length: Tick, f: F) -> bool {
    forall|j: int|
        0 <= j < c.len() && (#[trigger] c[j]).is_matched ==> exists|k: int|
            0 <= k < pattern.len() && cand_partner(c, j, anchors[c[j].group as int], #[trigger] pattern[k], song_length, f)
}

/// Every tried candidate that is unmatched and anchors no group has an
/// offset without any unmatched partner.
#[verifier::opaque]
spec fn ms_blocked<F: Fn(&Note, &Note) -> bool>(
    c: Seq<Candidate>,
    anchors: Seq<int>,
    pattern: Seq<Tick>,
    song_length: Tick,
    f: F,
    done: int,
) -> bool {
    forall|u: int|
        0 <= u < done && !(#[trigger] c[u]).is_matched && !anchors.contains(u) ==> exists|k: int|
            0 <= k < pattern.len() && forall|v: int|
                0 <= v < c.len() && !(#[trigger] c[v]).is_matched ==> !cand_partner(c, v, u, #[trigger] pattern[k], song_length, f)
}

/// Candidate `j` joined one of the groups formed before group `g`.
spec fn earlier(c: Seq<Candidate>, j: int, g: int) -> bool {
    c[j].is_matched && c[j].group < g
}

/// Candidate `j` is, among the candidates outside the groups formed before
/// group `g`, the first partner of candidate `a` for offset `p`.
spec fn first_partner<F: Fn(&Note, &Note) -> bool>(
    c: Seq<Candidate>,
    j: int,
    g: int,
    a: int,
    p: Tick,
    song_length: Tick,
    f: F,
) -> bool {
    &&& 0 <= j < c.len()
    &&& !earlier(c, j, g)
    &&& cand_partner(c, j, a, p, song_length, f)
    &&& forall|v: int| 0 <= v < j && !earlier(c, v, g) ==> !#[trigger] cand_partner(c, v, a, p, song_length, f)
}

/// The greedy choices: no anchor was in a group formed before its own; each
/// group holds exactly the first partners of its anchor, one per offset,
/// outside the groups formed before it; and every tried candidate that
/// anchors no group and was outside the groups formed before its turn had
/// an offset without any partner outside them.
#[verifier::opaque]
spec fn ms_exact<F: Fn(&Note, &Note) -> bool>(
    c: Seq<Candidate>,
    anchors: Seq<int>,
    pattern: Seq<Tick>,
    song_length: Tick,
    f: F,
    done: int,
) -> bool {
    &&& forall|g: int| 0 <= g < anchors.len() ==> !#[trigger] earlier(c, anchors[g], g)
    &&& forall|g: int, j: int|
        0 <= g < anchors.len() && 0 <= j < c.len() ==> (#[trigger] member(c, j, g) <==> exists|k: int|
            0 <= k < pattern.len() && #[trigger] first_partner(c, j, g, anchors[g], pattern[k], song_length, f))
    &&& forall|u: int, g: int|
        0 <= u < done && 0 <= g <= anchors.len() && !anchors.contains(u) && (g == 0 || anchors[g - 1] < u) && (g
            == anchors.len() || u < anchors[g]) && !#[trigger] earlier(c, u, g) ==> exists|k: int|
            0 <= k < pattern.len() && forall|v: int|
                0 <= v < c.len() && !#[trigger] earlier(c, v, g) ==> !cand_partner(c, v, u, #[trigger] pattern[k], song_length, f)
}

/// The state of the greedy matching after the candidates before `done`
/// were tried.
spec fn match_state<F: Fn(&Note, &Note) -> bool>(
    c: Seq<Candidate>,
    anchors: Seq<int>,
    pattern: Seq<Tick>,
    song_length: Tick,
    f: F,
    done: int,
) -> bool {
    &&& ms_groups(c, anchors, done)
    &&& ms_complete(c, anchors, pattern, song_length, f)
    &&& ms_sound(c, anchors, pattern, song_length, f)
    &&& ms_blocked(c, anchors, pattern, song_length, f, done)
    &&& ms_exact(c, anchors, pattern, song_length, f, done)
}

/// `c` is `before` with the candidates `indices` marked as group `g`.
spec fn marked(before: Seq<Candidate>, c: Seq<Candidate>, indices: Seq<usize>, g: usize) -> bool {
    &&& c.len() == before.len()
    &&& forall|j: int| 0 <= j < c.len() ==> (#[trigger] c[j]).pos == before[j].pos && c[j].note == before[j].note
    &&& forall|j: int|
        0 <= j < c.len() ==> (#[trigger] c[j]).is_matched == (before[j].is_matched || exists|k: int|
            0 <= k < indices.len() && indices[k] == j)
    &&& forall|j: int|
        0 <= j < c.len() ==> (#[trigger] c[j]).group == (if before[j].is_matched {
            before[j].group
        } else if exists|k: int| 0 <= k < indices.len() && indices[k] == j {
            g
        } else {
            before[j].group
        })
}

/// `indices` are unmatched partners of candidate `i`, one per offset.
spec fn valid_partners<F: Fn(&Note, &Note) -> bool>(
    before: Seq<Candidate>,
    indices: Seq<usize>,
    i: int,
    pattern: Seq<Tick>,
    song_length: Tick,
    f: F,
) -> bool {
    &&& indices.len() == pattern.len()
    &&& forall|k: int|
        0 <= k < indices.len() ==> #[trigger] indices[k] < before.len() && !before[indices[k] as int].is_matched
            && cand_partner(before, indices[k] as int, i, pattern[k], song_length, f)
}

proof fn lemma_state_init<F: Fn(&Note, &Note) -> bool>(c: Seq<Candidate>, pattern: Seq<Tick>, song_length: Tick, f: F)
    requires
        forall|j: int| 0 <= j < c.len() ==> !(#[trigger] c[j]).is_matched,
    ensures
        match_state(c, Seq::empty(), pattern, song_length, f, 0),
{
    reveal(ms_groups);
    reveal(ms_complete);
    reveal(ms_sound);
    reveal(ms_blocked);
    reveal(ms_exact);
}

/// Skipping a matched candidate, or trying one that finds no partner for
/// some offset, keeps the state.
proof fn lemma_state_next<F: Fn(&Note, &Note) -> bool>(
    c: Seq<Candidate>,
    anchors: Seq<int>,
    pattern: Seq<Tick>,
    song_length: Tick,
    f: F,
    i: int,
)
    requires
        0 <= i < c.len(),
        match_state(c, anchors, pattern, song_length, f, i),
        !c[i].is_matched ==> exists|k: int|
            0 <= k < pattern.len() && forall|v: int|
                0 <= v < c.len() && !(#[trigger] c[v]).is_matched ==> !cand_partner(c, v, i, #[trigger] pattern[k], song_length, f),
    ensures
        match_state(c, anchors, pattern, song_length, f, i + 1),
{
    reveal(ms_groups);
    reveal(ms_blocked);
    reveal(ms_exact);
    assert forall|u: int, g: int|
        0 <= u < i + 1 && 0 <= g <= anchors.len() && !anchors.contains(u) && (g == 0 || anchors[g - 1] < u) && (g
            == anchors.len() || u < anchors[g]) && !#[trigger] earlier(c, u, g) implies exists|k: int|
        0 <= k < pattern.len() && forall|v: int|
            0 <= v < c.len() && !#[trigger] earlier(c, v, g) ==> !cand_partner(c, v, u, #[trigger] pattern[k], song_length, f) by {
        if u == i {
            if g < anchors.len() {
                assert(anchors[g] < i);
            }
            assert(g == anchors.len());
            assert(!c[i].is_matched);
            let k = choose|k: int|
                0 <= k < pattern.len() && forall|v: int|
                    0 <= v < c.len() && !(#[trigger] c[v]).is_matched ==> !cand_partner(c, v, i, #[trigger] pattern[k], song_length, f);
            assert forall|v: int| 0 <= v < c.len() && !#[trigger] earlier(c, v, g) implies !cand_partner(c, v, u, pattern[k], song_length, f) by {
                assert(!c[v].is_matched);
            }
        }
    }
}

proof fn lemma_ng_groups(before: Seq<Candidate>, c: Seq<Candidate>, anchors: Seq<int>, indices: Seq<usize>, i: int)
    requires
        ms_groups(before, anchors, i),
        marked(before, c, indices, anchors.len() as usize),
        anchors.len() <= usize::MAX,
        0 <= i,
    ensures
        ms_groups(c, anchors.push(i), i + 1),
{
    reveal(ms_groups);
    let new_anchors = anchors.push(i);
    assert forall|j: int| 0 <= j < c.len() && #[trigger] c[j].is_matched implies c[j].group < new_anchors.len() by {}
    assert forall|g2: int| 0 <= g2 < new_anchors.len() implies 0 <= #[trigger] new_anchors[g2] < i + 1 by {}
    assert forall|g2: int, h: int| 0 <= g2 < h < new_anchors.len() implies #[trigger] new_anchors[g2] < #[trigger] new_anchors[h] by {}
}

proof fn lemma_ng_complete<F: Fn(&Note, &Note) -> bool>(
    before: Seq<Candidate>,
    c: Seq<Candidate>,
    anchors: Seq<int>,
    indices: Seq<usize>,
    i: int,
    pattern: Seq<Tick>,
    song_length: Tick,
    f: F,
)
    requires
        0 <= i < before.len(),
        ms_groups(before, anchors, i),
        ms_complete(before, anchors, pattern, song_length, f),
        marked(before, c, indices, anchors.len() as usize),
        anchors.len() <= usize::MAX,
        valid_partners(before, indices, i, pattern, song_length, f),
    ensures
        ms_complete(c, anchors.push(i), pattern, song_length, f),
{
    reveal(ms_groups);
    reveal(ms_complete);
    let new_anchors = anchors.push(i);
    assert forall|g2: int, k: int|
        0 <= g2 < new_anchors.len() && 0 <= k < pattern.len() implies #[trigger] has_partner(c, g2, new_anchors[g2], pattern[k], song_length, f) by {
        if g2 < anchors.len() {
            assert(anchors[g2] == new_anchors[g2]);
            assert(has_partner(before, g2, anchors[g2], pattern[k], song_length, f));
            let j = choose|j: int|
                0 <= j < before.len() && member(before, j, g2) && #[trigger] cand_partner(before, j, anchors[g2], pattern[k], song_length, f);
            assert(c[j].is_matched && c[j].group == before[j].group);
            assert(c[anchors[g2]].pos == before[anchors[g2]].pos && c[anchors[g2]].note == before[anchors[g2]].note);
            assert(c[j].pos == before[j].pos && c[j].note == before[j].note);
            assert(cand_partner(c, j, new_anchors[g2], pattern[k], song_length, f));
        } else {
            let j = indices[k] as int;
            assert(indices[k] == j);
            assert(exists|k2: int| 0 <= k2 < indices.len() && indices[k2] == j);
            assert(!before[j].is_matched);
            assert(c[j].is_matched && c[j].group == anchors.len());
            assert(member(c, j, g2));
            assert(c[i].pos == before[i].pos && c[i].note == before[i].note);
            assert(c[j].pos == before[j].pos && c[j].note == before[j].note);
            assert(cand_partner(c, j, new_anchors[g2], pattern[k], song_length, f));
        }
    }
}

proof fn lemma_ng_sound<F: Fn(&Note, &Note) -> bool>(
    before: Seq<Candidate>,
    c: Seq<Candidate>,
    anchors: Seq<int>,
    indices: Seq<usize>,
    i: int,
    pattern: Seq<Tick>,
    song_length: Tick,
    f: F,
)
    requires
        0 <= i < before.len(),
        ms_groups(before, anchors, i),
        ms_sound(before, anchors, pattern, song_length, f),
        marked(before, c, indices, anchors.len() as usize),
        anchors.len() <= usize::MAX,
        valid_partners(before, indices, i, pattern, song_length, f),
    ensures
        ms_sound(c, anchors.push(i), pattern, song_length, f),
{
    reveal(ms_groups);
    reveal(ms_sound);
    let new_anchors = anchors.push(i);
    assert forall|j: int|
        0 <= j < c.len() && (#[trigger] c[j]).is_matched implies exists|k: int|
            0 <= k < pattern.len() && cand_partner(c, j, new_anchors[c[j].group as int], #[trigger] pattern[k], song_length, f) by {
        assert(c[j].pos == before[j].pos && c[j].note == before[j].note);
        if before[j].is_matched {
            let a = anchors[before[j].group as int];
            assert(new_anchors[c[j].group as int] == a);
            assert(c[a].pos == before[a].pos && c[a].note == before[a].note);
            let k = choose|k: int|
                0 <= k < pattern.len() && cand_partner(before, j, a, #[trigger] pattern[k], song_length, f);
            assert(cand_partner(c, j, new_anchors[c[j].group as int], pattern[k], song_length, f));
        } else {
            let k = choose|k: int| 0 <= k < indices.len() && indices[k] == j;
            assert(c[j].group == anchors.len());
            assert(new_anchors[c[j].group as int] == i);
            assert(c[i].pos == before[i].pos && c[i].note == before[i].note);
            assert(cand_partner(before, j, i, pattern[k], song_length, f));
            assert(cand_partner(c, j, new_anchors[c[j].group as int], pattern[k], song_length, f));
        }
    }
}

proof fn lemma_ng_blocked<F: Fn(&Note, &Note) -> bool>(
    before: Seq<Candidate>,
    c: Seq<Candidate>,
    anchors: Seq<int>,
    indices: Seq<usize>,
    i: int,
    pattern: Seq<Tick>,
    song_length: Tick,
    f: F,
)
    requires
        0 <= i < before.len(),
        ms_blocked(before, anchors, pattern, song_length, f, i),
        marked(before, c, indices, anchors.len() as usize),
        anchors.len() <= usize::MAX,
    ensures
        ms_blocked(c, anchors.push(i), pattern, song_length, f, i + 1),
{
    reveal(ms_blocked);
    let new_anchors = anchors.push(i);
    assert forall|u: int|
        0 <= u < i + 1 && !(#[trigger] c[u]).is_matched && !new_anchors.contains(u) implies exists|k: int|
            0 <= k < pattern.len() && forall|v: int|
                0 <= v < c.len() && !(#[trigger] c[v]).is_matched ==> !cand_partner(c, v, u, #[trigger] pattern[k], song_length, f) by {
        if u == i {
            assert(new_anchors[anchors.len() as int] == u);
        } else {
            assert(!before[u].is_matched);
            assert(!anchors.contains(u)) by {
                if anchors.contains(u) {
                    let g3 = choose|g3: int| 0 <= g3 < anchors.len() && anchors[g3] == u;
                    assert(new_anchors[g3] == u);
                }
            }
            let k = choose|k: int|
                0 <= k < pattern.len() && forall|v: int|
                    0 <= v < before.len() && !(#[trigger] before[v]).is_matched ==> !cand_partner(before, v, u, #[trigger] pattern[k], song_length, f);
            assert(c[u].pos == before[u].pos && c[u].note == before[u].note);
            assert forall|v: int| 0 <= v < c.len() && !(#[trigger] c[v]).is_matched implies !cand_partner(c, v, u, #[trigger] pattern[k], song_length, f) by {
                assert(!before[v].is_matched);
                assert(c[v].pos == before[v].pos && c[v].note == before[v].note);
                assert(!cand_partner(before, v, u, pattern[k], song_length, f));
            }
        }
    }
}

/// Each of `indices` is the first unmatched partner of candidate `a` for
/// its offset.
spec fn first_partners<F: Fn(&Note, &Note) -> bool>(
    c: Seq<Candidate>,
    indices: Seq<usize>,
    a: int,
    pattern: Seq<Tick>,
    song_length: Tick,
    f: F,
) -> bool {
    forall|k: int, v: int|
        0 <= k < indices.len() && 0 <= v < #[trigger] indices[k] && !(#[trigger] c[v]).is_matched ==> !cand_partner(
            c,
            v,
            a,
            pattern[k],
            song_length,
            f,
        )
}

proof fn lemma_ng_exact<F: Fn(&Note, &Note) -> bool>(
    before: Seq<Candidate>,
    c: Seq<Candidate>,
    anchors: Seq<int>,
    indices: Seq<usize>,
    i: int,
    pattern: Seq<Tick>,
    song_length: Tick,
    f: F,
)
    requires
        0 <= i < before.len(),
        !before[i].is_matched,
        ms_groups(before, anchors, i),
        ms_exact(before, anchors, pattern, song_length, f, i),
        marked(before, c, indices, anchors.len() as usize),
        anchors.len() <= usize::MAX,
        valid_partners(before, indices, i, pattern, song_length, f),
        first_partners(before, indices, i, pattern, song_length, f),
    ensures
        ms_exact(c, anchors.push(i), pattern, song_length, f, i + 1),
{
    reveal(ms_groups);
    reveal(ms_exact);
    let n = anchors.len() as int;
    let na = anchors.push(i);
    assert forall|v: int, h: int| 0 <= v < c.len() && 0 <= h <= n implies #[trigger] earlier(c, v, h) == earlier(before, v, h) by {
        if !before[v].is_matched && c[v].is_matched {
            assert(c[v].group == n);
        }
    }
    assert forall|v: int, a: int, p: Tick|
        0 <= v < c.len() && 0 <= a < c.len() implies #[trigger] cand_partner(c, v, a, p, song_length, f) == cand_partner(
        before,
        v,
        a,
        p,
        song_length,
        f,
    ) by {
        assert(c[v].pos == before[v].pos && c[v].note == before[v].note);
        assert(c[a].pos == before[a].pos && c[a].note == before[a].note);
    }
    assert forall|v: int| 0 <= v < c.len() implies #[trigger] earlier(before, v, n) == before[v].is_matched by {}
    assert forall|g: int| 0 <= g < na.len() implies !#[trigger] earlier(c, na[g], g) by {
        if g < n {
            assert(na[g] == anchors[g]);
            assert(!earlier(before, anchors[g], g));
        } else {
            assert(na[g] == i);
            assert(!earlier(before, i, g));
        }
    }
    assert forall|g: int, j: int, k: int, a: int|
        0 <= g <= n && 0 <= j < c.len() && 0 <= a < c.len() && 0 <= k < pattern.len() implies #[trigger] first_partner(
        c,
        j,
        g,
        a,
        pattern[k],
        song_length,
        f,
    ) == first_partner(before, j, g, a, pattern[k], song_length, f) by {
        assert(earlier(c, j, g) == earlier(before, j, g));
        assert(cand_partner(c, j, a, pattern[k], song_length, f) == cand_partner(before, j, a, pattern[k], song_length, f));
        if first_partner(before, j, g, a, pattern[k], song_length, f) {
            assert forall|v: int| 0 <= v < j && !earlier(c, v, g) implies !#[trigger] cand_partner(c, v, a, pattern[k], song_length, f) by {
                assert(earlier(c, v, g) == earlier(before, v, g));
                assert(cand_partner(c, v, a, pattern[k], song_length, f) == cand_partner(before, v, a, pattern[k], song_length, f));
            }
        }
        if first_partner(c, j, g, a, pattern[k], song_length, f) {
            assert forall|v: int| 0 <= v < j && !earlier(before, v, g) implies !#[trigger] cand_partner(before, v, a, pattern[k], song_length, f) by {
                assert(earlier(c, v, g) == earlier(before, v, g));
                assert(cand_partner(c, v, a, pattern[k], song_length, f) == cand_partner(before, v, a, pattern[k], song_length, f));
            }
        }
    }
    assert forall|g: int, j: int|
        0 <= g < na.len() && 0 <= j < c.len() implies (#[trigger] member(c, j, g) <==> exists|k: int|
        0 <= k < pattern.len() && #[trigger] first_partner(c, j, g, na[g], pattern[k], song_length, f)) by {
        if g < n {
            assert(na[g] == anchors[g]);
            assert(member(c, j, g) == member(before, j, g));
            if member(before, j, g) {
                let k = choose|k: int| 0 <= k < pattern.len() && #[trigger] first_partner(before, j, g, anchors[g], pattern[k], song_length, f);
                assert(first_partner(c, j, g, na[g], pattern[k], song_length, f));
            }
            if exists|k: int| 0 <= k < pattern.len() && #[trigger] first_partner(c, j, g, na[g], pattern[k], song_length, f) {
                let k = choose|k: int| 0 <= k < pattern.len() && #[trigger] first_partner(c, j, g, na[g], pattern[k], song_length, f);
                assert(first_partner(before, j, g, anchors[g], pattern[k], song_length, f));
            }
        } else {
            assert(na[g] == i);
            if member(c, j, g) {
                assert(!before[j].is_matched);
                let k = choose|k: int| 0 <= k < indices.len() && indices[k] == j;
                assert(first_partner(before, j, g, i, pattern[k], song_length, f));
                assert(first_partner(c, j, g, na[g], pattern[k], song_length, f));
            }
            if exists|k: int| 0 <= k < pattern.len() && #[trigger] first_partner(c, j, g, na[g], pattern[k], song_length, f) {
                let k = choose|k: int| 0 <= k < pattern.len() && #[trigger] first_partner(c, j, g, na[g], pattern[k], song_length, f);
                assert(first_partner(before, j, g, i, pattern[k], song_length, f));
                let jk = indices[k] as int;
                assert(!before[jk].is_matched && cand_partner(before, jk, i, pattern[k], song_length, f));
                if j < jk {
                    assert(!cand_partner(before, j, i, pattern[k], song_length, f));
                } else if jk < j {
                    assert(!earlier(before, jk, g));
                    assert(!cand_partner(before, jk, i, pattern[k], song_length, f));
                }
                assert(jk == j);
                assert(exists|k2: int| 0 <= k2 < indices.len() && indices[k2] == j);
                assert(member(c, j, g));
            }
        }
    }
    assert forall|u: int, g: int|
        0 <= u < i + 1 && 0 <= g <= na.len() && !na.contains(u) && (g == 0 || na[g - 1] < u) && (g == na.len() || u
            < na[g]) && !#[trigger] earlier(c, u, g) implies exists|k: int|
        0 <= k < pattern.len() && forall|v: int|
            0 <= v < c.len() && !#[trigger] earlier(c, v, g) ==> !cand_partner(c, v, u, #[trigger] pattern[k], song_length, f) by {
        if u == i {
            assert(na[n] == i);
        } else {
            assert(g <= n);
            assert(!anchors.contains(u)) by {
                if anchors.contains(u) {
                    let g3 = choose|g3: int| 0 <= g3 < anchors.len() && anchors[g3] == u;
                    assert(na[g3] == u);
                }
            }
            if g > 0 {
                assert(na[g - 1] == anchors[g - 1]);
            }
            if g < n {
                assert(na[g] == anchors[g]);
            }
            assert(!earlier(before, u, g));
            let k = choose|k: int|
                0 <= k < pattern.len() && forall|v: int|
                    0 <= v < before.len() && !#[trigger] earlier(before, v, g) ==> !cand_partner(before, v, u, #[trigger] pattern[k], song_length, f);
            assert forall|v: int| 0 <= v < c.len() && !#[trigger] earlier(c, v, g) implies !cand_partner(c, v, u, pattern[k], song_length, f) by {
                assert(!earlier(before, v, g));
                assert(cand_partner(c, v, u, pattern[k], song_length, f) == cand_partner(before, v, u, pattern[k], song_length, f));
            }
        }
    }
}

/// The first unmatched candidate at tick `target` that `f` accepts as a
/// partner of candidate `anchor`.
fn find_partner<F: Fn(&Note, &Note) -> bool>(
    cands: &Vec<Candidate>,
    target: Tick,
    anchor: usize,
    f: &F,
) -> (r: Option<usize>)
    requires
        usable(*f),
        anchor < cands@.len(),
    ensures
        r matches Some(j) ==> j < cands@.len() && !cands@[j as int].is_matched && cands@[j as int].pos.spec_tick() == target
            && accepts(*f, cands@[j as int].note, cands@[anchor as int].note) && forall|q: int|
            0 <= q < j && !(#[trigger] cands@[q]).is_matched && cands@[q].pos.spec_tick() == target ==> !accepts(
                *f,
                cands@[q].note,
                cands@[anchor as int].note,
            ),
        r is None ==> forall|j: int|
            0 <= j < cands@.len() && !(#[trigger] cands@[j]).is_matched && cands@[j].pos.spec_tick() == target
                ==> !accepts(*f, cands@[j].note, cands@[anchor as int].note),
{
    let mut j: usize = 0;
    while j < cands.len()
        invariant
            usable(*f),
            anchor < cands@.len(),
            j <= cands@.len(),
            forall|q: int|
                0 <= q < j && !(#[trigger] cands@[q]).is_matched && cands@[q].pos.spec_tick() == target
                    ==> !accepts(*f, cands@[q].note, cands@[anchor as int].note),
        decreases cands@.len() - j,
    {
        let c = &cands[j];
        if !c.is_matched && c.pos.tick() == target {
            let anchor_note = &cands[anchor].note;
            proof {
                assert(f.requires((&c.note, anchor_note)));
            }
            let ok = f(&c.note, anchor_note);
            if ok {
                return Some(j);
            }
        }
        j = j + 1;
    }
    None
}

/// The partners of candidate `anchor` for each pattern offset, if each
/// offset has one.
fn find_partners<F: Fn(&Note, &Note) -> bool>(
    cands: &Vec<Candidate>,
    pattern: &[Tick],
    song_length: Tick,
    anchor: usize,
    f: &F,
) -> (r: Option<Vec<usize>>)
    requires
        usable(*f),
        anchor < cands@.len(),
        song_length > 0,
        forall|k: int| 0 <= k < pattern@.len() ==> cands@[anchor as int].pos.spec_tick() + #[trigger] pattern@[k] <= u32::MAX,
    ensures
        r matches Some(js) ==> js@.len() == pattern@.len() && (forall|k: int|
            0 <= k < js@.len() ==> #[trigger] js@[k] < cands@.len() && !cands@[js@[k] as int].is_matched
                && cand_partner(cands@, js@[k] as int, anchor as int, pattern@[k], song_length, *f)) && first_partners(
            cands@,
            js@,
            anchor as int,
            pattern@,
            song_length,
            *f,
        ),
        r is None ==> exists|k: int|
            0 <= k < pattern@.len() && forall|v: int|
                0 <= v < cands@.len() && !(#[trigger] cands@[v]).is_matched ==> !cand_partner(
                    cands@,
                    v,
                    anchor as int,
                    #[trigger] pattern@[k],
                    song_length,
                    *f,
                ),
{
    let base = cands[anchor].pos.tick();
    let mut indices: Vec<usize> = Vec::new();
    let mut k: usize = 0;
    while k < pattern.len()
        invariant
            usable(*f),
            anchor < cands@.len(),
            song_length > 0,
            base == cands@[anchor as int].pos.spec_tick(),
            forall|q: int| 0 <= q < pattern@.len() ==> base + #[trigger] pattern@[q] <= u32::MAX,
            k <= pattern@.len(),
            indices@.len() == k,
            forall|q: int|
                0 <= q < k ==> #[trigger] indices@[q] < cands@.len() && !cands@[indices@[q] as int].is_matched
                    && cand_partner(cands@, indices@[q] as int, anchor as int, pattern@[q], song_length, *f),
            first_partners(cands@, indices@, anchor as int, pattern@, song_length, *f),
        decreases pattern@.len() - k,
    {
        let p = pattern[k];
        proof {
            assert(base + pattern@[k as int] <= u32::MAX);
        }
        let target = (base + p) % song_length;
        match find_partner(cands, target, anchor, f) {
            Some(j) => {
                let ghost before = indices@;
                indices.push(j);
                proof {
                    assert forall|q: int, v: int|
                        0 <= q < indices@.len() && 0 <= v < #[trigger] indices@[q] && !(#[trigger] cands@[v]).is_matched implies !cand_partner(
                        cands@,
                        v,
                        anchor as int,
                        pattern@[q],
                        song_length,
                        *f,
                    ) by {
                        if q < k {
                            assert(indices@[q] == before[q]);
                        }
                    }
                }
            },
            None => {
                proof {
                    assert forall|v: int|
                        0 <= v < cands@.len() && !(#[trigger] cands@[v]).is_matched implies !cand_partner(
                        cands@,
                        v,
                        anchor as int,
                        pattern@[k as int],
                        song_length,
                        *f,
                    ) by {}
                }
                return None;
            },
        }
        k = k + 1;
    }
    Some(indices)
}

/// Greedy matching: each candidate in order that is still unmatched tries
/// to claim a partner for every pattern offset; if all offsets find one,
/// the partners form a new group.
fn match_all<F: Fn(&Note, &Note) -> bool>(
    cands: &mut Vec<Candidate>,
    pattern: &[Tick],
    song_length: Tick,
    f: &F,
) -> (r: (usize, Ghost<Seq<int>>))
    requires
        usable(*f),
        pattern@.len() > 0 && old(cands)@.len() > 0 ==> song_length > 0,
        forall|j: int, k: int|
            0 <= j < old(cands)@.len() && 0 <= k < pattern@.len() ==> (#[trigger] old(cands)@[j]).pos.spec_tick()
                + #[trigger] pattern@[k] <= u32::MAX,
        forall|j: int| 0 <= j < old(cands)@.len() ==> !(#[trigger] old(cands)@[j]).is_matched,
    ensures
        final(cands)@.len() == old(cands)@.len(),
        forall|j: int|
            0 <= j < final(cands)@.len() ==> (#[trigger] final(cands)@[j]).pos == old(cands)@[j].pos && final(cands)@[j].note
                == old(cands)@[j].note,
        r.1@.len() == r.0,
        match_state(final(cands)@, r.1@, pattern@, song_length, *f, final(cands)@.len() as int),
{
    let ghost anchors: Seq<int> = Seq::empty();
    let ghost orig = cands@;
    proof {
        lemma_state_init(orig, pattern@, song_length, *f);
    }
    let mut group_cnt: usize = 0;
    let mut i: usize = 0;
    while i < cands.len()
        invariant
            usable(*f),
            pattern@.len() > 0 && orig.len() > 0 ==> song_length > 0,
            cands@.len() == orig.len(),
            forall|j: int|
                0 <= j < cands@.len() ==> (#[trigger] cands@[j]).pos == orig[j].pos && cands@[j].note == orig[j].note,
            forall|j: int, k: int|
                0 <= j < orig.len() && 0 <= k < pattern@.len() ==> (#[trigger] orig[j]).pos.spec_tick()
                    + #[trigger] pattern@[k] <= u32::MAX,
            i <= cands@.len(),
            anchors.len() == group_cnt,
            group_cnt <= i,
            match_state(cands@, anchors, pattern@, song_length, *f, i as int),
        decreases cands@.len() - i,
    {
        if cands[i].is_matched {
            proof {
                lemma_state_next(cands@, anchors, pattern@, song_length, *f, i as int);
            }
            i = i + 1;
            continue;
        }
        if pattern.len() > 0 {
            proof {
                assert(song_length > 0);
            }
        }
        proof {
            assert forall|k: int| 0 <= k < pattern@.len() implies cands@[i as int].pos.spec_tick() + #[trigger] pattern@[k] <= u32::MAX by {
                assert(orig[i as int].pos.spec_tick() + pattern@[k] <= u32::MAX);
            }
        }
        let found = if pattern.len() == 0 {
            Some(Vec::new())
        } else {
            find_partners(cands, pattern, song_length, i, f)
        };
        match found {
            Some(indices) => {
                let ghost before = cands@;
                let g = group_cnt;
                let mut q: usize = 0;
                while q < indices.len()
                    invariant
                        indices@.len() == pattern@.len(),
                        cands@.len() == before.len(),
                        forall|k: int|
                            0 <= k < indices@.len() ==> #[trigger] indices@[k] < before.len() && !before[indices@[k] as int].is_matched
                                && cand_partner(before, indices@[k] as int, i as int, pattern@[k], song_length, *f),
                        q <= indices@.len(),
                        forall|j: int| 0 <= j < cands@.len() ==> (#[trigger] cands@[j]).pos == before[j].pos && cands@[j].note == before[j].note,
                        forall|j: int|
                            0 <= j < cands@.len() ==> (#[trigger] cands@[j]).is_matched == (before[j].is_matched || exists|k: int|
                                0 <= k < q && indices@[k] == j),
                        forall|j: int|
                            0 <= j < cands@.len() ==> (#[trigger] cands@[j]).group == (if before[j].is_matched {
                                before[j].group
                            } else if exists|k: int| 0 <= k < q && indices@[k] == j {
                                g
                            } else {
                                before[j].group
                            }),
                    decreases indices@.len() - q,
                {
                    let j = indices[q];
                    let pos = cands[j].pos;
                    let note = cands[j].note;
                    let ghost old_c = cands@;
                    cands.set(j, Candidate { pos, note, is_matched: true, group: g });
                    proof {
                        assert forall|j2: int| 0 <= j2 < cands@.len() implies (#[trigger] cands@[j2]).is_matched == (before[j2].is_matched || exists|k: int|
                            0 <= k < q + 1 && indices@[k] == j2) by {
                            if j2 == j {
                                assert(indices@[q as int] == j2);
                            } else {
                                assert(cands@[j2] == old_c[j2]);
                                if exists|k: int| 0 <= k < q + 1 && indices@[k] == j2 {
                                    let k = choose|k: int| 0 <= k < q + 1 && indices@[k] == j2;
                                    assert(k < q);
                                }
                            }
                        }
                        assert forall|j2: int| 0 <= j2 < cands@.len() implies (#[trigger] cands@[j2]).group == (if before[j2].is_matched {
                            before[j2].group
                        } else if exists|k: int| 0 <= k < q + 1 && indices@[k] == j2 {
                            g
                        } else {
                            before[j2].group
                        }) by {
                            if j2 == j {
                                assert(indices@[q as int] == j2);
                                assert(!before[j2].is_matched);
                            } else {
                                assert(cands@[j2] == old_c[j2]);
                                if exists|k: int| 0 <= k < q + 1 && indices@[k] == j2 {
                                    let k = choose|k: int| 0 <= k < q + 1 && indices@[k] == j2;
                                    assert(k < q);
                                }
                            }
                        }
                    }
                    q = q + 1;
                }
                group_cnt = group_cnt + 1;
                proof {
                    assert(marked(before, cands@, indices@, g));
                    assert(valid_partners(before, indices@, i as int, pattern@, song_length, *f));
                    lemma_ng_groups(before, cands@, anchors, indices@, i as int);
                    lemma_ng_complete(before, cands@, anchors, indices@, i as int, pattern@, song_length, *f);
                    lemma_ng_sound(before, cands@, anchors, indices@, i as int, pattern@, song_length, *f);
                    lemma_ng_blocked(before, cands@, anchors, indices@, i as int, pattern@, song_length, *f);
                    lemma_ng_exact(before, cands@, anchors, indices@, i as int, pattern@, song_length, *f);
                    anchors = anchors.push(i as int);
                }
            },
            None => {
                proof {
                    lemma_state_next(cands@, anchors, pattern@, song_length, *f, i as int);
                }
            },
        }
        i = i + 1;
    }
    (group_cnt, Ghost(anchors))
}

// Collecting the outcome
//
// ++++++++++++============++++++++++++============++++++++++++============

/// Which candidates to collect.
enum Pick {
    Group(int),
    Free,
    Matched,
}

spec fn picks(k: Pick, x: Candidate) -> bool {
    match k {
        Pick::Group(g) => x.is_matched && x.group == g,
        Pick::Free => !x.is_matched,
        Pick::Matched => x.is_matched,
    }
}

/// The notes of the first `n` candidates that `k` selects.
spec fn picked(c: Seq<Candidate>, k: Pick, n: int) -> Map<Position, Note>
    decreases n,
{
    if n <= 0 {
        Map::empty()
    } else if picks(k, c[n - 1]) {
        picked(c, k, n - 1).insert(c[n - 1].pos, c[n - 1].note)
    } else {
        picked(c, k, n - 1)
    }
}

/// Candidate positions strictly increase.
spec fn distinct(c: Seq<Candidate>) -> bool {
    forall|a: int, b: int| 0 <= a < b < c.len() ==> (#[trigger] c[a]).pos.less((#[trigger] c[b]).pos)
}

/// `c` holds the notes `s`, in order.
spec fn cands_of(c: Seq<Candidate>, s: Seq<(Position, Note)>) -> bool {
    &&& c.len() == s.len()
    &&& forall|j: int| 0 <= j < c.len() ==> (#[trigger] c[j]).pos == s[j].0 && c[j].note == s[j].1
}

proof fn lemma_distinct(s: Seq<(Position, Note)>, c: Seq<Candidate>)
    requires
        sorted_positions(s),
        cands_of(c, s),
    ensures
        distinct(c),
{
    assert forall|a: int, b: int| 0 <= a < b < c.len() implies (#[trigger] c[a]).pos.less((#[trigger] c[b]).pos) by {
        assert(s[a].0.less(s[b].0));
    }
}

proof fn lemma_picked(c: Seq<Candidate>, k: Pick, n: int)
    requires
        distinct(c),
        0 <= n <= c.len(),
    ensures
        forall|p: Position|
            #[trigger] picked(c, k, n).contains_key(p) ==> exists|j: int|
                0 <= j < n && picks(k, c[j]) && (#[trigger] c[j]).pos == p,
        forall|j: int|
            0 <= j < n && picks(k, #[trigger] c[j]) ==> picked(c, k, n).contains_key(c[j].pos) && picked(c, k, n)[c[j].pos]
                == c[j].note,
    decreases n,
{
    if n > 0 {
        lemma_picked(c, k, n - 1);
        assert forall|j: int| 0 <= j < n && picks(k, #[trigger] c[j]) implies picked(c, k, n).contains_key(c[j].pos)
            && picked(c, k, n)[c[j].pos] == c[j].note by {
            if j < n - 1 {
                assert(c[j].pos.less(c[n - 1].pos));
            }
        }
        assert forall|p: Position| #[trigger] picked(c, k, n).contains_key(p) implies exists|j: int|
            0 <= j < n && picks(k, c[j]) && (#[trigger] c[j]).pos == p by {
            if p != c[n - 1].pos || !picks(k, c[n - 1]) {
                assert(picked(c, k, n - 1).contains_key(p));
            }
        }
    }
}

/// The position of each anchor.
spec fn anchor_positions(c: Seq<Candidate>, anchors: Seq<int>) -> Seq<Position> {
    Seq::new(anchors.len(), |g: int| c[anchors[g]].pos)
}

/// The notes of each group.
spec fn group_notes(c: Seq<Candidate>, count: int) -> Seq<Map<Position, Note>> {
    Seq::new(count as nat, |g: int| picked(c, Pick::Group(g), c.len() as int))
}

/// The greedy choices of the final state, over the notes.
#[verifier::rlimit(50)]
#[verifier::spinoff_prover]
proof fn lemma_result_exact<F: Fn(&Note, &Note) -> bool>(
    s: Seq<(Position, Note)>,
    c: Seq<Candidate>,
    anchors: Seq<int>,
    pattern: Seq<Tick>,
    song_length: Tick,
    f: F,
)
    requires
        sorted_positions(s),
        cands_of(c, s),
        ms_groups(c, anchors, c.len() as int),
        ms_exact(c, anchors, pattern, song_length, f, c.len() as int),
    ensures
        ({
            let m = map_of(s);
            let gs = group_notes(c, anchors.len() as int);
            let an = anchor_positions(c, anchors);
            &&& forall|g: int| 0 <= g < an.len() ==> !in_earlier(gs, g, #[trigger] an[g])
            &&& forall|g: int, q: Position|
                0 <= g < gs.len() ==> (#[trigger] gs[g].contains_key(q) <==> exists|k: int|
                    0 <= k < pattern.len() && #[trigger] first_fit(f, m, gs, g, q, an[g], pattern[k], song_length))
            &&& forall|u: Position, g: int|
                #[trigger] m.contains_key(u) && 0 <= g <= an.len() && !an.contains(u) && (g == 0 || an[g - 1].less(u)) && (g
                    == an.len() || u.less(an[g])) && !#[trigger] in_earlier(gs, g, u) ==> exists|k: int|
                    0 <= k < pattern.len() && forall|v: Position|
                        #[trigger] m.contains_key(v) && !in_earlier(gs, g, v) ==> !partner_of(
                            f,
                            m,
                            v,
                            u,
                            #[trigger] pattern[k],
                            song_length,
                        )
        }),
{
    reveal(ms_groups);
    reveal(ms_exact);
    let n = c.len() as int;
    let m = map_of(s);
    let gs = group_notes(c, anchors.len() as int);
    let an = anchor_positions(c, anchors);
    lemma_distinct(s, c);
    assert forall|j: int| 0 <= j < n implies m.contains_key((#[trigger] c[j]).pos) && m[c[j].pos] == c[j].note by {
        lemma_map_of_at(s, j);
    }
    assert forall|j: int, g: int| 0 <= j < n && 0 <= g <= anchors.len() implies #[trigger] in_earlier(gs, g, c[j].pos) == earlier(c, j, g) by {
        if earlier(c, j, g) {
            let h = c[j].group as int;
            lemma_picked(c, Pick::Group(h), n);
            assert(picks(Pick::Group(h), c[j]));
            assert(gs[h].contains_key(c[j].pos));
        }
        if in_earlier(gs, g, c[j].pos) {
            let h = choose|h: int| 0 <= h < g && #[trigger] gs[h].contains_key(c[j].pos);
            lemma_picked(c, Pick::Group(h), n);
            let j2 = choose|j2: int| 0 <= j2 < n && picks(Pick::Group(h), c[j2]) && (#[trigger] c[j2]).pos == c[j].pos;
            if j2 < j {
                assert(c[j2].pos.less(c[j].pos));
            } else if j < j2 {
                assert(c[j].pos.less(c[j2].pos));
            }
        }
    }
    assert forall|v: Position| #[trigger] m.contains_key(v) implies exists|j: int| 0 <= j < n && (#[trigger] c[j]).pos == v by {
        lemma_map_of_dom(s, v);
        let j = choose|j: int| 0 <= j < s.len() && (#[trigger] s[j]).0 == v;
        assert(c[j].pos == v);
    }
    assert forall|g: int| 0 <= g < an.len() implies !in_earlier(gs, g, #[trigger] an[g]) by {
        assert(an[g] == c[anchors[g]].pos);
        assert(!earlier(c, anchors[g], g));
    }
    assert forall|g: int, q: Position| 0 <= g < gs.len() implies (#[trigger] gs[g].contains_key(q) <==> exists|k: int|
        0 <= k < pattern.len() && #[trigger] first_fit(f, m, gs, g, q, an[g], pattern[k], song_length)) by {
        lemma_picked(c, Pick::Group(g), n);
        let a = anchors[g];
        assert(an[g] == c[a].pos);
        if gs[g].contains_key(q) {
            let j = choose|j: int| 0 <= j < n && picks(Pick::Group(g), c[j]) && (#[trigger] c[j]).pos == q;
            assert(member(c, j, g));
            let k = choose|k: int| 0 <= k < pattern.len() && #[trigger] first_partner(c, j, g, a, pattern[k], song_length, f);
            assert(in_earlier(gs, g, c[j].pos) == earlier(c, j, g));
            assert forall|v: Position| #[trigger] m.contains_key(v) && v.less(q) && !in_earlier(gs, g, v) implies !partner_of(
                f,
                m,
                v,
                an[g],
                pattern[k],
                song_length,
            ) by {
                let w = choose|w: int| 0 <= w < n && (#[trigger] c[w]).pos == v;
                if w > j {
                    assert(c[j].pos.less(c[w].pos));
                }
                assert(in_earlier(gs, g, c[w].pos) == earlier(c, w, g));
                assert(!cand_partner(c, w, a, pattern[k], song_length, f));
            }
            assert(first_fit(f, m, gs, g, q, an[g], pattern[k], song_length));
        }
        if exists|k: int| 0 <= k < pattern.len() && #[trigger] first_fit(f, m, gs, g, q, an[g], pattern[k], song_length) {
            let k = choose|k: int| 0 <= k < pattern.len() && #[trigger] first_fit(f, m, gs, g, q, an[g], pattern[k], song_length);
            let j = choose|j: int| 0 <= j < n && (#[trigger] c[j]).pos == q;
            assert(in_earlier(gs, g, c[j].pos) == earlier(c, j, g));
            assert forall|v: int| 0 <= v < j && !earlier(c, v, g) implies !#[trigger] cand_partner(c, v, a, pattern[k], song_length, f) by {
                assert(c[v].pos.less(c[j].pos));
                assert(m.contains_key(c[v].pos));
                assert(in_earlier(gs, g, c[v].pos) == earlier(c, v, g));
            }
            assert(first_partner(c, j, g, a, pattern[k], song_length, f));
            assert(member(c, j, g));
            assert(picks(Pick::Group(g), c[j]));
        }
    }
    assert forall|u: Position, g: int|
        #[trigger] m.contains_key(u) && 0 <= g <= an.len() && !an.contains(u) && (g == 0 || an[g - 1].less(u)) && (g == an.len()
            || u.less(an[g])) && !#[trigger] in_earlier(gs, g, u) implies exists|k: int|
        0 <= k < pattern.len() && forall|v: Position|
            #[trigger] m.contains_key(v) && !in_earlier(gs, g, v) ==> !partner_of(f, m, v, u, #[trigger] pattern[k], song_length) by {
        let ju = choose|ju: int| 0 <= ju < n && (#[trigger] c[ju]).pos == u;
        assert(!anchors.contains(ju)) by {
            if anchors.contains(ju) {
                let g3 = choose|g3: int| 0 <= g3 < anchors.len() && anchors[g3] == ju;
                assert(an[g3] == u);
            }
        }
        if g > 0 {
            assert(an[g - 1] == c[anchors[g - 1]].pos);
            if anchors[g - 1] > ju {
                assert(c[ju].pos.less(c[anchors[g - 1]].pos));
            }
        }
        if g < an.len() {
            assert(an[g] == c[anchors[g]].pos);
            if anchors[g] < ju {
                assert(c[anchors[g]].pos.less(c[ju].pos));
            }
        }
        assert(in_earlier(gs, g, c[ju].pos) == earlier(c, ju, g));
        let k = choose|k: int|
            0 <= k < pattern.len() && forall|v: int|
                0 <= v < c.len() && !#[trigger] earlier(c, v, g) ==> !cand_partner(c, v, ju, #[trigger] pattern[k], song_length, f);
        assert forall|v: Position| #[trigger] m.contains_key(v) && !in_earlier(gs, g, v) implies !partner_of(
            f,
            m,
            v,
            u,
            pattern[k],
            song_length,
        ) by {
            let w = choose|w: int| 0 <= w < n && (#[trigger] c[w]).pos == v;
            assert(in_earlier(gs, g, c[w].pos) == earlier(c, w, g));
            assert(!cand_partner(c, w, ju, pattern[k], song_length, f));
        }
    }
}

/// The final state of the greedy matching is a matching result of the notes.
#[verifier::rlimit(50)]
#[verifier::spinoff_prover]
proof fn lemma_result<F: Fn(&Note, &Note) -> bool>(
    s: Seq<(Position, Note)>,
    c: Seq<Candidate>,
    anchors: Seq<int>,
    pattern: Seq<Tick>,
    song_length: Tick,
    f: F,
)
    requires
        sorted_positions(s),
        cands_of(c, s),
        match_state(c, anchors, pattern, song_length, f, c.len() as int),
    ensures
        matching_result(
            map_of(s),
            group_notes(c, anchors.len() as int),
            picked(c, Pick::Free, c.len() as int),
            anchor_positions(c, anchors),
            pattern,
            song_length,
            f,
        ),
{
    reveal(ms_groups);
    reveal(ms_complete);
    reveal(ms_sound);
    reveal(ms_blocked);
    lemma_result_exact(s, c, anchors, pattern, song_length, f);
    let n = c.len() as int;
    let m = map_of(s);
    let gs = group_notes(c, anchors.len() as int);
    let un = picked(c, Pick::Free, n);
    let an = anchor_positions(c, anchors);
    lemma_distinct(s, c);
    lemma_picked(c, Pick::Free, n);
    assert forall|j: int| 0 <= j < n implies m.contains_key((#[trigger] c[j]).pos) && m[c[j].pos] == c[j].note by {
        lemma_map_of_at(s, j);
    }
    assert forall|p: Position| #[trigger] m.contains_key(p) <==> (un.contains_key(p) || exists|g: int|
        0 <= g < gs.len() && #[trigger] gs[g].contains_key(p)) by {
        lemma_map_of_dom(s, p);
        if m.contains_key(p) {
            let j = choose|j: int| 0 <= j < s.len() && (#[trigger] s[j]).0 == p;
            assert(c[j].pos == p);
            if c[j].is_matched {
                let g = c[j].group as int;
                lemma_picked(c, Pick::Group(g), n);
                assert(picks(Pick::Group(g), c[j]));
                assert(gs[g].contains_key(p));
            } else {
                assert(picks(Pick::Free, c[j]));
            }
        }
        if un.contains_key(p) {
            let j = choose|j: int| 0 <= j < n && picks(Pick::Free, c[j]) && (#[trigger] c[j]).pos == p;
            assert(m.contains_key(c[j].pos));
        }
        if exists|g: int| 0 <= g < gs.len() && #[trigger] gs[g].contains_key(p) {
            let g = choose|g: int| 0 <= g < gs.len() && #[trigger] gs[g].contains_key(p);
            lemma_picked(c, Pick::Group(g), n);
            let j = choose|j: int| 0 <= j < n && picks(Pick::Group(g), c[j]) && (#[trigger] c[j]).pos == p;
            assert(m.contains_key(c[j].pos));
        }
    }
    assert forall|p: Position| #[trigger] un.contains_key(p) implies un[p] == m[p] by {
        let j = choose|j: int| 0 <= j < n && picks(Pick::Free, c[j]) && (#[trigger] c[j]).pos == p;
        assert(m[c[j].pos] == c[j].note);
    }
    assert forall|g: int, p: Position| 0 <= g < gs.len() && #[trigger] gs[g].contains_key(p) implies gs[g][p] == m[p]
        && !un.contains_key(p) by {
        lemma_picked(c, Pick::Group(g), n);
        let j = choose|j: int| 0 <= j < n && picks(Pick::Group(g), c[j]) && (#[trigger] c[j]).pos == p;
        assert(m[c[j].pos] == c[j].note);
        if un.contains_key(p) {
            let j2 = choose|j2: int| 0 <= j2 < n && picks(Pick::Free, c[j2]) && (#[trigger] c[j2]).pos == p;
            if j < j2 {
                assert(c[j].pos.less(c[j2].pos));
            } else {
                assert(c[j2].pos.less(c[j].pos));
            }
        }
    }
    assert forall|g: int, h: int, p: Position| 0 <= g < h < gs.len() && #[trigger] gs[g].contains_key(p) implies !#[trigger] gs[h].contains_key(p) by {
        lemma_picked(c, Pick::Group(g), n);
        lemma_picked(c, Pick::Group(h), n);
        let j = choose|j: int| 0 <= j < n && picks(Pick::Group(g), c[j]) && (#[trigger] c[j]).pos == p;
        if gs[h].contains_key(p) {
            let j2 = choose|j2: int| 0 <= j2 < n && picks(Pick::Group(h), c[j2]) && (#[trigger] c[j2]).pos == p;
            if j < j2 {
                assert(c[j].pos.less(c[j2].pos));
            } else if j2 < j {
                assert(c[j2].pos.less(c[j].pos));
            }
        }
    }
    assert forall|g: int| 0 <= g < an.len() implies m.contains_key(#[trigger] an[g]) by {
        assert(an[g] == c[anchors[g]].pos);
    }
    assert forall|g: int, h: int| 0 <= g < h < an.len() implies (#[trigger] an[g]).less(#[trigger] an[h]) by {
        assert(anchors[g] < anchors[h]);
        assert(c[anchors[g]].pos.less(c[anchors[h]].pos));
    }
    assert forall|g: int, k: int| 0 <= g < gs.len() && 0 <= k < pattern.len() implies #[trigger] covers(
        f,
        m,
        gs[g],
        an[g],
        pattern[k],
        song_length,
    ) by {
        assert(has_partner(c, g, anchors[g], pattern[k], song_length, f));
        let j = choose|j: int|
            0 <= j < c.len() && member(c, j, g) && #[trigger] cand_partner(c, j, anchors[g], pattern[k], song_length, f);
        lemma_picked(c, Pick::Group(g), n);
        assert(picks(Pick::Group(g), c[j]));
        assert(gs[g].contains_key(c[j].pos));
        assert(m[an[g]] == c[anchors[g]].note);
        assert(partner_of(f, m, c[j].pos, an[g], pattern[k], song_length));
    }
    assert forall|g: int, q: Position| 0 <= g < gs.len() && #[trigger] gs[g].contains_key(q) implies exists|k: int|
        0 <= k < pattern.len() && partner_of(f, m, q, an[g], #[trigger] pattern[k], song_length) by {
        lemma_picked(c, Pick::Group(g), n);
        let j = choose|j: int| 0 <= j < n && picks(Pick::Group(g), c[j]) && (#[trigger] c[j]).pos == q;
        let k = choose|k: int|
            0 <= k < pattern.len() && cand_partner(c, j, anchors[c[j].group as int], #[trigger] pattern[k], song_length, f);
        assert(m[an[g]] == c[anchors[g]].note);
        assert(m[q] == c[j].note);
        assert(partner_of(f, m, q, an[g], pattern[k], song_length));
    }
    assert forall|u: Position| #[trigger] un.contains_key(u) && !an.contains(u) implies exists|k: int|
        0 <= k < pattern.len() && forall|v: Position|
            #[trigger] un.contains_key(v) ==> !partner_of(f, m, v, u, #[trigger] pattern[k], song_length) by {
        let ju = choose|ju: int| 0 <= ju < n && picks(Pick::Free, c[ju]) && (#[trigger] c[ju]).pos == u;
        assert(!anchors.contains(ju)) by {
            if anchors.contains(ju) {
                let g = choose|g: int| 0 <= g < anchors.len() && anchors[g] == ju;
                assert(an[g] == u);
            }
        }
        let k = choose|k: int|
            0 <= k < pattern.len() && forall|v: int|
                0 <= v < c.len() && !(#[trigger] c[v]).is_matched ==> !cand_partner(c, v, ju, #[trigger] pattern[k], song_length, f);
        assert forall|v: Position| #[trigger] un.contains_key(v) implies !partner_of(f, m, v, u, pattern[k], song_length) by {
            let jv = choose|jv: int| 0 <= jv < n && picks(Pick::Free, c[jv]) && (#[trigger] c[jv]).pos == v;
            assert(m[v] == c[jv].note);
            assert(m[u] == c[ju].note);
            assert(!cand_partner(c, jv, ju, pattern[k], song_length, f));
        }
    }
}

/// Runs the greedy matching over the notes in position order.
fn greedy_match<F: Fn(&Note, &Note) -> bool>(
    notes: Notes<Note>,
    pattern: &[Tick],
    song_length: Tick,
    f: &F,
) -> (r: (Vec<Candidate>, usize, Ghost<Seq<int>>))
    requires
        notes.wf(),
        usable(*f),
        pattern_fits(notes@, pattern@),
        pattern@.len() > 0 && notes.entries().len() > 0 ==> song_length > 0,
    ensures
        cands_of(r.0@, notes.entries()),
        r.2@.len() == r.1,
        match_state(r.0@, r.2@, pattern@, song_length, *f, r.0@.len() as int),
{
    let ghost s = notes.entries();
    let entries = notes.into_entries();
    let mut cands: Vec<Candidate> = Vec::new();
    let mut j: usize = 0;
    while j < entries.len()
        invariant
            entries@ == s,
            j <= s.len(),
            cands@.len() == j,
            forall|q: int|
                0 <= q < j ==> (#[trigger] cands@[q]).pos == s[q].0 && cands@[q].note == s[q].1 && !cands@[q].is_matched,
        decreases s.len() - j,
    {
        let e = &entries[j];
        cands.push(Candidate { pos: e.0, note: e.1, is_matched: false, group: 0 });
        j = j + 1;
    }
    proof {
        assert forall|q: int, k: int| 0 <= q < cands@.len() && 0 <= k < pattern@.len() implies (#[trigger] cands@[q]).pos.spec_tick()
            + #[trigger] pattern@[k] <= u32::MAX by {
            lemma_map_of_at(s, q);
            assert(notes@.contains_key(s[q].0));
        }
    }
    let (count, anchors) = match_all(&mut cands, pattern, song_length, f);
    (cands, count, anchors)
}

impl Notes<Note> {
    /// Separates the notes into matched and unmatched ones by greedy pattern
    /// matching: in position order, each note that is still unmatched tries
    /// to claim, for every pattern offset, an unmatched note at its tick plus
    /// the offset (wrapping around `song_length`) that `f` accepts; if every
    /// offset finds one, the claimed notes become matched.
    #[verifier::spinoff_prover]
    pub fn matches_by<F: Fn(&Note, &Note) -> bool>(self, pattern: &[Tick], song_length: Tick, f: F) -> (r: (
        Notes<Note>,
        Notes<Note>,
    ))
        requires
            self.wf(),
            usable(f),
            pattern_fits(self@, pattern@),
            pattern@.len() > 0 && self.entries().len() > 0 ==> song_length > 0,
        ensures
            r.0.wf(),
            r.1.wf(),
            exists|groups: Seq<Map<Position, Note>>, anchors: Seq<Position>|
                matching_result(self@, groups, r.1@, anchors, pattern@, song_length, f),
            forall|p: Position|
                #[trigger] r.0@.contains_key(p) <==> (self@.contains_key(p) && !r.1@.contains_key(p)),
            forall|p: Position| #[trigger] r.0@.contains_key(p) ==> r.0@[p] == self@[p],
    {
        let ghost s = self.entries();
        let (cands, count, anchors) = greedy_match(self, pattern, song_length, &f);
        let ghost c = cands@;
        proof {
            lemma_result(s, c, anchors@, pattern@, song_length, f);
        }
        let mut matched = Notes::new();
        let mut unmatched = Notes::new();
        let mut j: usize = 0;
        while j < cands.len()
            invariant
                cands@ == c,
                cands_of(c, s),
                sorted_positions(s),
                j <= c.len(),
                matched.wf(),
                unmatched.wf(),
                matched@ == picked(c, Pick::Matched, j as int),
                unmatched@ == picked(c, Pick::Free, j as int),
            decreases c.len() - j,
        {
            let cand = &cands[j];
            if cand.is_matched {
                matched.insert(cand.pos, cand.note);
            } else {
                unmatched.insert(cand.pos, cand.note);
            }
            j = j + 1;
        }
        proof {
            let n = c.len() as int;
            lemma_distinct(s, c);
            lemma_picked(c, Pick::Matched, n);
            lemma_picked(c, Pick::Free, n);
            assert forall|p: Position| #[trigger] matched@.contains_key(p) <==> (self@.contains_key(p) && !unmatched@.contains_key(p)) by {
                lemma_map_of_dom(s, p);
                if matched@.contains_key(p) {
                    let j1 = choose|j1: int| 0 <= j1 < n && picks(Pick::Matched, c[j1]) && (#[trigger] c[j1]).pos == p;
                    lemma_map_of_at(s, j1);
                    if unmatched@.contains_key(p) {
                        let j2 = choose|j2: int| 0 <= j2 < n && picks(Pick::Free, c[j2]) && (#[trigger] c[j2]).pos == p;
                        if j1 < j2 {
                            assert(c[j1].pos.less(c[j2].pos));
                        } else {
                            assert(c[j2].pos.less(c[j1].pos));
                        }
                    }
                }
                if self@.contains_key(p) && !unmatched@.contains_key(p) {
                    let j1 = choose|j1: int| 0 <= j1 < s.len() && (#[trigger] s[j1]).0 == p;
                    assert(c[j1].pos == p);
                    if !c[j1].is_matched {
                        assert(picks(Pick::Free, c[j1]));
                    } else {
                        assert(picks(Pick::Matched, c[j1]));
                    }
                }
            }
            assert forall|p: Position| #[trigger] matched@.contains_key(p) implies matched@[p] == self@[p] by {
                let j1 = choose|j1: int| 0 <= j1 < n && picks(Pick::Matched, c[j1]) && (#[trigger] c[j1]).pos == p;
                lemma_map_of_at(s, j1);
            }
            let gs = group_notes(c, anchors@.len() as int);
            let an = anchor_positions(c, anchors@);
            assert(unmatched@ == picked(c, Pick::Free, n));
            assert(matching_result(self@, gs, unmatched@, an, pattern@, song_length, f));
        }
        (matched, unmatched)
    }

    /// Like `matches_by`, but keeps the group boundaries: each group is all
    /// notes of one complete pattern match.
    #[verifier::spinoff_prover]
    pub fn group_match<F: Fn(&Note, &Note) -> bool>(self, pattern: &[Tick], song_length: Tick, f: F) -> (r: (
        MatchedGroups,
        Notes<Note>,
    ))
        requires
            self.wf(),
            usable(f),
            pattern_fits(self@, pattern@),
            pattern@.len() > 0 && self.entries().len() > 0 ==> song_length > 0,
        ensures
            r.1.wf(),
            exists|anchors: Seq<Position>| matching_result(self@, r.0.group_maps(), r.1@, anchors, pattern@, song_length, f),
            sum_lens(r.0.spec_groups()) + r.1.entries().len() == self.entries().len(),
    {
        let ghost s = self.entries();
        let (cands, count, anchors) = greedy_match(self, pattern, song_length, &f);
        let ghost c = cands@;
        proof {
            lemma_result(s, c, anchors@, pattern@, song_length, f);
            lemma_distinct(s, c);
            reveal(ms_groups);
        }
        let mut groups: Vec<Notes<Note>> = Vec::new();
        let mut g: usize = 0;
        while g < count
            invariant
                g <= count,
                groups@.len() == g,
                forall|h: int| 0 <= h < g ==> (#[trigger] groups@[h]).wf() && groups@[h]@ == picked(c, Pick::Group(h), 0),
                sum_lens(groups@) == 0,
            decreases count - g,
        {
            let ghost before = groups@;
            groups.push(Notes::new());
            proof {
                lemma_sum_lens_push(before, groups@[g as int]);
                assert(groups@ == before.push(groups@[g as int]));
            }
            g = g + 1;
        }
        let mut unmatched = Notes::new();
        let mut j: usize = 0;
        while j < cands.len()
            invariant
                cands@ == c,
                cands_of(c, s),
                sorted_positions(s),
                distinct(c),
                forall|q: int| 0 <= q < c.len() && (#[trigger] c[q]).is_matched ==> c[q].group < count,
                j <= c.len(),
                groups@.len() == count,
                forall|h: int| 0 <= h < count ==> (#[trigger] groups@[h]).wf() && groups@[h]@ == picked(c, Pick::Group(h), j as int),
                unmatched.wf(),
                unmatched@ == picked(c, Pick::Free, j as int),
                sum_lens(groups@) + unmatched.entries().len() == j,
            decreases c.len() - j,
        {
            let cand = &cands[j];
            proof {
                lemma_picked(c, Pick::Free, j as int);
            }
            if cand.is_matched {
                let gi = cand.group;
                let ghost before = groups@;
                proof {
                    lemma_picked(c, Pick::Group(gi as int), j as int);
                    if picked(c, Pick::Group(gi as int), j as int).contains_key(c[j as int].pos) {
                        let q = choose|q: int| 0 <= q < j && picks(Pick::Group(gi as int), c[q]) && (#[trigger] c[q]).pos == c[j as int].pos;
                        assert(c[q].pos.less(c[j as int].pos));
                    }
                }
                let mut grp = groups.remove(gi);
                grp.insert(cand.pos, cand.note);
                groups.insert(gi, grp);
                proof {
                    assert(groups@ =~= before.update(gi as int, groups@[gi as int]));
                    lemma_sum_lens_update(before, gi as int, groups@[gi as int]);
                    assert forall|h: int| 0 <= h < count implies (#[trigger] groups@[h]).wf() && groups@[h]@ == picked(c, Pick::Group(h), j + 1) by {
                        if h != gi {
                            assert(groups@[h] == before[h]);
                        }
                    }
                }
            } else {
                proof {
                    if unmatched@.contains_key(c[j as int].pos) {
                        let q = choose|q: int| 0 <= q < j && picks(Pick::Free, c[q]) && (#[trigger] c[q]).pos == c[j as int].pos;
                        assert(c[q].pos.less(c[j as int].pos));
                    }
                }
                unmatched.insert(cand.pos, cand.note);
            }
            j = j + 1;
        }
        proof {
            assert(sum_lens(groups@) <= usize::MAX);
        }
        let result = MatchedGroups { groups };
        proof {
            assert(result.group_maps() =~= group_notes(c, anchors@.len() as int));
            assert(matching_result(
                self@,
                result.group_maps(),
                unmatched@,
                anchor_positions(c, anchors@),
                pattern@,
                song_length,
                f,
            ));
        }
        let ghost gm = result.group_maps();
        let ghost um = unmatched@;
        let r = (result, unmatched);
        proof {
            assert(r.0.group_maps() == gm);
            assert(r.1@ == um);
            assert(exists|a: Seq<Position>| matching_result(self@, r.0.group_maps(), r.1@, a, pattern@, song_length, f));
            assert(c.len() == s.len());
        }
        r
    }
}

// Results
//
// ++++++++++++============++++++++++++============++++++++++++============

/// The total number of notes of the groups.
pub open spec fn sum_lens(gs: Seq<Notes<Note>>) -> int
    decreases gs.len(),
{
    if gs.len() == 0 {
        0
    } else {
        sum_lens(gs.drop_last()) + gs.last().entries().len()
    }
}

pub proof fn lemma_sum_lens_update(gs: Seq<Notes<Note>>, g: int, n: Notes<Note>)
    requires
        0 <= g < gs.len(),
    ensures
        sum_lens(gs.update(g, n)) == sum_lens(gs) - gs[g].entries().len() + n.entries().len(),
    decreases gs.len(),
{
    let t = gs.update(g, n);
    if g == gs.len() - 1 {
        assert(t.drop_last() =~= gs.drop_last());
    } else {
        assert(t.drop_last() =~= gs.drop_last().update(g, n));
        lemma_sum_lens_update(gs.drop_last(), g, n);
    }
}

pub proof fn lemma_sum_lens_push(gs: Seq<Notes<Note>>, n: Notes<Note>)
    ensures
        sum_lens(gs.push(n)) == sum_lens(gs) + n.entries().len(),
{
    assert(gs.push(n).drop_last() =~= gs);
}

/// Pattern match result with group boundaries preserved: each group is all
/// the notes of one complete pattern match.
#[derive(Debug)]
pub struct MatchedGroups {
    groups: Vec<Notes<Note>>,
}

impl MatchedGroups {
    /// The groups.
    pub closed spec fn spec_groups(self) -> Seq<Notes<Note>> {
        self.groups@
    }

    /// The groups as maps.
    pub open spec fn group_maps(self) -> Seq<Map<Position, Note>> {
        self.spec_groups().map_values(|n: Notes<Note>| n@)
    }

    #[verifier::type_invariant]
    spec fn counted(self) -> bool {
        &&& forall|g: int| 0 <= g < self.groups@.len() ==> (#[trigger] self.groups@[g]).wf()
        &&& sum_lens(self.groups@) <= usize::MAX
    }

    /// No group.
    pub fn empty() -> (r: Self)
        ensures
            r.spec_groups().len() == 0,
    {
        MatchedGroups { groups: Vec::new() }
    }

    /// All matched groups; each group is all notes from one pattern match.
    pub fn groups(&self) -> (r: &[Notes<Note>])
        ensures
            r@ == self.spec_groups(),
    {
        self.groups.as_slice()
    }

    /// Total number of matched notes.
    pub fn matched_len(&self) -> (r: usize)
        ensures
            r == sum_lens(self.spec_groups()),
    {
        proof {
            use_type_invariant(self);
        }
        let mut total: usize = 0;
        let mut g: usize = 0;
        while g < self.groups.len()
            invariant
                g <= self.groups@.len(),
                sum_lens(self.groups@) <= usize::MAX,
                total == sum_lens(self.groups@.take(g as int)),
            decreases self.groups@.len() - g,
        {
            proof {
                assert(self.groups@.take(g + 1).drop_last() =~= self.groups@.take(g as int));
                lemma_sum_lens_prefix(self.groups@, g + 1);
            }
            total = total + self.groups[g].len();
            g = g + 1;
        }
        proof {
            assert(self.groups@.take(g as int) =~= self.groups@);
        }
        total
    }

    /// Template notes: the first note of each group, one note per group for
    /// projection; bases at different layers on the same tick are each
    /// preserved.
    pub fn templates(&self) -> (r: Notes<Note>)
        ensures
            r.wf(),
            r@ == map_of(firsts(self.spec_groups())),
    {
        let mut pairs: Vec<(Position, Note)> = Vec::new();
        let mut g: usize = 0;
        while g < self.groups.len()
            invariant
                g <= self.groups@.len(),
                pairs@ == firsts(self.groups@.take(g as int)),
            decreases self.groups@.len() - g,
        {
            proof {
                assert(self.groups@.take(g + 1).drop_last() =~= self.groups@.take(g as int));
            }
            let group = &self.groups[g];
            if group.len() > 0 {
                let (p, n) = group.entry_at(0);
                pairs.push((p, *n));
            }
            g = g + 1;
        }
        proof {
            assert(self.groups@.take(g as int) =~= self.groups@);
        }
        Notes::from_entries(pairs)
    }
}

pub proof fn lemma_sum_lens_prefix(gs: Seq<Notes<Note>>, k: int)
    requires
        0 <= k <= gs.len(),
    ensures
        sum_lens(gs.take(k)) <= sum_lens(gs),
    decreases gs.len() - k,
{
    if k < gs.len() {
        assert(gs.take(k + 1).drop_last() =~= gs.take(k));
        lemma_sum_lens_prefix(gs, k + 1);
    } else {
        assert(gs.take(k) =~= gs);
    }
}

/// The first note of each non-empty group, in group order.
pub open spec fn firsts(gs: Seq<Notes<Note>>) -> Seq<(Position, Note)>
    decreases gs.len(),
{
    if gs.len() == 0 {
        Seq::empty()
    } else if gs.last().entries().len() > 0 {
        firsts(gs.drop_last()).push(gs.last().entries()[0])
    } else {
        firsts(gs.drop_last())
    }
}

} // verus!
