//! The prefix-shift order on the rearrangements of a sequence.
//!
//! Every rearrangement has a successor, obtained by moving one element to the
//! front.  Following successors from any rearrangement leads to the
//! non-increasing one, which is where a generator starts and why it stops.

use vstd::prelude::*;
use vstd::relations::{sorted_by, total_ordering};
use vstd::seq_lib::{
    lemma_sorted_unique, to_multiset_contains, to_multiset_insert, to_multiset_remove,
};

verus! {

/// No element is followed, anywhere later, by a larger one.
pub open spec fn non_increasing(s: Seq<usize>) -> bool {
    forall|i: int, j: int| 0 <= i <= j < s.len() ==> s[i] >= s[j]
}

/// `s` with the element at `p` moved to the front; the elements before `p`
/// move one place to the right.
pub open spec fn prefix_shift(s: Seq<usize>, p: int) -> Seq<usize> {
    Seq::new(
        s.len(),
        |i: int|
            if i == 0 {
                s[p]
            } else if i <= p {
                s[i - 1]
            } else {
                s[i]
            },
    )
}

/// The first position at or after `from` that is followed by a larger element,
/// or the second-last position when there is none before it.
pub open spec fn first_ascent(s: Seq<usize>, from: int) -> int
    decreases s.len() - from,
{
    if from + 2 >= s.len() || s[from] < s[from + 1] {
        from
    } else {
        first_ascent(s, from + 1)
    }
}

/// The shift cursor that belongs to `s`: the end of its longest non-increasing
/// prefix, capped at the second-last position.
pub open spec fn cursor(s: Seq<usize>) -> int {
    first_ascent(s, 0)
}

/// What identifies the cursor of `s` among all positions.
pub open spec fn is_cursor(s: Seq<usize>, c: int) -> bool {
    &&& 0 <= c
    &&& s.len() < 2 ==> c == 0
    &&& s.len() >= 2 ==> c + 2 <= s.len()
    &&& forall|i: int| 0 <= i < c ==> s[i] >= #[trigger] s[i + 1]
    &&& (c + 2 >= s.len() || s[c] < s[c + 1])
}

/// The position whose element the next shift moves to the front.
pub open spec fn shift_position(s: Seq<usize>, c: int) -> int {
    if c + 2 < s.len() && s[c + 2] <= s[c] {
        c + 2
    } else {
        c + 1
    }
}

/// No shift leads to a new rearrangement from `s` with cursor `c`.
pub open spec fn exhausted_at(s: Seq<usize>, c: int) -> bool {
    c + 2 >= s.len() && (s.len() <= c + 1 || s[0] <= s[c + 1])
}

/// `s` is the last rearrangement of the order.
pub open spec fn exhausted(s: Seq<usize>) -> bool {
    exhausted_at(s, cursor(s))
}

/// The rearrangement that follows `s`.  After the last one the order wraps
/// around to the non-increasing rearrangement.
pub open spec fn successor(s: Seq<usize>) -> Seq<usize> {
    if s.len() < 2 {
        s
    } else {
        prefix_shift(s, shift_position(s, cursor(s)))
    }
}

/// The rearrangement reached from `s` by `steps` successor steps.
pub open spec fn advance(s: Seq<usize>, steps: nat) -> Seq<usize>
    decreases steps,
{
    if steps == 0 {
        s
    } else {
        advance(successor(s), (steps - 1) as nat)
    }
}

/// The first ascent at or after `from` lies at or after it, with no ascent
/// between them.
proof fn lemma_first_ascent(s: Seq<usize>, from: int)
    requires
        0 <= from,
        from + 2 <= s.len() || (from == 0 && s.len() < 2),
    ensures
        from <= first_ascent(s, from),
        s.len() >= 2 ==> first_ascent(s, from) + 2 <= s.len(),
        s.len() < 2 ==> first_ascent(s, from) == 0,
        forall|i: int| from <= i < first_ascent(s, from) ==> s[i] >= #[trigger] s[i + 1],
        first_ascent(s, from) + 2 >= s.len() || s[first_ascent(s, from)] < s[first_ascent(
            s,
            from,
        ) + 1],
    decreases s.len() - from,
{
    if from + 2 >= s.len() || s[from] < s[from + 1] {
    } else {
        lemma_first_ascent(s, from + 1);
    }
}

/// A position at or after `from` with no ascent before it, and an ascent or
/// the end of the sequence behind it, is the first ascent.
proof fn lemma_first_ascent_unique(s: Seq<usize>, from: int, c: int)
    requires
        0 <= from <= c,
        c + 2 <= s.len(),
        forall|i: int| from <= i < c ==> s[i] >= #[trigger] s[i + 1],
        c + 2 >= s.len() || s[c] < s[c + 1],
    ensures
        first_ascent(s, from) == c,
    decreases c - from,
{
    if from < c {
        assert(s[from] >= s[from + 1]);
        lemma_first_ascent_unique(s, from + 1, c);
    }
}

/// The cursor of `s` has the identifying property.
pub proof fn lemma_cursor_is(s: Seq<usize>)
    ensures
        is_cursor(s, cursor(s)),
{
    lemma_first_ascent(s, 0);
}

/// Only the cursor of `s` has the identifying property.
pub proof fn lemma_cursor_unique(s: Seq<usize>, c: int)
    requires
        is_cursor(s, c),
    ensures
        c == cursor(s),
{
    if s.len() >= 2 {
        lemma_first_ascent_unique(s, 0, c);
    }
}

/// A prefix whose neighbours never rise is non-increasing throughout.
pub proof fn lemma_falling_neighbours(s: Seq<usize>, end: int)
    requires
        0 <= end <= s.len(),
        forall|i: int| 0 <= i && i + 1 < end ==> s[i] >= #[trigger] s[i + 1],
    ensures
        non_increasing(s.take(end)),
    decreases end,
{
    if end >= 2 {
        lemma_falling_neighbours(s, end - 1);
        let t = s.take(end);
        let r = s.take(end - 1);
        assert forall|i: int, j: int| 0 <= i <= j < t.len() implies t[i] >= t[j] by {
            if j < end - 1 {
                assert(r[i] >= r[j]);
            } else if i < end - 1 {
                assert(r[i] >= r[end - 2]);
                assert(s[end - 2] >= s[end - 2 + 1]);
            }
        }
    }
}

/// Appending `x` to `u` makes the next shift move `x` itself to the front,
/// instead of the element that the next shift of `u` alone would move.
pub open spec fn escapes(u: Seq<usize>, x: usize) -> bool {
    &&& u.len() >= 1
    &&& non_increasing(u.drop_last())
    &&& if u.len() >= 2 && u.last() > u[u.len() - 2] {
        x <= u[u.len() - 2]
    } else {
        x != u.last()
    }
}

/// Where the appended element does not escape, the successor of `u` followed by
/// `x` is the successor of `u`, followed by `x`.
pub proof fn lemma_successor_keeps_suffix(u: Seq<usize>, x: usize)
    requires
        u.len() >= 1,
        !escapes(u, x),
    ensures
        successor(u.push(x)) == successor(u).push(x),
{
    let s = u.push(x);
    let m = u.len() as int;
    let w = u.drop_last();
    lemma_cursor_is(u);
    if m == 1 {
        lemma_cursor_unique(s, 0);
        assert(successor(s) =~= successor(u).push(x));
    } else if non_increasing(w) {
        assert forall|i: int| 0 <= i < m - 2 implies u[i] >= #[trigger] u[i + 1] by {
            assert(w[i] >= w[i + 1]);
        }
        lemma_cursor_unique(u, m - 2);
        if u.last() > u[m - 2] {
            assert(is_cursor(s, m - 2)) by {
                assert forall|i: int| 0 <= i < m - 2 implies s[i] >= #[trigger] s[i + 1] by {
                    assert(u[i] >= u[i + 1]);
                }
            }
            lemma_cursor_unique(s, m - 2);
            assert(successor(s) =~= successor(u).push(x));
        } else {
            assert(is_cursor(s, m - 1)) by {
                assert forall|i: int| 0 <= i < m - 1 implies s[i] >= #[trigger] s[i + 1] by {
                    if i < m - 2 {
                        assert(u[i] >= u[i + 1]);
                    }
                }
            }
            lemma_cursor_unique(s, m - 1);
            assert(successor(s) =~= successor(u).push(x));
        }
    } else {
        let c = cursor(u);
        if c == m - 2 {
            lemma_falling_neighbours(u, m - 1);
            assert(u.take(m - 1) =~= w);
        }
        assert(is_cursor(s, c)) by {
            assert forall|i: int| 0 <= i < c implies s[i] >= #[trigger] s[i + 1] by {
                assert(u[i] >= u[i + 1]);
            }
        }
        lemma_cursor_unique(s, c);
        assert(successor(s) =~= successor(u).push(x));
    }
}

/// Where the appended element escapes, it is the one that moves to the front.
pub proof fn lemma_successor_escapes(u: Seq<usize>, x: usize)
    requires
        escapes(u, x),
    ensures
        successor(u.push(x)) == seq![x] + u,
{
    let s = u.push(x);
    let m = u.len() as int;
    let w = u.drop_last();
    if m == 1 {
        lemma_cursor_unique(s, 0);
        assert(successor(s) =~= seq![x] + u);
    } else {
        assert forall|i: int| 0 <= i < m - 2 implies s[i] >= #[trigger] s[i + 1] by {
            assert(w[i] >= w[i + 1]);
        }
        if u.last() > u[m - 2] {
            assert(is_cursor(s, m - 2));
            lemma_cursor_unique(s, m - 2);
            assert(successor(s) =~= seq![x] + u);
        } else {
            assert(is_cursor(s, m - 1)) by {
                assert forall|i: int| 0 <= i < m - 1 implies s[i] >= #[trigger] s[i + 1] by {
                    if i < m - 2 {
                        assert(s[i] >= s[i + 1]);
                    }
                }
            }
            lemma_cursor_unique(s, m - 1);
            assert(successor(s) =~= seq![x] + u);
        }
    }
}

/// A prefix shift rearranges: it keeps every element as often as it was there.
pub proof fn lemma_prefix_shift_rearranges(s: Seq<usize>, p: int)
    requires
        0 <= p < s.len(),
    ensures
        prefix_shift(s, p).len() == s.len(),
        prefix_shift(s, p).to_multiset() == s.to_multiset(),
{
    let r = s.remove(p);
    assert(prefix_shift(s, p) =~= r.insert(0, s[p]));
    to_multiset_remove(s, p);
    to_multiset_insert(r, 0, s[p]);
    to_multiset_contains(s, s[p]);
    assert(s.contains(s[p]));
    assert(s.to_multiset().remove(s[p]).insert(s[p]) =~= s.to_multiset());
}

/// The position that the next shift moves lies inside a sequence of two or more.
pub proof fn lemma_shift_position_in_range(s: Seq<usize>)
    requires
        s.len() >= 2,
    ensures
        1 <= shift_position(s, cursor(s)) < s.len(),
{
    lemma_cursor_is(s);
}

/// The successor is a rearrangement.
pub proof fn lemma_successor_rearranges(s: Seq<usize>)
    ensures
        successor(s).len() == s.len(),
        successor(s).to_multiset() == s.to_multiset(),
{
    if s.len() >= 2 {
        lemma_shift_position_in_range(s);
        lemma_prefix_shift_rearranges(s, shift_position(s, cursor(s)));
    }
}

/// Every rearrangement reached by successor steps is a rearrangement.
pub proof fn lemma_advance_rearranges(s: Seq<usize>, steps: nat)
    ensures
        advance(s, steps).len() == s.len(),
        advance(s, steps).to_multiset() == s.to_multiset(),
    decreases steps,
{
    if steps > 0 {
        lemma_successor_rearranges(s);
        lemma_advance_rearranges(successor(s), (steps - 1) as nat);
    }
}

/// Steps add up.
pub proof fn lemma_advance_add(s: Seq<usize>, a: nat, b: nat)
    ensures
        advance(s, a + b) == advance(advance(s, a), b),
    decreases a,
{
    if a > 0 {
        lemma_advance_add(successor(s), (a - 1) as nat, b);
    }
}

/// One more step at the end is the successor of where the others lead.
pub proof fn lemma_advance_last(s: Seq<usize>, steps: nat)
    ensures
        advance(s, steps + 1) == successor(advance(s, steps)),
{
    lemma_advance_add(s, steps, 1);
    assert(advance(advance(s, steps), 1) == advance(successor(advance(s, steps)), 0)) by {
        reveal_with_fuel(advance, 2);
    }
}

/// Two non-increasing rearrangements of one another are equal.
pub proof fn lemma_non_increasing_unique(a: Seq<usize>, b: Seq<usize>)
    requires
        non_increasing(a),
        non_increasing(b),
        a.to_multiset() == b.to_multiset(),
    ensures
        a == b,
{
    let geq = |x: usize, y: usize| x >= y;
    assert(total_ordering(geq));
    assert(sorted_by(a, geq));
    assert(sorted_by(b, geq));
    lemma_sorted_unique(a, b, geq);
}

/// After exactly `steps` successor steps, and not before, `s` has become
/// non-increasing.
pub open spec fn settles_in(s: Seq<usize>, steps: nat) -> bool {
    &&& non_increasing(advance(s, steps))
    &&& forall|i: nat| i < steps ==> !non_increasing(#[trigger] advance(s, i))
}

/// A sequence that is non-increasing after some steps settles at the first
/// number of steps after which it is.
proof fn lemma_first_settling(s: Seq<usize>, steps: nat) -> (least: nat)
    requires
        non_increasing(advance(s, steps)),
    ensures
        least <= steps,
        settles_in(s, least),
    decreases steps,
{
    if exists|i: nat| i < steps && non_increasing(#[trigger] advance(s, i)) {
        let i = choose|i: nat| i < steps && non_increasing(#[trigger] advance(s, i));
        lemma_first_settling(s, i)
    } else {
        steps
    }
}

/// A sequence that settles after one step or more is not non-increasing, and
/// its successor settles one step sooner.
proof fn lemma_settling_moves(u: Seq<usize>, steps: nat)
    requires
        steps > 0,
        settles_in(u, steps),
    ensures
        settles_in(successor(u), (steps - 1) as nat),
        !non_increasing(u),
{
    assert(advance(u, 0) == u);
    assert forall|i: nat| i < steps - 1 implies !non_increasing(
        #[trigger] advance(successor(u), i),
    ) by {
        assert(advance(u, i + 1) == advance(successor(u), i));
    }
}

/// While a suffix element larger than some element before it stays in place,
/// the elements before it run through their own order until they are
/// non-increasing; the next shift then moves the suffix element to the front.
proof fn lemma_block(u: Seq<usize>, x: usize, steps: nat)
    requires
        u.len() >= 1,
        exists|k: int| 0 <= k < u.len() && u[k] < x,
        settles_in(u, steps),
    ensures
        advance(u.push(x), steps + 1) == seq![x] + advance(u, steps),
    decreases steps,
{
    let m = u.len() as int;
    let k = choose|k: int| 0 <= k < u.len() && u[k] < x;
    reveal_with_fuel(advance, 2);
    if steps == 0 {
        assert(u.last() <= u[k]);
        assert(non_increasing(u.drop_last())) by {
            let w = u.drop_last();
            assert forall|i: int, j: int| 0 <= i <= j < w.len() implies w[i] >= w[j] by {
                assert(u[i] >= u[j]);
            }
        }
        if m >= 2 {
            assert(u[m - 2] >= u[m - 1]);
        }
        lemma_successor_escapes(u, x);
    } else {
        lemma_settling_moves(u, steps);
        assert(m >= 2) by {
            if m < 2 {
                assert(non_increasing(u));
            }
        }
        if non_increasing(u.drop_last()) {
            let w = u.drop_last();
            if u.last() <= u[m - 2] {
                assert forall|i: int, j: int| 0 <= i <= j < u.len() implies u[i] >= u[j] by {
                    if j < m - 1 {
                        assert(w[i] >= w[j]);
                    } else if i < m - 1 {
                        assert(w[i] >= w[m - 2]);
                    }
                }
                assert(false);
            }
            if k < m - 1 {
                assert(w[k] >= w[m - 2]);
            }
        }
        assert(!escapes(u, x));
        lemma_successor_keeps_suffix(u, x);
        let v = successor(u);
        lemma_shift_position_in_range(u);
        let p = shift_position(u, cursor(u));
        let k2 = if k == p {
            0
        } else if k < p {
            k + 1
        } else {
            k
        };
        assert(v[k2] == u[k]);
        lemma_block(v, x, (steps - 1) as nat);
        assert(advance(u, steps) == advance(v, (steps - 1) as nat));
    }
}

/// Below a smallest element at the end, the elements before it run through
/// their own order; each time that order would move its last element, the
/// rearrangements that end in that element come first.
proof fn lemma_least_suffix(u: Seq<usize>, x: usize, steps: nat) -> (total: nat)
    requires
        u.len() >= 1,
        forall|k: int| 0 <= k < u.len() ==> x <= u[k],
        settles_in(u, steps),
    ensures
        non_increasing(advance(u.push(x), total)),
    decreases u.len() + 1, 1nat, steps,
{
    let s = u.push(x);
    let m = u.len() as int;
    if steps == 0 {
        assert(advance(u, 0) == u);
        assert forall|i: int, j: int| 0 <= i <= j < s.len() implies s[i] >= s[j] by {
            if j < m {
                assert(u[i] >= u[j]);
            }
        }
        assert(advance(s, 0) == s);
        0
    } else {
        lemma_settling_moves(u, steps);
        lemma_successor_rearranges(u);
        let v = successor(u);
        if u.len() >= 2 {
            lemma_shift_position_in_range(u);
        }
        assert forall|k: int| 0 <= k < v.len() implies x <= v[k] by {
            if u.len() >= 2 {
                let p = shift_position(u, cursor(u));
                let k0 = if k == 0 {
                    p
                } else if k <= p {
                    k - 1
                } else {
                    k
                };
                assert(v[k] == u[k0]);
            }
        }
        let reached: nat;
        if !escapes(u, x) {
            lemma_successor_keeps_suffix(u, x);
            reached = 1;
            assert(advance(s, 1) == v.push(x)) by {
                reveal_with_fuel(advance, 2);
            }
        } else {
            let w = u.drop_last();
            let z = u.last();
            assert(m >= 2 && z > u[m - 2]) by {
                if m < 2 || z <= u[m - 2] {
                    assert forall|i: int, j: int| 0 <= i <= j < u.len() implies u[i] >= u[j] by {
                        if j < m - 1 {
                            assert(w[i] >= w[j]);
                        } else if i < m - 1 {
                            assert(w[i] >= w[m - 2]);
                        }
                    }
                    assert(false);
                }
            }
            lemma_successor_escapes(u, x);
            let u1 = seq![x] + w;
            assert(seq![x] + u =~= u1.push(z));
            let j1 = lemma_settles(u1);
            assert(u1[0] < z) by {
                assert(x <= u[m - 2]);
            }
            lemma_block(u1, z, j1);
            let t1 = advance(u1, j1);
            lemma_advance_rearranges(u1, j1);
            let wx = w.push(x);
            assert(non_increasing(wx)) by {
                assert forall|i: int, j: int| 0 <= i <= j < wx.len() implies wx[i] >= wx[j] by {
                    if j < m - 1 {
                        assert(w[i] >= w[j]);
                    } else if i < m - 1 {
                        assert(x <= u[i]);
                    }
                }
            }
            assert(u1.to_multiset() == wx.to_multiset()) by {
                assert(u1 =~= w.insert(0, x));
                to_multiset_insert(w, 0, x);
                w.to_multiset_ensures();
            }
            lemma_non_increasing_unique(t1, wx);
            assert(v =~= seq![z] + w) by {
                assert forall|i: int| 0 <= i < m - 2 implies u[i] >= #[trigger] u[i + 1] by {
                    assert(w[i] >= w[i + 1]);
                }
                lemma_cursor_unique(u, m - 2);
            }
            assert(seq![z] + wx =~= v.push(x));
            reached = j1 + 2;
            assert(advance(s, reached) == v.push(x)) by {
                assert(advance(s, 1) == successor(s)) by {
                    reveal_with_fuel(advance, 2);
                }
                lemma_advance_add(s, 1, j1 + 1);
            }
        }
        let rest = lemma_least_suffix(v, x, (steps - 1) as nat);
        lemma_advance_add(s, reached, rest);
        reached + rest
    }
}

/// Successor steps lead from every sequence to its non-increasing
/// rearrangement.  Gives the number of steps at which that first happens.
pub proof fn lemma_settles(s: Seq<usize>) -> (steps: nat)
    ensures
        settles_in(s, steps),
    decreases s.len(), 2nat, 0nat,
{
    let n = s.len() as int;
    if n < 2 {
        assert(advance(s, 0) == s);
        0
    } else {
        let u = s.drop_last();
        let x = s.last();
        assert(s =~= u.push(x));
        let ju = lemma_settles(u);
        if forall|k: int| 0 <= k < u.len() ==> x <= u[k] {
            let total = lemma_least_suffix(u, x, ju);
            lemma_first_settling(s, total)
        } else {
            lemma_block(u, x, ju);
            let k = choose|k: int| 0 <= k < u.len() && u[k] < x;
            let t = advance(u, ju);
            lemma_advance_rearranges(u, ju);
            let y = seq![x] + t;
            let u2 = y.drop_last();
            let x2 = t.last();
            assert(y =~= u2.push(x2));
            assert(x2 <= u[k]) by {
                to_multiset_contains(u, u[k]);
                to_multiset_contains(t, u[k]);
                assert(u.contains(u[k]));
                let i = choose|i: int| 0 <= i < t.len() && t[i] == u[k];
                assert(t[i] >= t[t.len() - 1]);
            }
            assert forall|i: int| 0 <= i < u2.len() implies x2 <= u2[i] by {
                if i > 0 {
                    assert(t[i - 1] >= t[t.len() - 1]);
                }
            }
            let j2 = lemma_settles(u2);
            let total2 = lemma_least_suffix(u2, x2, j2);
            lemma_advance_add(s, ju + 1, total2);
            lemma_first_settling(s, ju + 1 + total2)
        }
    }
}

/// The number of successor steps after which `s` first is non-increasing.
pub closed spec fn settling_time(s: Seq<usize>) -> nat {
    choose|steps: nat| settles_in(s, steps)
}

/// The settling time is the number of steps that it is named after.
pub proof fn lemma_settling_time(s: Seq<usize>)
    ensures
        settles_in(s, settling_time(s)),
{
    let steps = lemma_settles(s);
}

/// A sequence settles at one number of steps only.
pub proof fn lemma_settles_once(s: Seq<usize>, a: nat, b: nat)
    requires
        settles_in(s, a),
        settles_in(s, b),
    ensures
        a == b,
{
}

/// How many rearrangements follow `s` before the order is exhausted.
pub open spec fn remaining_after(s: Seq<usize>) -> nat {
    settling_time(successor(s))
}

/// The order is exhausted at `s` exactly when the successor of `s` is the
/// non-increasing rearrangement, that is when nothing remains after `s`.
pub proof fn lemma_exhausted_iff(s: Seq<usize>)
    ensures
        exhausted(s) <==> non_increasing(successor(s)),
        exhausted(s) <==> remaining_after(s) == 0,
{
    let n = s.len() as int;
    let r = successor(s);
    lemma_settling_time(r);
    assert(advance(r, 0) == r);
    lemma_cursor_is(s);
    let c = cursor(s);
    if n >= 2 {
        if c + 2 >= n {
            if s[0] <= s[c + 1] {
                assert forall|i: int| 0 <= i && i + 1 < n implies r[i] >= #[trigger] r[i + 1] by {
                    if i >= 1 {
                        assert(s[i - 1] >= s[i - 1 + 1]);
                    }
                }
                lemma_falling_neighbours(r, n);
                assert(r.take(n) =~= r);
            } else {
                assert(r[0] < r[1]);
            }
        } else {
            assert(r[c + 1] < r[c + 2]);
        }
    }
}

/// A step that does not exhaust the order leaves one rearrangement less.
pub proof fn lemma_remaining_step(s: Seq<usize>)
    requires
        !exhausted(s),
    ensures
        remaining_after(successor(s)) + 1 == remaining_after(s),
{
    let r = successor(s);
    lemma_exhausted_iff(s);
    lemma_settling_time(r);
    lemma_settling_time(successor(r));
    let t = settling_time(r);
    assert(t > 0) by {
        assert(advance(r, 0) == r);
    }
    lemma_settling_moves(r, t);
    lemma_settles_once(successor(r), (t - 1) as nat, settling_time(successor(r)));
}

/// `e` is where the longest non-increasing prefix of `t` ends.
pub open spec fn run_ends_at(t: Seq<usize>, e: int) -> bool {
    &&& 0 <= e < t.len()
    &&& forall|i: int| 0 <= i < e ==> t[i] >= #[trigger] t[i + 1]
    &&& (e == t.len() - 1 || t[e] < t[e + 1])
}

/// The longest non-increasing prefix ends at one position only.
proof fn lemma_run_end_unique(t: Seq<usize>, e1: int, e2: int)
    requires
        run_ends_at(t, e1),
        run_ends_at(t, e2),
    ensures
        e1 == e2,
{
    if e1 < e2 {
        assert(t[e1] >= t[e1 + 1]);
    } else if e2 < e1 {
        assert(t[e2] >= t[e2 + 1]);
    }
}

/// What a successor shows of the shift that made it: behind the element at
/// the front, the longest non-increasing prefix ends at the cursor of the
/// sequence before; and the shift came from two places behind the cursor
/// exactly when there was such a place and the element at the front is not
/// larger than the one at the cursor.
proof fn lemma_shift_shape(s: Seq<usize>)
    requires
        s.len() >= 2,
    ensures
        run_ends_at(successor(s).skip(1), cursor(s)),
        shift_position(s, cursor(s)) == cursor(s) + 2 <==> (cursor(s) + 2 < s.len() && successor(
            s,
        )[0] <= successor(s).skip(1)[cursor(s)]),
{
    lemma_cursor_is(s);
    let c = cursor(s);
    let r = successor(s);
    let t = r.skip(1);
    assert forall|i: int| 0 <= i < c implies t[i] >= #[trigger] t[i + 1] by {
        assert(s[i] >= s[i + 1]);
    }
}

/// Different sequences have different successors.
pub proof fn lemma_successor_injective(a: Seq<usize>, b: Seq<usize>)
    requires
        successor(a) == successor(b),
    ensures
        a == b,
{
    lemma_successor_rearranges(a);
    lemma_successor_rearranges(b);
    if a.len() >= 2 {
        let r = successor(a);
        lemma_shift_shape(a);
        lemma_shift_shape(b);
        lemma_run_end_unique(r.skip(1), cursor(a), cursor(b));
        lemma_shift_position_in_range(a);
        let p = shift_position(a, cursor(a));
        assert(p == shift_position(b, cursor(b)));
        assert forall|i: int| 0 <= i < a.len() implies a[i] == b[i] by {
            if i < p {
                assert(r[i + 1] == a[i]);
                assert(r[i + 1] == b[i]);
            } else if i == p {
                assert(r[0] == a[i]);
                assert(r[0] == b[i]);
            } else {
                assert(r[i] == a[i]);
                assert(r[i] == b[i]);
            }
        }
        assert(a =~= b);
    }
}

/// On the way to settling, each step takes one off the settling time.
pub proof fn lemma_settling_time_on_the_way(s: Seq<usize>, steps: nat)
    requires
        steps <= settling_time(s),
    ensures
        settling_time(advance(s, steps)) + steps == settling_time(s),
    decreases steps,
{
    lemma_settling_time(s);
    if steps > 0 {
        lemma_settling_moves(s, settling_time(s));
        lemma_settling_time(successor(s));
        lemma_settles_once(
            successor(s),
            settling_time(successor(s)),
            (settling_time(s) - 1) as nat,
        );
        lemma_settling_time_on_the_way(successor(s), (steps - 1) as nat);
    }
}

/// The number of rearrangements in the order that begins at the
/// non-increasing sequence `first`.
pub open spec fn order_len(first: Seq<usize>) -> nat {
    remaining_after(first) + 1
}

/// The place of `s` in the order of its rearrangements: the non-increasing
/// one has place 0.
pub open spec fn place_of(s: Seq<usize>, first: Seq<usize>) -> nat {
    if non_increasing(s) {
        0
    } else {
        (order_len(first) - settling_time(s)) as nat
    }
}

/// After the last rearrangement of the order, its first one follows.
pub proof fn lemma_order_comes_round(first: Seq<usize>)
    requires
        non_increasing(first),
    ensures
        advance(first, order_len(first)) == first,
{
    let r = successor(first);
    lemma_settling_time(r);
    lemma_advance_rearranges(r, settling_time(r));
    lemma_successor_rearranges(first);
    lemma_non_increasing_unique(advance(r, settling_time(r)), first);
    assert(advance(first, order_len(first)) == advance(r, settling_time(r)));
}

/// The rearrangement at each place of the order has that place.
pub proof fn lemma_place_of_advance(first: Seq<usize>, place: nat)
    requires
        non_increasing(first),
        place < order_len(first),
    ensures
        place_of(advance(first, place), first) == place,
{
    if place == 0 {
        assert(advance(first, 0) == first);
    } else {
        let r = successor(first);
        lemma_settling_time_on_the_way(r, (place - 1) as nat);
        assert(advance(first, place) == advance(r, (place - 1) as nat));
        lemma_settling_time(advance(first, place));
        assert(advance(advance(first, place), 0) == advance(first, place));
    }
}

/// No rearrangement comes twice in the order.
pub proof fn lemma_order_has_no_repeats(first: Seq<usize>, i: nat, j: nat)
    requires
        non_increasing(first),
        i < j < order_len(first),
    ensures
        advance(first, i) != advance(first, j),
{
    lemma_place_of_advance(first, i);
    lemma_place_of_advance(first, j);
}

/// Every rearrangement of `first` stands in the order, at its place.
pub proof fn lemma_order_holds_all(first: Seq<usize>, s: Seq<usize>)
    requires
        non_increasing(first),
        s.to_multiset() == first.to_multiset(),
    ensures
        place_of(s, first) < order_len(first),
        advance(first, place_of(s, first)) == s,
    decreases settling_time(s),
{
    lemma_settling_time(s);
    assert(advance(s, 0) == s);
    if non_increasing(s) {
        lemma_non_increasing_unique(s, first);
        assert(advance(first, 0) == first);
    } else {
        let next = successor(s);
        lemma_successor_rearranges(s);
        lemma_settling_time_on_the_way(s, 1);
        assert(advance(s, 1) == next) by {
            reveal_with_fuel(advance, 2);
        }
        lemma_order_holds_all(first, next);
        let m = place_of(next, first);
        let before: nat = if m == 0 {
            (order_len(first) - 1) as nat
        } else {
            (m - 1) as nat
        };
        lemma_advance_last(first, before);
        if m == 0 {
            lemma_order_comes_round(first);
            lemma_settling_time(next);
            assert(advance(next, 0) == next);
            assert(non_increasing(next));
        }
        assert(successor(advance(first, before)) == next);
        lemma_successor_injective(advance(first, before), s);
        lemma_place_of_advance(first, before);
    }
}

/// Moves the element at `p` to the front of `v`.
pub fn rotate_to_front(v: &mut Vec<usize>, p: usize)
    requires
        p < old(v).len(),
    ensures
        final(v)@ == prefix_shift(old(v)@, p as int),
{
    let moved = v[p];
    let mut i: usize = p;
    while i > 0
        invariant
            i <= p < v.len(),
            v.len() == old(v).len(),
            moved == old(v)[p as int],
            forall|j: int| 0 <= j <= i ==> v[j] == old(v)[j],
            forall|j: int| i < j <= p ==> v[j] == old(v)[j - 1],
            forall|j: int| p < j < v.len() ==> v[j] == old(v)[j],
        decreases i,
    {
        let before = v[i - 1];
        v.set(i, before);
        i -= 1;
    }
    v.set(0, moved);
    assert(v@ =~= prefix_shift(old(v)@, p as int));
}

/// One step of the order on `buffer`, whose cursor is `index`.  At the last
/// rearrangement nothing changes and the result is `None`; otherwise `buffer`
/// becomes its successor, and the result holds the position that moved to the
/// front and the cursor of the successor.
pub fn shift_next(buffer: &mut Vec<usize>, index: usize) -> (moved: Option<(usize, usize)>)
    requires
        index == cursor(old(buffer)@),
    ensures
        moved is None <==> exhausted(old(buffer)@),
        moved is None ==> final(buffer)@ == old(buffer)@,
        moved matches Some((from, next_index)) ==> {
            &&& from == shift_position(old(buffer)@, cursor(old(buffer)@))
            &&& 1 <= from < old(buffer).len()
            &&& final(buffer)@ == successor(old(buffer)@)
            &&& next_index == cursor(final(buffer)@)
        },
{
    proof {
        lemma_cursor_is(buffer@);
    }
    let n: usize = buffer.len();
    let has_two_next = index + 2 < n;
    if !has_two_next && (n <= index + 1 || buffer[0] <= buffer[index + 1]) {
        return None;
    }
    let shift_index: usize = if has_two_next && buffer[index + 2] <= buffer[index] {
        index + 2
    } else {
        index + 1
    };
    rotate_to_front(buffer, shift_index);
    let next_index: usize = if buffer[0] < buffer[1] {
        0
    } else {
        index + 1
    };
    proof {
        let s = old(buffer)@;
        let r = buffer@;
        assert(is_cursor(r, next_index as int)) by {
            if next_index != 0 {
                assert forall|i: int| 0 <= i < next_index implies r[i] >= #[trigger] r[i + 1] by {
                    if i >= 1 {
                        assert(s[i - 1] >= s[i - 1 + 1]);
                    }
                }
            }
        }
        lemma_cursor_unique(r, next_index as int);
    }
    Some((shift_index, next_index))
}

} // verus!
