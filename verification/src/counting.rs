//! How many rearrangements a sequence has, and so how many arrangements the
//! order of prefix shifts holds.

use crate::shift_order::{
    advance, lemma_advance_rearranges, lemma_order_has_no_repeats, lemma_order_holds_all,
    non_increasing, order_len, place_of,
};
use vstd::prelude::*;
use vstd::relations::injective_on;
use vstd::seq_lib::{to_multiset_build, to_multiset_contains, to_multiset_remove};
use vstd::set_lib::{lemma_int_range, lemma_map_size, lemma_set_disjoint_lens, set_int_range};

verus! {

/// The product of the numbers from 1 to `n`.
pub open spec fn factorial(n: nat) -> nat
    decreases n,
{
    if n == 0 {
        1
    } else {
        n * factorial((n - 1) as nat)
    }
}

/// How often `v` stands in `s`.
pub open spec fn occurrences(s: Seq<usize>, v: usize) -> nat {
    s.to_multiset().count(v)
}

/// The product, over the values of `s`, of the factorial of how often each
/// stands in `s`: each element brings in the number of its like up to it.
pub open spec fn repeats(s: Seq<usize>) -> nat
    decreases s.len(),
{
    if s.len() == 0 {
        1
    } else {
        repeats(s.drop_last()) * occurrences(s, s.last())
    }
}

/// The rearrangements of `t`.
pub open spec fn rearrangements(t: Seq<usize>) -> Set<Seq<usize>> {
    Set::new(|s: Seq<usize>| s.to_multiset() == t.to_multiset())
}

/// The rearrangements of `t` that end in `v`.
pub open spec fn ending_in(t: Seq<usize>, v: usize) -> Set<Seq<usize>> {
    Set::new(|s: Seq<usize>| s.to_multiset() == t.to_multiset() && s.len() > 0 && s.last() == v)
}

/// `v` is one of the first `j` elements of `t`.
pub open spec fn among_first(t: Seq<usize>, j: int, v: usize) -> bool {
    exists|i: int| 0 <= i < j && #[trigger] t[i] == v
}

/// The rearrangements of `t` that end in one of the first `j` elements of
/// `t`.
pub open spec fn ending_in_first(t: Seq<usize>, j: int) -> Set<Seq<usize>> {
    Set::new(
        |s: Seq<usize>|
            s.to_multiset() == t.to_multiset() && s.len() > 0 && among_first(t, j, s.last()),
    )
}

/// Where the elements like the one before `q` stop, in a sequence that is
/// non-increasing.
pub open spec fn run_stop(t: Seq<usize>, q: int) -> int
    decreases t.len() - q,
{
    if q >= t.len() || q <= 0 || t[q] != t[q - 1] {
        q
    } else {
        run_stop(t, q + 1)
    }
}

/// How many elements of `t` are like one of its first `j`.
pub open spec fn reach(t: Seq<usize>, j: int) -> int {
    if j <= 0 {
        0
    } else {
        run_stop(t, j)
    }
}

/// Up to where they stop, the elements are like the one before `q`; the
/// element there, if there is one, is not.
proof fn lemma_run_stop(t: Seq<usize>, q: int)
    requires
        1 <= q <= t.len(),
    ensures
        q <= run_stop(t, q) <= t.len(),
        forall|p: int| q - 1 <= p < run_stop(t, q) ==> #[trigger] t[p] == t[q - 1],
        run_stop(t, q) == t.len() || t[run_stop(t, q)] != t[q - 1],
    decreases t.len() - q,
{
    if !(q >= t.len() || t[q] != t[q - 1]) {
        lemma_run_stop(t, q + 1);
    }
}

/// One more element at the end counts for its own value.
proof fn lemma_occurrences_push(u: Seq<usize>, y: usize, v: usize)
    ensures
        occurrences(u.push(y), v) == occurrences(u, v) + (if y == v {
            1nat
        } else {
            0nat
        }),
{
    broadcast use vstd::multiset::group_multiset_axioms;

    to_multiset_build(u, y);
}

/// An element taken out no longer counts for its own value.
proof fn lemma_occurrences_remove(s: Seq<usize>, q: int, v: usize)
    requires
        0 <= q < s.len(),
    ensures
        occurrences(s.remove(q), v) + (if s[q] == v {
            1nat
        } else {
            0nat
        }) == occurrences(s, v),
{
    broadcast use vstd::multiset::group_multiset_axioms;

    to_multiset_remove(s, q);
    to_multiset_contains(s, s[q]);
    assert(s.contains(s[q]));
}

/// Taking out the last of its like takes the number of them out of the
/// product.
pub proof fn lemma_repeats_remove(s: Seq<usize>, q: int)
    requires
        0 <= q < s.len(),
        forall|p: int| q < p < s.len() ==> s[p] != s[q],
    ensures
        repeats(s) == repeats(s.remove(q)) * occurrences(s, s[q]),
    decreases s.len(),
{
    let n = s.len() as int;
    let u = s.drop_last();
    if q == n - 1 {
        assert(s.remove(q) =~= u);
    } else {
        let y = s.last();
        let less = s.remove(q);
        lemma_repeats_remove(u, q);
        assert(less.drop_last() =~= u.remove(q));
        assert(less.last() == y);
        lemma_occurrences_remove(s, q, y);
        assert(u.push(y) =~= s);
        lemma_occurrences_push(u, y, s[q]);
        let a = repeats(u.remove(q));
        let b = occurrences(s, s[q]);
        let c = occurrences(s, y);
        assert(repeats(s) == repeats(u) * c);
        assert(repeats(u) == a * b);
        assert(repeats(less) == a * c);
        assert((a * b) * c == (a * c) * b) by (nonlinear_arith);
    }
}

/// A value that stands at the positions of a block and nowhere else stands
/// there as often as the block is long.
proof fn lemma_block_occurrences(t: Seq<usize>, from: int, to: int, v: usize)
    requires
        0 <= from <= to <= t.len(),
        forall|p: int| 0 <= p < t.len() ==> (t[p] == v <==> from <= p < to),
    ensures
        occurrences(t, v) == to - from,
    decreases t.len(),
{
    broadcast use vstd::multiset::group_multiset_axioms;

    if t.len() == 0 {
        assert(t.to_multiset() =~= vstd::multiset::Multiset::empty()) by {
            t.to_multiset_ensures();
        }
    } else {
        let u = t.drop_last();
        let y = t.last();
        assert(u.push(y) =~= t);
        lemma_occurrences_push(u, y, v);
        if y == v {
            assert(to == t.len());
            if from == to {
                assert(false);
            }
            lemma_block_occurrences(u, from, to - 1, v);
        } else {
            if to == t.len() && from < to {
                assert(t[to - 1] == v);
            }
            let (start, end) = if from == to {
                (0int, 0int)
            } else {
                (from, to)
            };
            assert forall|p: int| 0 <= p < u.len() implies (u[p] == v <==> start <= p < end) by {
                assert(u[p] == t[p]);
            }
            lemma_block_occurrences(u, start, end, v);
        }
    }
}

/// Rearrangements of one another have the same product.
pub proof fn lemma_repeats_of_rearrangement(s: Seq<usize>, t: Seq<usize>)
    requires
        s.to_multiset() == t.to_multiset(),
    ensures
        repeats(s) == repeats(t),
    decreases s.len(),
{
    s.to_multiset_ensures();
    t.to_multiset_ensures();
    if s.len() > 0 {
        let y = s.last();
        let q = last_position(t, y, t.len() as int);
        to_multiset_contains(s, y);
        to_multiset_contains(t, y);
        assert(s.contains(y)) by {
            assert(s[s.len() - 1] == y);
        }
        lemma_last_position(t, y, t.len() as int);
        lemma_repeats_remove(t, q);
        to_multiset_remove(t, q);
        to_multiset_remove(s, s.len() - 1);
        assert(s.remove(s.len() - 1) =~= s.drop_last());
        lemma_repeats_of_rearrangement(s.drop_last(), t.remove(q));
    }
}

/// The last position before `end` at which `v` stands in `t`, or -1.
pub open spec fn last_position(t: Seq<usize>, v: usize, end: int) -> int
    decreases end,
{
    if end <= 0 {
        -1
    } else if t[end - 1] == v {
        end - 1
    } else {
        last_position(t, v, end - 1)
    }
}

/// The last position of a value that stands before `end` is before `end`,
/// holds the value, and no later position before `end` does.
pub proof fn lemma_last_position(t: Seq<usize>, v: usize, end: int)
    requires
        0 <= end <= t.len(),
        exists|i: int| 0 <= i < end && t[i] == v,
    ensures
        0 <= last_position(t, v, end) < end,
        t[last_position(t, v, end)] == v,
        forall|p: int| last_position(t, v, end) < p < end ==> t[p] != v,
    decreases end,
{
    if t[end - 1] != v {
        let i = choose|i: int| 0 <= i < end && t[i] == v;
        assert(0 <= i < end - 1 && t[i] == v);
        lemma_last_position(t, v, end - 1);
    }
}

/// Where each value stands once, the product is 1.
pub proof fn lemma_no_repeats(s: Seq<usize>)
    requires
        s.no_duplicates(),
    ensures
        repeats(s) == 1,
    decreases s.len(),
{
    if s.len() > 0 {
        let u = s.drop_last();
        lemma_no_repeats(u);
        let n = s.len() as int;
        assert forall|p: int| 0 <= p < s.len() implies (s[p] == s.last() <==> n - 1 <= p < n) by {
            if p < n - 1 {
                assert(s[p] != s[n - 1]);
            }
        }
        lemma_block_occurrences(s, n - 1, n, s.last());
    }
}

/// The rearrangements that end in `t[i]` are as many as the rearrangements of
/// `t` without `t[i]`.
proof fn lemma_ending_in(t: Seq<usize>, i: int)
    requires
        0 <= i < t.len(),
        rearrangements(t.remove(i)).finite(),
    ensures
        ending_in(t, t[i]).finite(),
        ending_in(t, t[i]).len() == rearrangements(t.remove(i)).len(),
{
    broadcast use vstd::multiset::group_multiset_axioms;

    let v = t[i];
    let less = t.remove(i);
    let from = rearrangements(less);
    let onto = ending_in(t, v);
    let with_last = |s: Seq<usize>| s.push(v);
    to_multiset_remove(t, i);
    to_multiset_contains(t, v);
    assert(t.contains(v));
    assert forall|a: Seq<usize>, b: Seq<usize>|
        from.contains(a) && from.contains(b) && #[trigger] with_last(a) == #[trigger] with_last(
            b,
        ) implies a == b by {
        assert(a.push(v).drop_last() =~= a);
        assert(b.push(v).drop_last() =~= b);
    }
    assert(injective_on(with_last, from));
    assert forall|s: Seq<usize>| from.map(with_last).contains(s) <==> onto.contains(s) by {
        if from.map(with_last).contains(s) {
            let a = choose|a: Seq<usize>| from.contains(a) && s == with_last(a);
            to_multiset_build(a, v);
            assert(s.to_multiset() =~= t.to_multiset());
            assert(s.last() == v);
        }
        if onto.contains(s) {
            let a = s.drop_last();
            to_multiset_remove(s, s.len() - 1);
            assert(s.remove(s.len() - 1) =~= a);
            assert(a.push(v) =~= s);
            assert(a.to_multiset() =~= less.to_multiset());
            assert(from.contains(a) && s == with_last(a));
        }
    }
    assert(from.map(with_last) =~= onto);
    lemma_map_size(from, onto, with_last);
}

/// The rearrangements of a non-increasing `t` that end in one of its first
/// `j` elements, times the product for `t`, are as many as those elements
/// have their like in `t`, times the factorial of one less than the length.
proof fn lemma_count_up_to(t: Seq<usize>, j: int)
    requires
        non_increasing(t),
        t.len() >= 1,
        0 <= j <= t.len(),
    ensures
        ending_in_first(t, j).finite(),
        ending_in_first(t, j).len() * repeats(t) == reach(t, j) * factorial((t.len() - 1) as nat),
    decreases t.len(), 0nat, j,
{
    let n = t.len() as int;
    let rest = factorial((n - 1) as nat);
    if j == 0 {
        assert(ending_in_first(t, 0) =~= Set::<Seq<usize>>::empty());
        assert(0 * repeats(t) == 0 * rest) by (nonlinear_arith);
    } else {
        let i = j - 1;
        let before = ending_in_first(t, i);
        let now = ending_in_first(t, j);
        lemma_count_up_to(t, i);
        if i >= 1 && t[i] == t[i - 1] {
            assert forall|s: Seq<usize>| before.contains(s) <==> now.contains(s) by {
                if now.contains(s) {
                    let at = choose|at: int| 0 <= at < j && #[trigger] t[at] == s.last();
                    if at == i {
                        assert(t[i - 1] == s.last());
                    }
                    assert(among_first(t, i, s.last()));
                }
                if before.contains(s) {
                    let at = choose|at: int| 0 <= at < i && #[trigger] t[at] == s.last();
                    assert(among_first(t, j, s.last()));
                }
            }
            assert(before =~= now);
            assert(reach(t, i) == reach(t, j));
        } else {
            let v = t[i];
            let less = t.remove(i);
            let block = ending_in(t, v);
            assert(non_increasing(less)) by {
                assert forall|a: int, b: int| 0 <= a <= b < less.len() implies less[a]
                    >= less[b] by {
                    let fa = if a < i {
                        a
                    } else {
                        a + 1
                    };
                    let fb = if b < i {
                        b
                    } else {
                        b + 1
                    };
                    assert(t[fa] >= t[fb]);
                }
            }
            lemma_count_rearrangements(less);
            lemma_ending_in(t, i);
            assert forall|s: Seq<usize>| now.contains(s) <==> (before + block).contains(s) by {
                if now.contains(s) {
                    let at = choose|at: int| 0 <= at < j && #[trigger] t[at] == s.last();
                    if at < i {
                        assert(among_first(t, i, s.last()));
                    }
                }
                if before.contains(s) {
                    let at = choose|at: int| 0 <= at < i && #[trigger] t[at] == s.last();
                    assert(among_first(t, j, s.last()));
                }
                if block.contains(s) {
                    assert(t[i] == s.last());
                    assert(among_first(t, j, s.last()));
                }
            }
            assert(now =~= before + block);
            assert(before.disjoint(block)) by {
                assert forall|s: Seq<usize>| before.contains(s) implies !block.contains(s) by {
                    let at = choose|at: int| 0 <= at < i && #[trigger] t[at] == s.last();
                    assert(t[at] >= t[i - 1]);
                    assert(t[i - 1] >= t[i]);
                }
            }
            lemma_set_disjoint_lens(before, block);
            lemma_run_stop(t, j);
            let stop = run_stop(t, j);
            assert forall|p: int| 0 <= p < t.len() implies (t[p] == v <==> i <= p < stop) by {
                if p < i {
                    assert(t[p] >= t[i - 1]);
                    assert(t[i - 1] >= t[i]);
                }
                if p >= stop {
                    assert(t[stop] >= t[p]);
                    assert(t[i] >= t[stop]);
                }
            }
            lemma_block_occurrences(t, i, stop, v);
            let q = stop - 1;
            assert(t.remove(q) =~= less);
            lemma_repeats_remove(t, q);
            let with_less = rearrangements(less).len();
            let often = occurrences(t, v);
            assert(reach(t, i) == i);
            assert((before.len() + block.len()) * repeats(t) == stop * rest) by (nonlinear_arith)
                requires
                    before.len() * repeats(t) == i * rest,
                    block.len() == with_less,
                    with_less * repeats(less) == rest,
                    repeats(t) == repeats(less) * often,
                    often == stop - i,
            ;
        }
    }
}

/// The rearrangements of a non-increasing sequence, times the product of the
/// factorials of how often each value stands in it, are as many as the
/// factorial of its length.
pub proof fn lemma_count_rearrangements(t: Seq<usize>)
    requires
        non_increasing(t),
    ensures
        rearrangements(t).finite(),
        rearrangements(t).len() * repeats(t) == factorial(t.len()),
    decreases t.len(), 1nat, 0int,
{
    broadcast use vstd::set::group_set_axioms;

    let all = rearrangements(t);
    if t.len() == 0 {
        let none = Seq::<usize>::empty();
        assert forall|s: Seq<usize>| all.contains(s) <==> s == none by {
            s.to_multiset_ensures();
            t.to_multiset_ensures();
            if all.contains(s) {
                assert(s =~= none);
            }
            if s == none {
                assert(t =~= none);
            }
        }
        assert(all =~= Set::<Seq<usize>>::empty().insert(none));
        assert(1 * repeats(t) == 1) by (nonlinear_arith)
            requires
                repeats(t) == 1,
        ;
    } else {
        let n = t.len() as int;
        lemma_count_up_to(t, n);
        assert forall|s: Seq<usize>| all.contains(s) <==> ending_in_first(t, n).contains(s) by {
            if all.contains(s) {
                s.to_multiset_ensures();
                t.to_multiset_ensures();
                to_multiset_contains(s, s.last());
                to_multiset_contains(t, s.last());
                assert(s.contains(s.last())) by {
                    assert(s[s.len() - 1] == s.last());
                }
                let at = choose|at: int| 0 <= at < t.len() && t[at] == s.last();
                assert(among_first(t, n, s.last()));
            }
        }
        assert(all =~= ending_in_first(t, n));
        assert(reach(t, n) == n);
    }
}

/// The order of prefix shifts that begins at a non-increasing sequence holds
/// as many rearrangements as that sequence has: the factorial of its length,
/// divided by the factorial of how often each value stands in it.
pub proof fn lemma_order_len(first: Seq<usize>)
    requires
        non_increasing(first),
    ensures
        order_len(first) == rearrangements(first).len(),
        order_len(first) * repeats(first) == factorial(first.len()),
{
    let places = set_int_range(0, order_len(first) as int);
    let all = rearrangements(first);
    let at = |place: int| advance(first, place as nat);
    lemma_int_range(0, order_len(first) as int);
    assert forall|a: int, b: int|
        places.contains(a) && places.contains(b) && #[trigger] at(a) == #[trigger] at(
            b,
        ) implies a == b by {
        if a < b {
            lemma_order_has_no_repeats(first, a as nat, b as nat);
        } else if b < a {
            lemma_order_has_no_repeats(first, b as nat, a as nat);
        }
    }
    assert(injective_on(at, places));
    assert forall|s: Seq<usize>| places.map(at).contains(s) <==> all.contains(s) by {
        if places.map(at).contains(s) {
            let place = choose|place: int| places.contains(place) && s == at(place);
            lemma_advance_rearranges(first, place as nat);
        }
        if all.contains(s) {
            lemma_order_holds_all(first, s);
            let place = place_of(s, first) as int;
            assert(places.contains(place) && s == at(place));
        }
    }
    assert(places.map(at) =~= all);
    lemma_map_size(places, all, at);
    lemma_count_rearrangements(first);
}

} // verus!
