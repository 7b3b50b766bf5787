//! The derangements of the numbers `0..n`, built from those of `0..n - 1` and
//! of `0..n - 2`.
//!
//! A derangement of `0..n - 1` gives `n - 1` derangements of `0..n`: the new
//! number `n - 1` takes one of the positions, and the value that stood there
//! goes to the end.  A derangement of `0..n - 2` gives `n - 1` more: a position
//! `k` and the new last position exchange their numbers, and the other values
//! make room for `k`.

use crate::fast_permutations::rest;
use crate::outside::first_position_of;
use vstd::prelude::*;
use vstd::seq_lib::lemma_no_dup_in_concat;

verus! {

/// A rearrangement of `0..a.len()` in which no value stands at the position
/// that is its own number.
pub open spec fn is_derangement(a: Seq<usize>) -> bool {
    &&& forall|i: int| 0 <= i < a.len() ==> a[i] < a.len()
    &&& forall|i: int, j: int| 0 <= i < j < a.len() ==> a[i] != a[j]
    &&& forall|v: usize| v < a.len() ==> #[trigger] a.contains(v)
    &&& forall|i: int| 0 <= i < a.len() ==> a[i] != i
}

/// The derangement of one more number in which the new number stands at
/// `split`, and the value that `parent` has there stands at the end.
pub open spec fn grown(parent: Seq<usize>, split: int) -> Seq<usize> {
    parent.update(split, parent.len() as usize).push(parent[split])
}

/// `parent` with each value from `from` up to, not including, `below` raised
/// by one.
pub open spec fn raised(parent: Seq<usize>, from: int, below: int) -> Seq<usize> {
    Seq::new(
        parent.len(),
        |i: int|
            if from <= parent[i] < below {
                (parent[i] + 1) as usize
            } else {
                parent[i]
            },
    )
}

/// The derangement of two more numbers in which position `k` holds the new
/// last number and the new last position holds `k`; the values of `parent`
/// from `k` on are raised by one, and its positions from `k` on move one to
/// the right.
pub open spec fn paired(parent: Seq<usize>, k: int) -> Seq<usize> {
    raised(parent, k, parent.len() as int + 1).insert(k, (parent.len() + 1) as usize).push(
        k as usize,
    )
}

/// The derangements grown from `parent` with the new number at `first` or
/// later, by position.
pub open spec fn grown_from(parent: Seq<usize>, first: int) -> Seq<Seq<usize>> {
    Seq::new((parent.len() - first) as nat, |j: int| grown(parent, first + j))
}

/// The derangements paired from a parent of which `done` have been made, the
/// position `k` going down from the last: `current` is the parent with the
/// values raised that those `done` have raised.
pub open spec fn paired_from(current: Seq<usize>, done: int) -> Seq<Seq<usize>> {
    Seq::new(
        (current.len() + 1 - done) as nat,
        |j: int|
            {
                let k = current.len() as int - done - j;
                raised(current, k, current.len() as int + 1 - done).insert(
                    k,
                    (current.len() + 1) as usize,
                ).push(k as usize)
            },
    )
}

/// The derangements grown from each of `parents`, parent by parent.
pub open spec fn all_grown(parents: Seq<Seq<usize>>) -> Seq<Seq<usize>>
    decreases parents.len(),
{
    if parents.len() == 0 {
        Seq::empty()
    } else {
        grown_from(parents[0], 0) + all_grown(parents.skip(1))
    }
}

/// The derangements paired from each of `parents`, parent by parent.
pub open spec fn all_paired(parents: Seq<Seq<usize>>) -> Seq<Seq<usize>>
    decreases parents.len(),
{
    if parents.len() == 0 {
        Seq::empty()
    } else {
        paired_from(parents[0], 0) + all_paired(parents.skip(1))
    }
}

/// The derangements of `0..n`, in the order in which they are built.
pub open spec fn derangements_of(n: nat) -> Seq<Seq<usize>>
    decreases n,
{
    if n == 0 {
        seq![Seq::<usize>::empty()]
    } else if n == 1 {
        Seq::empty()
    } else {
        all_grown(derangements_of((n - 1) as nat)) + all_paired(derangements_of((n - 2) as nat))
    }
}

/// The sequences that the vectors hold.
pub open spec fn views(list: Seq<Vec<usize>>) -> Seq<Seq<usize>> {
    Seq::new(list.len(), |i: int| list[i]@)
}

/// Growing after one more parent appends the derangements grown from it.
pub proof fn lemma_all_grown_push(parents: Seq<Seq<usize>>, last: Seq<usize>)
    ensures
        all_grown(parents.push(last)) == all_grown(parents) + grown_from(last, 0),
    decreases parents.len(),
{
    let longer = parents.push(last);
    if parents.len() == 0 {
        assert(longer.skip(1) =~= Seq::<Seq<usize>>::empty());
        assert(all_grown(longer.skip(1)) =~= Seq::<Seq<usize>>::empty());
        assert(all_grown(longer) =~= all_grown(parents) + grown_from(last, 0));
    } else {
        lemma_all_grown_push(parents.skip(1), last);
        assert(longer.skip(1) =~= parents.skip(1).push(last));
        assert(all_grown(longer) =~= all_grown(parents) + grown_from(last, 0));
    }
}

/// Pairing after one more parent appends the derangements paired from it.
pub proof fn lemma_all_paired_push(parents: Seq<Seq<usize>>, last: Seq<usize>)
    ensures
        all_paired(parents.push(last)) == all_paired(parents) + paired_from(last, 0),
    decreases parents.len(),
{
    let longer = parents.push(last);
    if parents.len() == 0 {
        assert(longer.skip(1) =~= Seq::<Seq<usize>>::empty());
        assert(all_paired(longer.skip(1)) =~= Seq::<Seq<usize>>::empty());
        assert(all_paired(longer) =~= all_paired(parents) + paired_from(last, 0));
    } else {
        lemma_all_paired_push(parents.skip(1), last);
        assert(longer.skip(1) =~= parents.skip(1).push(last));
        assert(all_paired(longer) =~= all_paired(parents) + paired_from(last, 0));
    }
}

/// A derangement grown from a derangement is a derangement.
pub proof fn lemma_grown_is_derangement(parent: Seq<usize>, split: int)
    requires
        is_derangement(parent),
        0 <= split < parent.len(),
        parent.len() + 1 <= usize::MAX,
    ensures
        is_derangement(grown(parent, split)),
        grown(parent, split).len() == parent.len() + 1,
{
    let m = parent.len() as int;
    let child = grown(parent, split);
    assert forall|i: int| 0 <= i < child.len() implies child[i] == (if i == split {
        m as usize
    } else if i < m {
        parent[i]
    } else {
        parent[split]
    }) by {}
    assert forall|i: int, j: int| 0 <= i < j < child.len() implies child[i] != child[j] by {
        if j < m {
            if i != split && j != split {
                assert(parent[i] != parent[j]);
            }
        } else if i != split {
            assert(parent[i] != parent[split]);
        }
    }
    assert forall|i: int| 0 <= i < child.len() implies child[i] != i by {
        if i < m && i != split {
            assert(parent[i] != i);
        }
    }
    assert forall|v: usize| v < child.len() implies #[trigger] child.contains(v) by {
        if v == m {
            assert(child[split] == v);
        } else {
            assert(parent.contains(v));
            let i = choose|i: int| 0 <= i < parent.len() && parent[i] == v;
            if i == split {
                assert(child[m] == v);
            } else {
                assert(child[i] == v);
            }
        }
    }
}

/// A derangement paired from a derangement is a derangement.
pub proof fn lemma_paired_is_derangement(parent: Seq<usize>, k: int)
    requires
        is_derangement(parent),
        0 <= k <= parent.len(),
        parent.len() + 2 <= usize::MAX,
    ensures
        is_derangement(paired(parent, k)),
        paired(parent, k).len() == parent.len() + 2,
{
    let m = parent.len() as int;
    let up = raised(parent, k, m + 1);
    let child = paired(parent, k);
    assert forall|i: int| 0 <= i < child.len() implies child[i] == (if i < k {
        up[i]
    } else if i == k {
        (m + 1) as usize
    } else if i <= m {
        up[i - 1]
    } else {
        k as usize
    }) by {}
    assert forall|v: usize| v < child.len() implies #[trigger] child.contains(v) by {
        if v == m + 1 {
            assert(child[k] == v);
        } else if v == k {
            assert(child[m + 1] == v);
        } else {
            let w: usize = if v < k {
                v
            } else {
                (v - 1) as usize
            };
            assert(parent.contains(w));
            let i = choose|i: int| 0 <= i < parent.len() && parent[i] == w;
            assert(up[i] == v);
            if i < k {
                assert(child[i] == v);
            } else {
                assert(child[i + 1] == v);
            }
        }
    }
    assert forall|i: int, j: int| 0 <= i < j < child.len() implies child[i] != child[j] by {
        let pi = if i < k {
            i
        } else {
            i - 1
        };
        let pj = if j < k {
            j
        } else {
            j - 1
        };
        if i != k && j != k && j <= m {
            assert(parent[pi] != parent[pj]);
        }
    }
}

/// Every sequence among the derangements of `0..n` is a derangement of `n`
/// numbers.
pub proof fn lemma_derangements_of_sound(n: nat)
    requires
        n <= usize::MAX,
    ensures
        forall|i: int|
            0 <= i < derangements_of(n).len() ==> is_derangement(#[trigger] derangements_of(n)[i])
                && derangements_of(n)[i].len() == n,
    decreases n,
{
    if n >= 2 {
        let one = derangements_of((n - 1) as nat);
        let two = derangements_of((n - 2) as nat);
        lemma_derangements_of_sound((n - 1) as nat);
        lemma_derangements_of_sound((n - 2) as nat);
        lemma_all_grown_sound(one, (n - 1) as nat);
        lemma_all_paired_sound(two, (n - 2) as nat);
    }
}

/// What is grown from derangements of `m` numbers are derangements of
/// `m + 1` numbers.
proof fn lemma_all_grown_sound(parents: Seq<Seq<usize>>, m: nat)
    requires
        m + 1 <= usize::MAX,
        forall|i: int|
            0 <= i < parents.len() ==> is_derangement(#[trigger] parents[i]) && parents[i].len()
                == m,
    ensures
        forall|i: int|
            0 <= i < all_grown(parents).len() ==> is_derangement(#[trigger] all_grown(parents)[i])
                && all_grown(parents)[i].len() == m + 1,
    decreases parents.len(),
{
    if parents.len() > 0 {
        let tail = parents.skip(1);
        assert forall|i: int| 0 <= i < tail.len() implies is_derangement(#[trigger] tail[i])
            && tail[i].len() == m by {
            assert(tail[i] == parents[i + 1]);
        }
        lemma_all_grown_sound(tail, m);
        let head = grown_from(parents[0], 0);
        assert forall|i: int| 0 <= i < all_grown(parents).len() implies is_derangement(
            #[trigger] all_grown(parents)[i],
        ) && all_grown(parents)[i].len() == m + 1 by {
            if i < head.len() {
                lemma_grown_is_derangement(parents[0], i);
            } else {
                assert(all_grown(parents)[i] == all_grown(tail)[i - head.len()]);
            }
        }
    }
}

/// What is paired from derangements of `m` numbers are derangements of
/// `m + 2` numbers.
proof fn lemma_all_paired_sound(parents: Seq<Seq<usize>>, m: nat)
    requires
        m + 2 <= usize::MAX,
        forall|i: int|
            0 <= i < parents.len() ==> is_derangement(#[trigger] parents[i]) && parents[i].len()
                == m,
    ensures
        forall|i: int|
            0 <= i < all_paired(parents).len() ==> is_derangement(
                #[trigger] all_paired(parents)[i],
            ) && all_paired(parents)[i].len() == m + 2,
    decreases parents.len(),
{
    if parents.len() > 0 {
        let tail = parents.skip(1);
        assert forall|i: int| 0 <= i < tail.len() implies is_derangement(#[trigger] tail[i])
            && tail[i].len() == m by {
            assert(tail[i] == parents[i + 1]);
        }
        lemma_all_paired_sound(tail, m);
        let head = paired_from(parents[0], 0);
        assert forall|i: int| 0 <= i < all_paired(parents).len() implies is_derangement(
            #[trigger] all_paired(parents)[i],
        ) && all_paired(parents)[i].len() == m + 2 by {
            if i < head.len() {
                lemma_paired_is_derangement(parents[0], m - i);
                assert(head[i] == paired(parents[0], m - i));
            } else {
                assert(all_paired(parents)[i] == all_paired(tail)[i - head.len()]);
            }
        }
    }
}

/// The derangement from which `d`, whose last value is not the position of
/// its largest, is grown: `d` without its last value, which stands where the
/// largest stood.
pub open spec fn shrunk(d: Seq<usize>, split: int) -> Seq<usize> {
    d.drop_last().update(split, d.last())
}

/// The derangement from which `d`, whose last value `k` is the position of its
/// largest, is paired: `d` without those two, the values above `k` lowered by
/// one.
pub open spec fn unpaired(d: Seq<usize>, k: int) -> Seq<usize> {
    Seq::new(
        (d.len() - 2) as nat,
        |i: int|
            {
                let x = if i < k {
                    d[i]
                } else {
                    d[i + 1]
                };
                if x > k {
                    (x - 1) as usize
                } else {
                    x
                }
            },
    )
}

/// What is grown from one of the parents is among what is grown from all.
proof fn lemma_all_grown_holds(parents: Seq<Seq<usize>>, at: int, split: int)
    requires
        0 <= at < parents.len(),
        0 <= split < parents[at].len(),
    ensures
        all_grown(parents).contains(grown(parents[at], split)),
    decreases parents.len(),
{
    let head = grown_from(parents[0], 0);
    let all = all_grown(parents);
    if at == 0 {
        assert(all[split] == grown(parents[0], split));
    } else {
        let tail = parents.skip(1);
        lemma_all_grown_holds(tail, at - 1, split);
        let c = grown(parents[at], split);
        let j = choose|j: int| 0 <= j < all_grown(tail).len() && all_grown(tail)[j] == c;
        assert(all[head.len() + j] == c);
    }
}

/// What is paired from one of the parents is among what is paired from all.
proof fn lemma_all_paired_holds(parents: Seq<Seq<usize>>, at: int, k: int)
    requires
        0 <= at < parents.len(),
        0 <= k <= parents[at].len(),
    ensures
        all_paired(parents).contains(paired(parents[at], k)),
    decreases parents.len(),
{
    let head = paired_from(parents[0], 0);
    let all = all_paired(parents);
    if at == 0 {
        assert(all[parents[0].len() - k] == paired(parents[0], k));
    } else {
        let tail = parents.skip(1);
        lemma_all_paired_holds(tail, at - 1, k);
        let c = paired(parents[at], k);
        let j = choose|j: int| 0 <= j < all_paired(tail).len() && all_paired(tail)[j] == c;
        assert(all[head.len() + j] == c);
    }
}

/// A derangement whose last value is not the position of its largest is
/// grown from a derangement of one number less.
proof fn lemma_shrunk(d: Seq<usize>, p: int)
    requires
        d.len() >= 2,
        d.len() <= usize::MAX,
        is_derangement(d),
        0 <= p < d.len(),
        d[p] == d.len() - 1,
        d.last() != p,
    ensures
        is_derangement(shrunk(d, p)),
        shrunk(d, p).len() == d.len() - 1,
        grown(shrunk(d, p), p) == d,
{
    let n = d.len() as int;
    let parent = shrunk(d, p);
    assert(p != n - 1);
    assert forall|i: int| 0 <= i < parent.len() implies parent[i] < parent.len() && parent[i]
        != i by {
        if i != p {
            assert(d[i] != d[p]);
        } else {
            assert(d[n - 1] != d[p]);
        }
    }
    assert forall|i: int, j: int| 0 <= i < j < parent.len() implies parent[i] != parent[j] by {
        assert(d[i] != d[j]);
        assert(d[i] != d[n - 1]);
        assert(d[j] != d[n - 1]);
    }
    assert forall|w: usize| w < parent.len() implies #[trigger] parent.contains(w) by {
        assert(d.contains(w));
        let i = choose|i: int| 0 <= i < d.len() && d[i] == w;
        if i == n - 1 {
            assert(parent[p] == w);
        } else {
            assert(parent[i] == w);
        }
    }
    assert(grown(parent, p) =~= d);
}

/// A derangement whose last value is the position of its largest is paired
/// from a derangement of two numbers less.
proof fn lemma_unpaired(d: Seq<usize>, p: int)
    requires
        d.len() >= 2,
        d.len() <= usize::MAX,
        is_derangement(d),
        0 <= p < d.len(),
        d[p] == d.len() - 1,
        d.last() == p,
    ensures
        is_derangement(unpaired(d, p)),
        unpaired(d, p).len() == d.len() - 2,
        paired(unpaired(d, p), p) == d,
{
    let n = d.len() as int;
    let parent = unpaired(d, p);
    assert(p != n - 1);
    assert forall|i: int| 0 <= i < parent.len() implies parent[i] < parent.len() && parent[i]
        != i by {
        let from = if i < p {
            i
        } else {
            i + 1
        };
        assert(d[from] != d[p]);
        assert(d[from] != d[n - 1]);
    }
    assert forall|i: int, j: int| 0 <= i < j < parent.len() implies parent[i] != parent[j] by {
        let fi = if i < p {
            i
        } else {
            i + 1
        };
        let fj = if j < p {
            j
        } else {
            j + 1
        };
        assert(d[fi] != d[fj]);
        assert(d[fi] != d[n - 1]);
        assert(d[fj] != d[n - 1]);
    }
    assert forall|w: usize| w < parent.len() implies #[trigger] parent.contains(w) by {
        let x: usize = if w >= p {
            (w + 1) as usize
        } else {
            w
        };
        assert(d.contains(x));
        let i = choose|i: int| 0 <= i < d.len() && d[i] == x;
        if i < p {
            assert(parent[i] == w);
        } else {
            assert(parent[i - 1] == w);
        }
    }
    let back = paired(parent, p);
    assert forall|i: int| 0 <= i < n implies back[i] == d[i] by {
        if i != p && i != n - 1 {
            assert(d[i] != d[p]);
            assert(d[i] != d[n - 1]);
        }
    }
    assert(back =~= d);
}

/// Every derangement of `n` numbers is among the derangements of `0..n`.
pub proof fn lemma_derangements_of_complete(n: nat, d: Seq<usize>)
    requires
        n <= usize::MAX,
        d.len() == n,
        is_derangement(d),
    ensures
        derangements_of(n).contains(d),
    decreases n,
{
    if n == 0 {
        assert(derangements_of(0)[0] =~= d);
    } else if n == 1 {
        assert(d[0] != 0);
    } else {
        let top = (n - 1) as usize;
        assert(d.contains(top));
        let p = choose|p: int| 0 <= p < d.len() && d[p] == top;
        let one = derangements_of((n - 1) as nat);
        let two = derangements_of((n - 2) as nat);
        let all = derangements_of(n);
        if d.last() != p {
            let parent = shrunk(d, p);
            lemma_shrunk(d, p);
            lemma_derangements_of_complete((n - 1) as nat, parent);
            let at = choose|at: int| 0 <= at < one.len() && one[at] == parent;
            lemma_all_grown_holds(one, at, p);
            let j = choose|j: int| 0 <= j < all_grown(one).len() && all_grown(one)[j] == d;
            assert(all[j] == d);
        } else {
            let parent = unpaired(d, p);
            lemma_unpaired(d, p);
            lemma_derangements_of_complete((n - 2) as nat, parent);
            let at = choose|at: int| 0 <= at < two.len() && two[at] == parent;
            lemma_all_paired_holds(two, at, p);
            let j = choose|j: int| 0 <= j < all_paired(two).len() && all_paired(two)[j] == d;
            assert(all[all_grown(one).len() + j] == d);
        }
    }
}

/// `c` is grown from one of `parents`.
pub open spec fn grown_of(parents: Seq<Seq<usize>>, c: Seq<usize>) -> bool {
    exists|at: int, split: int|
        0 <= at < parents.len() && 0 <= split < parents[at].len() && #[trigger] grown(
            parents[at],
            split,
        ) == c
}

/// `c` is paired from one of `parents`.
pub open spec fn paired_of(parents: Seq<Seq<usize>>, c: Seq<usize>) -> bool {
    exists|at: int, k: int|
        0 <= at < parents.len() && 0 <= k <= parents[at].len() && #[trigger] paired(
            parents[at],
            k,
        ) == c
}

/// Among what is grown from derangements of `m` numbers, none of which comes
/// twice, nothing comes twice; each has the new number before its end, and at
/// its end a value that is not the position of the new number.
proof fn lemma_all_grown_distinct(parents: Seq<Seq<usize>>, m: nat)
    requires
        m + 1 <= usize::MAX,
        parents.no_duplicates(),
        forall|i: int|
            0 <= i < parents.len() ==> is_derangement(#[trigger] parents[i]) && parents[i].len()
                == m,
    ensures
        all_grown(parents).no_duplicates(),
        forall|j: int|
            0 <= j < all_grown(parents).len() ==> grown_of(
                parents,
                #[trigger] all_grown(parents)[j],
            ),
    decreases parents.len(),
{
    let all = all_grown(parents);
    if parents.len() > 0 {
        let first = parents[0];
        let head = grown_from(first, 0);
        let tail = parents.skip(1);
        let others = all_grown(tail);
        assert forall|i: int| 0 <= i < tail.len() implies is_derangement(#[trigger] tail[i])
            && tail[i].len() == m by {
            assert(tail[i] == parents[i + 1]);
        }
        assert(tail.no_duplicates()) by {
            assert forall|i: int, j: int|
                0 <= i < tail.len() && 0 <= j < tail.len() && i != j implies tail[i]
                != tail[j] by {
                assert(parents[i + 1] != parents[j + 1]);
            }
        }
        lemma_all_grown_distinct(tail, m);
        assert forall|j: int| 0 <= j < all.len() implies grown_of(parents, #[trigger] all[j]) by {
            if j < head.len() {
                assert(grown(parents[0], j) == all[j]);
            } else {
                assert(grown_of(tail, others[j - head.len()]));
                let (at, split) = choose|at: int, split: int|
                    0 <= at < tail.len() && 0 <= split < tail[at].len() && #[trigger] grown(
                        tail[at],
                        split,
                    ) == others[j - head.len()];
                assert(grown(parents[at + 1], split) == all[j]);
            }
        }
        assert(head.no_duplicates()) by {
            assert forall|i: int, j: int|
                0 <= i < head.len() && 0 <= j < head.len() && i != j implies head[i]
                != head[j] by {
                assert(head[i][i] == m);
                assert(head[j][i] != m);
            }
        }
        assert forall|i: int, j: int| 0 <= i < head.len() && 0 <= j < others.len() implies head[i]
            != others[j] by {
            assert(grown_of(tail, others[j]));
            let (at, split) = choose|at: int, split: int|
                0 <= at < tail.len() && 0 <= split < tail[at].len() && #[trigger] grown(
                    tail[at],
                    split,
                ) == others[j];
            if head[i] == others[j] {
                lemma_grown_injective(first, i, tail[at], split);
                assert(parents[0] != parents[at + 1]);
            }
        }
        lemma_no_dup_in_concat(head, others);
    }
}

/// A derangement is grown from one derangement only, and at one position.
proof fn lemma_grown_injective(a: Seq<usize>, i: int, b: Seq<usize>, j: int)
    requires
        is_derangement(a),
        is_derangement(b),
        a.len() == b.len(),
        a.len() + 1 <= usize::MAX,
        0 <= i < a.len(),
        0 <= j < b.len(),
        grown(a, i) == grown(b, j),
    ensures
        a == b,
        i == j,
{
    let m = a.len() as int;
    let c = grown(a, i);
    assert(c[i] == m);
    assert(grown(b, j)[j] == m);
    if i != j {
        assert(grown(b, j)[i] == b[i]);
    }
    assert forall|t: int| 0 <= t < m implies a[t] == b[t] by {
        if t == i {
            assert(c[m] == a[i]);
            assert(grown(b, j)[m] == b[j]);
        } else {
            assert(c[t] == a[t]);
            assert(grown(b, j)[t] == b[t]);
        }
    }
    assert(a =~= b);
}

/// Among what is paired from derangements of `m` numbers, none of which
/// comes twice, nothing comes twice; each has the new last number at the
/// position that is its last value.
proof fn lemma_all_paired_distinct(parents: Seq<Seq<usize>>, m: nat)
    requires
        m + 2 <= usize::MAX,
        parents.no_duplicates(),
        forall|i: int|
            0 <= i < parents.len() ==> is_derangement(#[trigger] parents[i]) && parents[i].len()
                == m,
    ensures
        all_paired(parents).no_duplicates(),
        forall|j: int|
            0 <= j < all_paired(parents).len() ==> paired_of(
                parents,
                #[trigger] all_paired(parents)[j],
            ),
    decreases parents.len(),
{
    let all = all_paired(parents);
    if parents.len() > 0 {
        let first = parents[0];
        let head = paired_from(first, 0);
        let tail = parents.skip(1);
        let others = all_paired(tail);
        assert forall|i: int| 0 <= i < tail.len() implies is_derangement(#[trigger] tail[i])
            && tail[i].len() == m by {
            assert(tail[i] == parents[i + 1]);
        }
        assert(tail.no_duplicates()) by {
            assert forall|i: int, j: int|
                0 <= i < tail.len() && 0 <= j < tail.len() && i != j implies tail[i]
                != tail[j] by {
                assert(parents[i + 1] != parents[j + 1]);
            }
        }
        lemma_all_paired_distinct(tail, m);
        assert forall|j: int| 0 <= j < head.len() implies head[j] == paired(first, m - j) by {}
        assert forall|j: int| 0 <= j < all.len() implies paired_of(parents, #[trigger] all[j]) by {
            if j < head.len() {
                assert(paired(parents[0], m - j) == all[j]);
            } else {
                assert(paired_of(tail, others[j - head.len()]));
                let (at, k) = choose|at: int, k: int|
                    0 <= at < tail.len() && 0 <= k <= tail[at].len() && #[trigger] paired(
                        tail[at],
                        k,
                    ) == others[j - head.len()];
                assert(paired(parents[at + 1], k) == all[j]);
            }
        }
        assert(head.no_duplicates()) by {
            assert forall|i: int, j: int|
                0 <= i < head.len() && 0 <= j < head.len() && i != j implies head[i]
                != head[j] by {
                lemma_paired_shape(first, m - i);
                lemma_paired_shape(first, m - j);
                assert(head[i][m as int + 1] == m - i);
                assert(head[j][m as int + 1] == m - j);
            }
        }
        assert forall|i: int, j: int| 0 <= i < head.len() && 0 <= j < others.len() implies head[i]
            != others[j] by {
            assert(paired_of(tail, others[j]));
            let (at, k) = choose|at: int, k: int|
                0 <= at < tail.len() && 0 <= k <= tail[at].len() && #[trigger] paired(
                    tail[at],
                    k,
                ) == others[j];
            if head[i] == others[j] {
                lemma_paired_injective(first, m - i, tail[at], k);
                assert(parents[0] != parents[at + 1]);
            }
        }
        lemma_no_dup_in_concat(head, others);
    }
}

/// A parent's value as it stands in a derangement paired at `k`.
pub open spec fn made_room(value: usize, k: int) -> int {
    if value >= k {
        value + 1
    } else {
        value as int
    }
}

/// The values of a paired derangement, position by position.
proof fn lemma_paired_shape(parent: Seq<usize>, k: int)
    requires
        is_derangement(parent),
        0 <= k <= parent.len(),
        parent.len() + 2 <= usize::MAX,
    ensures
        paired(parent, k).len() == parent.len() + 2,
        forall|i: int|
            0 <= i < parent.len() + 2 ==> #[trigger] paired(parent, k)[i] == (if i < k {
                made_room(parent[i], k)
            } else if i == k {
                parent.len() as int + 1
            } else if i <= parent.len() {
                made_room(parent[i - 1], k)
            } else {
                k
            }),
{
}

/// A derangement is paired from one derangement only, and at one position.
proof fn lemma_paired_injective(a: Seq<usize>, i: int, b: Seq<usize>, j: int)
    requires
        is_derangement(a),
        is_derangement(b),
        a.len() == b.len(),
        a.len() + 2 <= usize::MAX,
        0 <= i <= a.len(),
        0 <= j <= b.len(),
        paired(a, i) == paired(b, j),
    ensures
        a == b,
        i == j,
{
    lemma_paired_shape(a, i);
    lemma_paired_shape(b, j);
    let c = paired(a, i);
    let m = a.len() as int;
    assert(c[m + 1] == i);
    assert(paired(b, j)[m + 1] == j);
    assert forall|t: int| 0 <= t < a.len() implies a[t] == b[t] by {
        let at = if t < i {
            t
        } else {
            t + 1
        };
        assert(c[at] == made_room(a[t], i));
        assert(paired(b, j)[at] == made_room(b[t], i));
    }
    assert(a =~= b);
}

/// No sequence comes twice among the derangements of `0..n`.
pub proof fn lemma_derangements_of_distinct(n: nat)
    requires
        n <= usize::MAX,
    ensures
        derangements_of(n).no_duplicates(),
    decreases n,
{
    if n >= 2 {
        let one = derangements_of((n - 1) as nat);
        let two = derangements_of((n - 2) as nat);
        lemma_derangements_of_distinct((n - 1) as nat);
        lemma_derangements_of_distinct((n - 2) as nat);
        lemma_derangements_of_sound((n - 1) as nat);
        lemma_derangements_of_sound((n - 2) as nat);
        lemma_all_grown_distinct(one, (n - 1) as nat);
        lemma_all_paired_distinct(two, (n - 2) as nat);
        let from_one = all_grown(one);
        let from_two = all_paired(two);
        assert forall|i: int, j: int|
            0 <= i < from_one.len() && 0 <= j < from_two.len() implies from_one[i]
            != from_two[j] by {
            assert(grown_of(one, from_one[i]));
            assert(paired_of(two, from_two[j]));
            let (a, split) = choose|a: int, split: int|
                0 <= a < one.len() && 0 <= split < one[a].len() && #[trigger] grown(one[a], split)
                    == from_one[i];
            let (b, k) = choose|b: int, k: int|
                0 <= b < two.len() && 0 <= k <= two[b].len() && #[trigger] paired(two[b], k)
                    == from_two[j];
            lemma_paired_shape(two[b], k);
            let c = grown(one[a], split);
            let e = paired(two[b], k);
            assert(c[split] == n - 1);
            assert(c[n - 1] == one[a][split]);
            assert(e[k] == n - 1);
            assert(e[n - 1] == k);
            if c == e {
                if split != k {
                    assert(c[k] == one[a][k]);
                }
            }
        }
        lemma_no_dup_in_concat(from_one, from_two);
    }
}

/// How many derangements `n` numbers have.
pub open spec fn subfactorial(n: nat) -> nat
    decreases n,
{
    if n == 0 {
        1
    } else if n == 1 {
        0
    } else {
        ((n - 1) * (subfactorial((n - 1) as nat) + subfactorial((n - 2) as nat))) as nat
    }
}

/// Each parent of `m` numbers has `m` derangements grown from it.
proof fn lemma_all_grown_len(parents: Seq<Seq<usize>>, m: nat)
    requires
        forall|i: int| 0 <= i < parents.len() ==> (#[trigger] parents[i]).len() == m,
    ensures
        all_grown(parents).len() == parents.len() * m,
    decreases parents.len(),
{
    if parents.len() > 0 {
        let tail = parents.skip(1);
        assert forall|i: int| 0 <= i < tail.len() implies (#[trigger] tail[i]).len() == m by {
            assert(tail[i] == parents[i + 1]);
        }
        lemma_all_grown_len(tail, m);
        assert(parents.len() * m == tail.len() * m + m) by (nonlinear_arith)
            requires
                parents.len() == tail.len() + 1,
        ;
    } else {
        assert(parents.len() * m == 0) by (nonlinear_arith)
            requires
                parents.len() == 0,
        ;
    }
}

/// Each parent of `m` numbers has `m + 1` derangements paired from it.
proof fn lemma_all_paired_len(parents: Seq<Seq<usize>>, m: nat)
    requires
        forall|i: int| 0 <= i < parents.len() ==> (#[trigger] parents[i]).len() == m,
    ensures
        all_paired(parents).len() == parents.len() * (m + 1),
    decreases parents.len(),
{
    if parents.len() > 0 {
        let tail = parents.skip(1);
        assert forall|i: int| 0 <= i < tail.len() implies (#[trigger] tail[i]).len() == m by {
            assert(tail[i] == parents[i + 1]);
        }
        lemma_all_paired_len(tail, m);
        assert(parents.len() * (m + 1) == tail.len() * (m + 1) + (m + 1)) by (nonlinear_arith)
            requires
                parents.len() == tail.len() + 1,
        ;
    } else {
        assert(parents.len() * (m + 1) == 0) by (nonlinear_arith)
            requires
                parents.len() == 0,
        ;
    }
}

/// The derangements of `0..n` are as many as `n` numbers have derangements.
pub proof fn lemma_derangements_of_len(n: nat)
    requires
        n <= usize::MAX,
    ensures
        derangements_of(n).len() == subfactorial(n),
    decreases n,
{
    if n >= 2 {
        let one = derangements_of((n - 1) as nat);
        let two = derangements_of((n - 2) as nat);
        lemma_derangements_of_len((n - 1) as nat);
        lemma_derangements_of_len((n - 2) as nat);
        lemma_derangements_of_sound((n - 1) as nat);
        lemma_derangements_of_sound((n - 2) as nat);
        lemma_all_grown_len(one, (n - 1) as nat);
        lemma_all_paired_len(two, (n - 2) as nat);
        assert((n - 1) * (one.len() + two.len()) == one.len() * (n - 1) + two.len() * (n - 2 + 1))
            by (nonlinear_arith);
    }
}

/// The views of a list with one more vector are those of the list and that
/// of the vector.
proof fn lemma_views_push(list: Seq<Vec<usize>>, last: Vec<usize>)
    ensures
        views(list.push(last)) == views(list).push(last@),
{
    assert(views(list.push(last)) =~= views(list).push(last@));
}

/// Appends to `list` the derangements grown from `parent`.
fn extend_grown(list: &mut Vec<Vec<usize>>, parent: &Vec<usize>)
    ensures
        views(final(list)@) == views(old(list)@) + grown_from(parent@, 0),
{
    let m: usize = parent.len();
    let mut split: usize = 0;
    while split < m
        invariant
            split <= m,
            m == parent.len(),
            views(list@) =~= views(old(list)@) + grown_from(parent@, 0).take(split as int),
        decreases m - split,
    {
        let mut child = parent.clone();
        child.set(split, m);
        child.push(parent[split]);
        assert(child@ =~= grown(parent@, split as int));
        proof {
            lemma_views_push(list@, child);
            assert(grown_from(parent@, 0).take(split + 1) =~= grown_from(parent@, 0).take(
                split as int,
            ).push(child@));
        }
        list.push(child);
        split += 1;
    }
}

/// Raises by one each value of `current` that is `k`.
fn raise_value(current: &mut Vec<usize>, k: usize)
    requires
        k < usize::MAX,
    ensures
        final(current)@ == raised(old(current)@, k as int, k + 1),
{
    let mut i: usize = 0;
    while i < current.len()
        invariant
            i <= current.len(),
            current.len() == old(current).len(),
            k < usize::MAX,
            forall|j: int| 0 <= j < i ==> current[j] == raised(old(current)@, k as int, k + 1)[j],
            forall|j: int| i <= j < current.len() ==> current[j] == old(current)[j],
        decreases current.len() - i,
    {
        if current[i] == k {
            current.set(i, k + 1);
        }
        i += 1;
    }
    assert(current@ =~= raised(old(current)@, k as int, k + 1));
}

/// Raising the values from `k + 1` on and then the value `k` raises the
/// values from `k` on.
proof fn lemma_raised_in_two(parent: Seq<usize>, k: int, below: int)
    requires
        0 <= k < below <= usize::MAX,
    ensures
        raised(raised(parent, k + 1, below), k, k + 1) == raised(parent, k, below),
{
    assert(raised(raised(parent, k + 1, below), k, k + 1) =~= raised(parent, k, below));
}

/// Appends to `list` the derangements paired from `parent`.
fn extend_paired(list: &mut Vec<Vec<usize>>, parent: &Vec<usize>)
    requires
        parent.len() + 2 <= usize::MAX,
        forall|i: int| 0 <= i < parent.len() ==> parent[i] < parent.len(),
    ensures
        views(final(list)@) == views(old(list)@) + paired_from(parent@, 0),
{
    let m: usize = parent.len();
    let ghost all = paired_from(parent@, 0);
    let mut current = parent.clone();
    let mut first = parent.clone();
    first.push(m + 1);
    first.push(m);
    assert(first@ =~= all[0]) by {
        assert(raised(parent@, m as int, m + 1) =~= parent@);
    }
    proof {
        lemma_views_push(list@, first);
        assert(all.take(1) =~= Seq::<Seq<usize>>::empty().push(first@));
    }
    list.push(first);
    assert(raised(parent@, m as int, m + 1) =~= parent@);
    let mut k: usize = m;
    while k > 0
        invariant
            k <= m,
            m == parent.len(),
            m + 2 <= usize::MAX,
            all == paired_from(parent@, 0),
            current@ == raised(parent@, k as int, m + 1),
            views(list@) =~= views(old(list)@) + all.take(m - k + 1),
        decreases k,
    {
        k -= 1;
        proof {
            lemma_raised_in_two(parent@, k as int, m + 1);
        }
        raise_value(&mut current, k);
        let mut child = current.clone();
        child.insert(k, m + 1);
        child.push(k);
        assert(child@ =~= all[m - k]);
        proof {
            lemma_views_push(list@, child);
            assert(all.take(m - k + 1) =~= all.take(m - k).push(child@));
        }
        list.push(child);
    }
    assert(all.take(m as int + 1) =~= all);
}

/// The derangements grown from each of `one`, then those paired from each of
/// `two`.
fn combine(one: &Vec<Vec<usize>>, two: &Vec<Vec<usize>>) -> (list: Vec<Vec<usize>>)
    requires
        forall|i: int|
            0 <= i < two.len() ==> is_derangement(#[trigger] views(two@)[i]) && views(two@)[i].len()
                + 2 <= usize::MAX,
    ensures
        views(list@) == all_grown(views(one@)) + all_paired(views(two@)),
{
    let mut list: Vec<Vec<usize>> = Vec::new();
    let mut i: usize = 0;
    assert(views(one@).take(0) =~= Seq::<Seq<usize>>::empty());
    while i < one.len()
        invariant
            i <= one.len(),
            views(list@) =~= all_grown(views(one@).take(i as int)),
        decreases one.len() - i,
    {
        proof {
            lemma_all_grown_push(views(one@).take(i as int), one[i as int]@);
            assert(views(one@).take(i + 1) =~= views(one@).take(i as int).push(one[i as int]@));
        }
        extend_grown(&mut list, &one[i]);
        i += 1;
    }
    assert(views(one@).take(one.len() as int) =~= views(one@));
    let mut j: usize = 0;
    assert(views(two@).take(0) =~= Seq::<Seq<usize>>::empty());
    while j < two.len()
        invariant
            j <= two.len(),
            forall|i: int|
                0 <= i < two.len() ==> is_derangement(#[trigger] views(two@)[i]) && views(
                    two@,
                )[i].len() + 2 <= usize::MAX,
            views(list@) =~= all_grown(views(one@)) + all_paired(views(two@).take(j as int)),
        decreases two.len() - j,
    {
        proof {
            lemma_all_paired_push(views(two@).take(j as int), two[j as int]@);
            assert(views(two@).take(j + 1) =~= views(two@).take(j as int).push(two[j as int]@));
            assert(is_derangement(views(two@)[j as int]));
        }
        extend_paired(&mut list, &two[j]);
        j += 1;
    }
    assert(views(two@).take(two.len() as int) =~= views(two@));
    list
}

/// All derangements of `0..n`.  Builds those of the two smaller ranges anew at
/// each size.
pub fn derangements_range(n: usize) -> (list: Vec<Vec<usize>>)
    ensures
        views(list@) == derangements_of(n as nat),
    decreases n,
{
    if n == 1 {
        Vec::new()
    } else if n == 0 {
        let mut list: Vec<Vec<usize>> = Vec::new();
        list.push(Vec::new());
        assert(views(list@) =~= derangements_of(0));
        list
    } else {
        let one = derangements_range(n - 1);
        let two = derangements_range(n - 2);
        proof {
            lemma_derangements_of_sound((n - 2) as nat);
        }
        combine(&one, &two)
    }
}

/// All derangements of `0..n`, as `derangements_range` gives them.  Goes up
/// through the sizes once and keeps the derangements of the last two.
pub fn derangements_range_fast(n: usize) -> (list: Vec<Vec<usize>>)
    ensures
        views(list@) == derangements_of(n as nat),
{
    if n == 1 {
        return Vec::new();
    }
    if n == 0 {
        return derangements_range(0);
    }
    let mut two = derangements_range(0);
    let mut one = derangements_range(1);
    let mut size: usize = 2;
    while size < n
        invariant
            2 <= size <= n,
            views(one@) == derangements_of((size - 1) as nat),
            views(two@) == derangements_of((size - 2) as nat),
        decreases n - size,
    {
        proof {
            lemma_derangements_of_sound((size - 2) as nat);
        }
        let next = combine(&one, &two);
        two = one;
        one = next;
        size += 1;
    }
    proof {
        lemma_derangements_of_sound((size - 2) as nat);
    }
    combine(&one, &two)
}

/// `current` is a derangement of which `done` derangements have been paired:
/// its values from the next position `k` on are raised by one.
pub open spec fn paired_parent(current: Seq<usize>, done: int) -> bool {
    exists|base: Seq<usize>| is_derangement(base) && #[trigger] raised_for(base, done) == current
}

/// `base` with the values raised that pairing `done` derangements from it
/// has raised.
pub open spec fn raised_for(base: Seq<usize>, done: int) -> Seq<usize> {
    raised(base, base.len() as int + 1 - done, base.len() as int + 1)
}

/// The derangements of `0..n`, one at a time: those grown from the
/// derangements of `0..n - 1`, which a generator of its own hands over one by
/// one, and then those paired from the derangements of `0..n - 2`, which a
/// second one does.
#[derive(Debug)]
pub struct DerangementsRangeIterator {
    lag1_done: bool,
    lag: Option<Box<DerangementsRangeIterator>>,
    init: bool,
    n: usize,
    curr_lag: Vec<usize>,
    count: usize,
}

/// The generator of the derangements of `0..n`, in the order of
/// `derangements_range`.
pub fn derangements_by_range(n: usize) -> (generator: DerangementsRangeIterator)
    ensures
        generator.wf(),
        generator.size() == n,
        generator.pending() == derangements_of(n as nat),
{
    let count: usize = if n >= 1 {
        n - 1
    } else {
        0
    };
    DerangementsRangeIterator {
        lag1_done: false,
        lag: None,
        init: true,
        n,
        curr_lag: Vec::new(),
        count,
    }
}

impl Clone for DerangementsRangeIterator {
    /// A generator in the same state.
    fn clone(&self) -> (copy: Self)
        ensures
            copy.wf() == self.wf(),
            copy.size() == self.size(),
            copy.pending() == self.pending(),
        decreases self,
    {
        let lag = match &self.lag {
            Some(inner) => Some(Box::new((**inner).clone())),
            None => None,
        };
        DerangementsRangeIterator {
            lag1_done: self.lag1_done,
            lag,
            init: self.init,
            n: self.n,
            curr_lag: self.curr_lag.clone(),
            count: self.count,
        }
    }
}

impl DerangementsRangeIterator {
    /// The number of values of each derangement.
    pub closed spec fn size(&self) -> nat {
        self.n as nat
    }

    /// The parts of the state fit together: the generator inside is for the
    /// size that the present part asks for, and the parent in work is a
    /// derangement, raised as far as its children have come.
    pub closed spec fn wf(&self) -> bool
        decreases self,
    {
        if self.n < 2 {
            true
        } else if self.init {
            self.lag is None && !self.lag1_done && self.count == self.n - 1
        } else {
            &&& self.count <= self.n - 1
            &&& match self.lag {
                None => false,
                Some(inner) => inner.wf() && inner.n == (if self.lag1_done {
                    self.n - 2
                } else {
                    self.n - 1
                }),
            }
            &&& self.count < self.n - 1 ==> if self.lag1_done {
                self.curr_lag@.len() + 2 == self.n && paired_parent(
                    self.curr_lag@,
                    self.count as int,
                )
            } else {
                self.curr_lag@.len() + 1 == self.n && is_derangement(self.curr_lag@)
            }
        }
    }

    /// The derangements that are still to come, in the order in which they come.
    pub closed spec fn pending(&self) -> Seq<Seq<usize>>
        decreases self,
    {
        if self.n == 0 {
            if self.lag1_done {
                Seq::empty()
            } else {
                seq![Seq::<usize>::empty()]
            }
        } else if self.n == 1 {
            Seq::empty()
        } else if self.init {
            derangements_of(self.n as nat)
        } else {
            match self.lag {
                None => Seq::empty(),
                Some(inner) => if self.lag1_done {
                    (if self.count < self.n - 1 {
                        paired_from(self.curr_lag@, self.count as int)
                    } else {
                        Seq::empty()
                    }) + all_paired(inner.pending())
                } else {
                    (if self.count < self.n - 1 {
                        grown_from(self.curr_lag@, self.count as int)
                    } else {
                        Seq::empty()
                    }) + all_grown(inner.pending()) + all_paired(
                        derangements_of((self.n - 2) as nat),
                    )
                },
            }
        }
    }

    /// Takes the next parent from the generator inside, going over to the
    /// second one when the first has none left.  Says whether there was one.
    fn refill(&mut self) -> (found: bool)
        requires
            old(self).wf(),
            old(self).n >= 2,
            !old(self).init,
            old(self).count == old(self).n - 1,
        ensures
            final(self).wf(),
            final(self).n == old(self).n,
            !final(self).init,
            final(self).pending() == old(self).pending(),
            found ==> final(self).count == 0,
            !found ==> final(self).pending().len() == 0,
        decreases old(self).size(), 0nat,
    {
        let n: usize = self.n;
        let fetched = match &mut self.lag {
            Some(inner) => inner.next(),
            None => None,
        };
        match fetched {
            Some(parent) => {
                proof {
                    assert(raised_for(parent@, 0) =~= parent@);
                }
                self.curr_lag = parent;
                self.count = 0;
                true
            },
            None => {
                if self.lag1_done {
                    return false;
                }
                self.lag1_done = true;
                self.lag = Some(Box::new(derangements_by_range(n - 2)));
                let second = match &mut self.lag {
                    Some(inner) => inner.next(),
                    None => None,
                };
                match second {
                    Some(parent) => {
                        proof {
                            assert(raised_for(parent@, 0) =~= parent@);
                        }
                        self.curr_lag = parent;
                        self.count = 0;
                        true
                    },
                    None => false,
                }
            },
        }
    }

    /// The next derangement from the parent in work.
    fn make_child(&mut self) -> (child: Vec<usize>)
        requires
            old(self).wf(),
            old(self).n >= 2,
            !old(self).init,
            old(self).count < old(self).n - 1,
        ensures
            final(self).wf(),
            final(self).n == old(self).n,
            child@ == old(self).pending()[0],
            is_derangement(child@),
            child@.len() == old(self).n,
            final(self).pending() == rest(old(self).pending()),
    {
        let n: usize = self.n;
        let ghost ready = self.pending();
        let ghost current = self.curr_lag@;
        let count: usize = self.count;
        let mut child = self.curr_lag.clone();
        if !self.lag1_done {
            child.set(count, n - 1);
            child.push(self.curr_lag[count]);
            proof {
                assert(child@ =~= grown(current, count as int));
                lemma_grown_is_derangement(current, count as int);
                assert(rest(grown_from(current, count as int)) =~= if count + 1 < n - 1 {
                    grown_from(current, count + 1)
                } else {
                    Seq::empty()
                });
            }
        } else {
            let ghost base = choose|base: Seq<usize>|
                is_derangement(base) && #[trigger] raised_for(base, count as int) == current;
            let k: usize = n - 2 - count;
            proof {
                lemma_paired_step(base, current, count as int);
            }
            if count > 0 {
                match first_position_of(&self.curr_lag, k) {
                    Some(j) => {
                        child.set(j, k + 1);
                        self.curr_lag.set(j, k + 1);
                    },
                    None => {
                        proof {
                            let i = choose|i: int| 0 <= i < current.len() && current[i] == k;
                            assert(false);
                        }
                    },
                }
            }
            assert(child@ =~= raised(base, k as int, n - 1));
            assert(self.curr_lag@ =~= raised_for(base, count + 1));
            child.insert(k, n - 1);
            child.push(k);
            proof {
                lemma_paired_is_derangement(base, k as int);
                assert(child@ =~= paired(base, k as int));
            }
        }
        self.count = count + 1;
        assert(self.pending() =~= rest(ready));
        child
    }

    /// The next derangement, or `None` when all have come.
    pub fn next(&mut self) -> (arrangement: Option<Vec<usize>>)
        requires
            old(self).wf(),
        ensures
            final(self).wf(),
            final(self).size() == old(self).size(),
            arrangement is None <==> old(self).pending().len() == 0,
            arrangement matches Some(a) ==> a@ == old(self).pending()[0] && is_derangement(a@)
                && a@.len() == old(self).size(),
            final(self).pending() == rest(old(self).pending()),
        decreases old(self).size(), 1nat,
    {
        if self.n == 0 {
            if self.lag1_done {
                return None;
            }
            self.lag1_done = true;
            let empty: Vec<usize> = Vec::new();
            assert(empty@ =~= Seq::<usize>::empty());
            assert(rest(old(self).pending()) =~= self.pending());
            return Some(empty);
        }
        if self.n == 1 {
            return None;
        }
        if self.init {
            self.init = false;
            self.lag = Some(Box::new(derangements_by_range(self.n - 1)));
            assert(self.pending() =~= old(self).pending());
        }
        if self.count == self.n - 1 {
            if !self.refill() {
                return None;
            }
        }
        Some(self.make_child())
    }
}

/// What pairing the next derangement from a parent in work gives, and what it
/// leaves: the derangement paired from the unraised parent at the next
/// position, found by raising the one value that is the number of that
/// position; after it, the derangements paired from the parent so raised.
proof fn lemma_paired_step(base: Seq<usize>, current: Seq<usize>, done: int)
    requires
        is_derangement(base),
        base.len() + 2 <= usize::MAX,
        0 <= done <= base.len(),
        current == raised(base, base.len() as int + 1 - done, base.len() as int + 1),
    ensures
        paired_from(current, done)[0] == paired(base, base.len() as int - done),
        done > 0 ==> exists|i: int|
            0 <= i < current.len() && current[i] == base.len() as int - done,
        forall|j: int|
            0 <= j < current.len() && current[j] == base.len() as int - done
                ==> #[trigger] current.update(j, (base.len() as int - done + 1) as usize) == raised(
                base,
                base.len() as int - done,
                base.len() as int + 1,
            ),
        done == 0 ==> current == raised(base, base.len() as int - done, base.len() as int + 1),
        rest(paired_from(current, done)) == if done < base.len() {
            paired_from(raised(base, base.len() as int - done, base.len() as int + 1), done + 1)
        } else {
            Seq::<Seq<usize>>::empty()
        },
{
    let m = base.len() as int;
    let k = m - done;
    let next = raised(base, k, m + 1);
    assert(raised(current, k, k + 1) =~= next);
    if done > 0 {
        assert(base.contains(k as usize));
        let i = choose|i: int| 0 <= i < base.len() && base[i] == k as usize;
        assert(current[i] == k);
    } else {
        assert(current =~= next);
    }
    assert forall|j: int|
        0 <= j < current.len() && current[j] == k implies #[trigger] current.update(
        j,
        (k + 1) as usize,
    ) == next by {
        assert forall|i: int| 0 <= i < current.len() implies current.update(j, (k + 1) as usize)[i]
            == next[i] by {
            if i != j && current[i] == k {
                if i < j {
                    assert(base[i] != base[j]);
                } else {
                    assert(base[j] != base[i]);
                }
            }
        }
        assert(current.update(j, (k + 1) as usize) =~= next);
    }
    if done < m {
        let later = paired_from(next, done + 1);
        let mine = rest(paired_from(current, done));
        assert(mine.len() == later.len());
        assert forall|j: int| 0 <= j < later.len() implies mine[j] == later[j] by {
            let kj = m - done - 1 - j;
            assert(raised(current, kj, k + 1) =~= raised(next, kj, k));
        }
        assert(mine =~= later);
    } else {
        assert(rest(paired_from(current, done)) =~= Seq::<Seq<usize>>::empty());
    }
}

} // verus!
