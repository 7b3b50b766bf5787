//! Labellings: the orderings of the positions of a sequence, by which a
//! generator by position arranges its items.

use crate::counting::{
    last_position, lemma_last_position, lemma_repeats_of_rearrangement, lemma_repeats_remove,
    occurrences, repeats,
};
use crate::fast_permutations::{arranged, countdown};
use vstd::prelude::*;
use vstd::relations::injective_on;
use vstd::seq_lib::{to_multiset_build, to_multiset_contains, to_multiset_remove};
use vstd::set_lib::{lemma_map_size, lemma_set_disjoint_lens};

verus! {

/// Sequences that hold the same elements, each of them once, are
/// rearrangements of one another.
pub proof fn lemma_same_elements_once<A>(a: Seq<A>, b: Seq<A>)
    requires
        a.no_duplicates(),
        b.no_duplicates(),
        forall|x: A| a.contains(x) <==> b.contains(x),
    ensures
        a.to_multiset() == b.to_multiset(),
{
    a.lemma_multiset_has_no_duplicates();
    b.lemma_multiset_has_no_duplicates();
    assert forall|x: A| a.to_multiset().count(x) == b.to_multiset().count(x) by {
        to_multiset_contains(a, x);
        to_multiset_contains(b, x);
    }
    assert(a.to_multiset() =~= b.to_multiset());
}

/// A rearrangement of a sequence without repeated elements has none either,
/// and holds the same elements.
pub proof fn lemma_rearrangement_of_distinct(a: Seq<usize>, b: Seq<usize>)
    requires
        a.no_duplicates(),
        a.to_multiset() == b.to_multiset(),
    ensures
        b.no_duplicates(),
        b.len() == a.len(),
        forall|x: usize| a.contains(x) <==> b.contains(x),
{
    a.lemma_multiset_has_no_duplicates();
    b.lemma_multiset_has_no_duplicates_conv();
    a.to_multiset_ensures();
    b.to_multiset_ensures();
    assert forall|x: usize| a.contains(x) <==> b.contains(x) by {
        to_multiset_contains(a, x);
        to_multiset_contains(b, x);
    }
}

/// The labels of `n` items: each number below `n`, once.
pub open spec fn is_labelling(labels: Seq<usize>, n: nat) -> bool {
    &&& labels.len() == n
    &&& forall|j: int| 0 <= j < labels.len() ==> labels[j] < n
    &&& labels.no_duplicates()
    &&& forall|l: usize| l < n ==> #[trigger] labels.contains(l)
}

/// The labellings of `n` items are the rearrangements of `n - 1` down to `0`.
pub proof fn lemma_labelling_is_rearrangement(labels: Seq<usize>, n: nat)
    requires
        n <= usize::MAX,
    ensures
        is_labelling(labels, n) <==> labels.to_multiset() == countdown(n).to_multiset(),
{
    let down = countdown(n);
    assert(is_labelling(down, n)) by {
        assert forall|l: usize| l < n implies #[trigger] down.contains(l) by {
            assert(down[n - 1 - l] == l);
        }
    }
    if is_labelling(labels, n) {
        assert forall|x: usize| labels.contains(x) <==> down.contains(x) by {
            if down.contains(x) {
                assert(labels.contains(x));
            }
        }
        lemma_same_elements_once(labels, down);
    }
    if labels.to_multiset() == down.to_multiset() {
        lemma_rearrangement_of_distinct(down, labels);
        assert forall|j: int| 0 <= j < labels.len() implies labels[j] < n by {
            assert(labels.contains(labels[j]));
            assert(down.contains(labels[j]));
        }
        assert forall|l: usize| l < n implies #[trigger] labels.contains(l) by {
            assert(down.contains(l));
        }
    }
}

/// The labelling of one more item in which the new item, the last to be
/// arranged, has the label `room`: the labels of `inner` from `room` on make
/// room for it.
pub open spec fn with_label(inner: Seq<usize>, room: usize) -> Seq<usize> {
    Seq::new(
        inner.len() + 1,
        |j: int|
            if j == inner.len() {
                room
            } else if inner[j] >= room {
                (inner[j] + 1) as usize
            } else {
                inner[j]
            },
    )
}

/// The labelling of one item less that `labels` comes from by `with_label`.
pub open spec fn without_label(labels: Seq<usize>) -> Seq<usize> {
    Seq::new(
        (labels.len() - 1) as nat,
        |j: int|
            if labels[j] > labels.last() {
                (labels[j] - 1) as usize
            } else {
                labels[j]
            },
    )
}

/// A labelling with one more label is a labelling, arranges the item at the
/// place of the new label last and the others as before, and gives back the
/// labelling that it was made from.
pub proof fn lemma_with_label(source: Seq<usize>, i: int, inner: Seq<usize>)
    requires
        0 <= i < source.len() <= usize::MAX,
        is_labelling(inner, (source.len() - 1) as nat),
    ensures
        is_labelling(with_label(inner, (source.len() - 1 - i) as usize), source.len()),
        arranged(source, with_label(inner, (source.len() - 1 - i) as usize)) == arranged(
            source.remove(i),
            inner,
        ).push(source[i]),
        without_label(with_label(inner, (source.len() - 1 - i) as usize)) == inner,
{
    let n = source.len() as int;
    let room = (n - 1 - i) as usize;
    let labels = with_label(inner, room);
    assert forall|j: int, l: int| 0 <= j < labels.len() && 0 <= l < labels.len() && j
        != l implies labels[j] != labels[l] by {
        if j < n - 1 && l < n - 1 {
            assert(inner[j] != inner[l]);
        }
    }
    assert forall|l: usize| l < n implies #[trigger] labels.contains(l) by {
        if l == room {
            assert(labels[n - 1] == l);
        } else {
            let below: usize = if l < room {
                l
            } else {
                (l - 1) as usize
            };
            assert(inner.contains(below));
            let j = choose|j: int| 0 <= j < inner.len() && inner[j] == below;
            assert(labels[j] == l);
        }
    }
    assert(arranged(source, labels) =~= arranged(source.remove(i), inner).push(source[i]));
    assert(without_label(labels) =~= inner);
}

/// A labelling of one item or more comes by `with_label` from a labelling of
/// one item less, which arranges the other items as it did.
pub proof fn lemma_without_label(source: Seq<usize>, labels: Seq<usize>)
    requires
        1 <= source.len() <= usize::MAX,
        is_labelling(labels, source.len()),
    ensures
        is_labelling(without_label(labels), (source.len() - 1) as nat),
        with_label(without_label(labels), labels.last()) == labels,
        arranged(source.remove(source.len() - 1 - labels.last()), without_label(labels))
            == arranged(source, labels).drop_last(),
{
    let n = source.len() as int;
    let room = labels.last();
    let inner = without_label(labels);
    assert forall|j: int| 0 <= j < inner.len() implies inner[j] < n - 1 by {
        assert(labels[j] != labels[n - 1]);
    }
    assert forall|j: int, l: int| 0 <= j < inner.len() && 0 <= l < inner.len() && j
        != l implies inner[j] != inner[l] by {
        assert(labels[j] != labels[l]);
        assert(labels[j] != labels[n - 1]);
        assert(labels[l] != labels[n - 1]);
    }
    assert forall|l: usize| l < n - 1 implies #[trigger] inner.contains(l) by {
        let above: usize = if l >= room {
            (l + 1) as usize
        } else {
            l
        };
        assert(labels.contains(above));
        let j = choose|j: int| 0 <= j < labels.len() && labels[j] == above;
        assert(inner[j] == l);
    }
    assert forall|j: int| 0 <= j < n - 1 implies with_label(inner, room)[j] == labels[j] by {
        assert(labels[j] != labels[n - 1]);
    }
    assert(with_label(inner, room) =~= labels);
    assert forall|j: int| 0 <= j < n - 1 implies arranged(
        source.remove(n - 1 - room),
        inner,
    )[j] == arranged(source, labels)[j] by {
        assert(labels[j] != labels[n - 1]);
    }
    assert(arranged(source.remove(n - 1 - room), inner) =~= arranged(source, labels).drop_last());
}

/// Every rearrangement of `source` is `source` arranged by some labelling.
pub proof fn lemma_labelling_exists(source: Seq<usize>, a: Seq<usize>) -> (labels: Seq<usize>)
    requires
        source.to_multiset() == a.to_multiset(),
        source.len() <= usize::MAX,
    ensures
        is_labelling(labels, source.len()),
        arranged(source, labels) == a,
    decreases a.len(),
{
    source.to_multiset_ensures();
    a.to_multiset_ensures();
    let n = a.len() as int;
    if n == 0 {
        let labels = Seq::<usize>::empty();
        assert(arranged(source, labels) =~= a);
        labels
    } else {
        let v = a.last();
        to_multiset_contains(source, v);
        to_multiset_contains(a, v);
        assert(a.contains(v)) by {
            assert(a[n - 1] == v);
        }
        let i = choose|i: int| 0 <= i < source.len() && source[i] == v;
        to_multiset_remove(source, i);
        to_multiset_remove(a, n - 1);
        assert(a.remove(n - 1) =~= a.drop_last());
        let inner = lemma_labelling_exists(source.remove(i), a.drop_last());
        lemma_with_label(source, i, inner);
        assert(a.drop_last().push(v) =~= a);
        with_label(inner, (n - 1 - i) as usize)
    }
}

/// Different labellings arrange a sequence without repeated elements
/// differently.
pub proof fn lemma_arranged_injective(source: Seq<usize>, first: Seq<usize>, second: Seq<usize>)
    requires
        source.no_duplicates(),
        is_labelling(first, source.len()),
        is_labelling(second, source.len()),
        arranged(source, first) == arranged(source, second),
    ensures
        first == second,
{
    let n = source.len() as int;
    assert forall|j: int| 0 <= j < n implies first[j] == second[j] by {
        assert(arranged(source, first)[j] == arranged(source, second)[j]);
        let x = n - 1 - first[j];
        let y = n - 1 - second[j];
        assert(0 <= x < n && 0 <= y < n);
        assert(arranged(source, first)[j] == source[x]);
        assert(arranged(source, second)[j] == source[y]);
        if x != y {
            assert(source[x] != source[y]);
        }
    }
    assert(first =~= second);
}

/// The labellings by which `source` is arranged as `a`.
pub open spec fn fibre(source: Seq<usize>, a: Seq<usize>) -> Set<Seq<usize>> {
    Set::new(
        |labels: Seq<usize>|
            is_labelling(labels, source.len()) && arranged(source, labels) == a,
    )
}

/// Those of them that arrange the item at `i` last.
pub open spec fn fibre_at(source: Seq<usize>, a: Seq<usize>, i: int) -> Set<Seq<usize>> {
    Set::new(
        |labels: Seq<usize>|
            fibre(source, a).contains(labels) && labels.len() > 0 && source.len() - 1
                - labels.last() == i,
    )
}

/// Those of them that arrange one of the first `j` items last.
pub open spec fn fibre_up_to(source: Seq<usize>, a: Seq<usize>, j: int) -> Set<Seq<usize>> {
    Set::new(
        |labels: Seq<usize>|
            fibre(source, a).contains(labels) && labels.len() > 0 && source.len() - 1
                - labels.last() < j,
    )
}

/// As many labellings arrange `source` as `a` with the item at `i` last as
/// arrange the other items as `a` without its last.
proof fn lemma_fibre_at(source: Seq<usize>, a: Seq<usize>, i: int)
    requires
        0 <= i < source.len() <= usize::MAX,
        a.len() == source.len(),
        a.last() == source[i],
        fibre(source.remove(i), a.drop_last()).finite(),
    ensures
        fibre_at(source, a, i).finite(),
        fibre_at(source, a, i).len() == fibre(source.remove(i), a.drop_last()).len(),
{
    let n = source.len() as int;
    let room = (n - 1 - i) as usize;
    let from = fibre(source.remove(i), a.drop_last());
    let onto = fibre_at(source, a, i);
    let lift = |inner: Seq<usize>| with_label(inner, room);
    assert forall|x: Seq<usize>, y: Seq<usize>|
        from.contains(x) && from.contains(y) && #[trigger] lift(x) == #[trigger] lift(
            y,
        ) implies x == y by {
        lemma_with_label(source, i, x);
        lemma_with_label(source, i, y);
    }
    assert(injective_on(lift, from));
    assert forall|labels: Seq<usize>| from.map(lift).contains(labels) <==> onto.contains(
        labels,
    ) by {
        if from.map(lift).contains(labels) {
            let inner = choose|inner: Seq<usize>| from.contains(inner) && labels == lift(inner);
            lemma_with_label(source, i, inner);
            assert(a.drop_last().push(a.last()) =~= a);
        }
        if onto.contains(labels) {
            lemma_without_label(source, labels);
            let inner = without_label(labels);
            assert(from.contains(inner) && labels == lift(inner));
        }
    }
    assert(from.map(lift) =~= onto);
    lemma_map_size(from, onto, lift);
}

/// The labellings that arrange `source` as `a` with one of the first `j`
/// items last are as many as the last value of `a` stands among those items,
/// times the number `each` of labellings that arrange the items without one
/// of that value.
proof fn lemma_fibre_up_to(source: Seq<usize>, a: Seq<usize>, j: int, each: nat)
    requires
        1 <= source.len() <= usize::MAX,
        a.to_multiset() == source.to_multiset(),
        0 <= j <= source.len(),
        forall|i: int|
            0 <= i < source.len() && source[i] == a.last() ==> fibre(
                #[trigger] source.remove(i),
                a.drop_last(),
            ).finite() && fibre(source.remove(i), a.drop_last()).len() == each,
    ensures
        fibre_up_to(source, a, j).finite(),
        fibre_up_to(source, a, j).len() == occurrences(source.take(j), a.last()) * each,
    decreases j,
{
    broadcast use vstd::multiset::group_multiset_axioms;

    source.to_multiset_ensures();
    a.to_multiset_ensures();
    let v = a.last();
    if j == 0 {
        assert(fibre_up_to(source, a, 0) =~= Set::<Seq<usize>>::empty());
        assert(source.take(0) =~= Seq::<usize>::empty());
        source.take(0).to_multiset_ensures();
        assert(source.take(0).to_multiset() =~= vstd::multiset::Multiset::empty());
        assert(0 * each == 0) by (nonlinear_arith);
    } else {
        let i = j - 1;
        let before = fibre_up_to(source, a, i);
        let now = fibre_up_to(source, a, j);
        lemma_fibre_up_to(source, a, i, each);
        assert(source.take(j) =~= source.take(i).push(source[i]));
        to_multiset_build(source.take(i), source[i]);
        let so_far = occurrences(source.take(i), v);
        if source[i] == v {
            let block = fibre_at(source, a, i);
            assert(fibre(source.remove(i), a.drop_last()).finite());
            lemma_fibre_at(source, a, i);
            assert(now =~= before + block);
            assert(before.disjoint(block));
            lemma_set_disjoint_lens(before, block);
            assert((so_far + 1) * each == so_far * each + each) by (nonlinear_arith);
        } else {
            assert forall|labels: Seq<usize>| now.contains(labels) implies before.contains(
                labels,
            ) by {
                let at = source.len() - 1 - labels.last();
                assert(arranged(source, labels)[source.len() - 1] == source[at]);
            }
            assert(now =~= before);
        }
    }
}

/// As many labellings arrange `source` as one of its rearrangements as the
/// product of the factorials of how often each value stands in it.
pub proof fn lemma_fibre(source: Seq<usize>, a: Seq<usize>)
    requires
        source.len() <= usize::MAX,
        a.to_multiset() == source.to_multiset(),
    ensures
        fibre(source, a).finite(),
        fibre(source, a).len() == repeats(source),
    decreases source.len(),
{
    broadcast use vstd::set::group_set_axioms;

    source.to_multiset_ensures();
    a.to_multiset_ensures();
    let n = source.len() as int;
    let all = fibre(source, a);
    if n == 0 {
        let none = Seq::<usize>::empty();
        assert forall|labels: Seq<usize>| all.contains(labels) <==> labels == none by {
            if all.contains(labels) {
                assert(labels =~= none);
            }
            if labels == none {
                assert(arranged(source, none) =~= a);
            }
        }
        assert(all =~= Set::<Seq<usize>>::empty().insert(none));
    } else {
        let v = a.last();
        to_multiset_contains(source, v);
        to_multiset_contains(a, v);
        assert(a.contains(v)) by {
            assert(a[n - 1] == v);
        }
        let q = last_position(source, v, n);
        lemma_last_position(source, v, n);
        let each = repeats(source.remove(q));
        to_multiset_remove(a, n - 1);
        assert(a.remove(n - 1) =~= a.drop_last());
        assert forall|i: int| 0 <= i < source.len() && source[i] == v implies fibre(
            #[trigger] source.remove(i),
            a.drop_last(),
        ).finite() && fibre(source.remove(i), a.drop_last()).len() == each by {
            to_multiset_remove(source, i);
            to_multiset_remove(source, q);
            lemma_fibre(source.remove(i), a.drop_last());
            lemma_repeats_of_rearrangement(source.remove(i), source.remove(q));
        }
        lemma_fibre_up_to(source, a, n, each);
        assert(source.take(n) =~= source);
        assert(fibre_up_to(source, a, n) =~= all);
        lemma_repeats_remove(source, q);
        assert(occurrences(source, v) * each == each * occurrences(source, v))
            by (nonlinear_arith);
    }
}

/// The positions at which `a` stands in `all`.
pub open spec fn positions_of<A>(all: Seq<A>, a: A) -> Set<int> {
    Set::new(|i: int| 0 <= i < all.len() && all[i] == a)
}

/// An element stands in a sequence as often as it has positions there.
pub proof fn lemma_positions_of<A>(all: Seq<A>, a: A)
    ensures
        positions_of(all, a).finite(),
        positions_of(all, a).len() == all.to_multiset().count(a),
    decreases all.len(),
{
    broadcast use vstd::multiset::group_multiset_axioms;
    broadcast use vstd::set::group_set_axioms;

    if all.len() == 0 {
        all.to_multiset_ensures();
        assert(all.to_multiset() =~= vstd::multiset::Multiset::empty());
        assert(positions_of(all, a) =~= Set::<int>::empty());
    } else {
        let shorter = all.drop_last();
        let last = all.len() - 1;
        lemma_positions_of(shorter, a);
        assert(shorter.push(all.last()) =~= all);
        to_multiset_build(shorter, all.last());
        if all.last() == a {
            assert(positions_of(all, a) =~= positions_of(shorter, a).insert(last));
        } else {
            assert(positions_of(all, a) =~= positions_of(shorter, a));
        }
    }
}

} // verus!
