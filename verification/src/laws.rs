//! What holds of the generators as a whole: which arrangements come, how
//! often, and how the rules and the lengths relate.

use crate::counting::{
    factorial, lemma_no_repeats, lemma_order_len, lemma_repeats_of_rearrangement, repeats,
};
use crate::derangements_range::{
    derangements_of, is_derangement, lemma_derangements_of_complete,
    lemma_derangements_of_distinct, lemma_derangements_of_len, lemma_derangements_of_sound,
    subfactorial,
};
use crate::exclusion::{kept, Exclusion};
use crate::fast_permutations::{
    arranged, carried, carried_along, countdown, lemma_carried_along_arranged,
    lemma_carried_along_self, ShiftState,
};
use crate::labelling::{
    fibre, lemma_arranged_injective, lemma_fibre, lemma_labelling_exists,
    lemma_labelling_is_rearrangement, lemma_positions_of, lemma_rearrangement_of_distinct,
    lemma_same_elements_once, positions_of,
};
use crate::shift_order::{
    advance, lemma_advance_rearranges, lemma_order_has_no_repeats, lemma_order_holds_all,
    lemma_prefix_shift_rearranges, lemma_shift_position_in_range, order_len, place_of,
    successor,
};
use crate::sorted::{
    ascending, descending, lemma_ascending, lemma_descending, lemma_sorted_of_rearrangement,
};
use vstd::prelude::*;
use vstd::relations::injective_on;
use vstd::set_lib::lemma_map_size;

verus! {

/// The arrangements that a rule keeps are those that it accepts, as often as
/// they were there: each of them once, where each of all came once.
pub proof fn lemma_kept_are_the_accepted(all: Seq<Seq<usize>>, rule: Exclusion)
    ensures
        forall|a: Seq<usize>| #[trigger]
            kept(all, rule).contains(a) <==> all.contains(a) && rule.accepts(a),
        all.no_duplicates() ==> kept(all, rule).no_duplicates(),
    decreases all.len(),
{
    let mine = kept(all, rule);
    if all.len() > 0 {
        let head = all[0];
        let tail = all.skip(1);
        let theirs = kept(tail, rule);
        lemma_kept_are_the_accepted(tail, rule);
        let shift: int = if rule.accepts(head) {
            1
        } else {
            0
        };
        assert(forall|j: int| 0 <= j < theirs.len() ==> mine[j + shift] == theirs[j]);
        assert forall|a: Seq<usize>| #[trigger]
            mine.contains(a) <==> all.contains(a) && rule.accepts(a) by {
            if mine.contains(a) {
                let i = choose|i: int| 0 <= i < mine.len() && mine[i] == a;
                if i < shift {
                    assert(all[0] == a);
                } else {
                    assert(theirs[i - shift] == a);
                    assert(theirs.contains(a));
                    let j = choose|j: int| 0 <= j < tail.len() && tail[j] == a;
                    assert(all[j + 1] == a);
                }
            }
            if all.contains(a) && rule.accepts(a) {
                let i = choose|i: int| 0 <= i < all.len() && all[i] == a;
                if i == 0 {
                    assert(mine[0] == a);
                } else {
                    assert(tail[i - 1] == a);
                    assert(theirs.contains(a));
                    let j = choose|j: int| 0 <= j < theirs.len() && theirs[j] == a;
                    assert(mine[j + shift] == a);
                }
            }
        }
        if all.no_duplicates() {
            assert(tail.no_duplicates()) by {
                assert forall|i: int, j: int|
                    0 <= i < tail.len() && 0 <= j < tail.len() && i != j implies tail[i]
                    != tail[j] by {
                    assert(all[i + 1] != all[j + 1]);
                }
            }
            assert forall|i: int, j: int|
                0 <= i < mine.len() && 0 <= j < mine.len() && i != j implies mine[i]
                != mine[j] by {
                if i >= shift && j >= shift {
                    assert(theirs[i - shift] != theirs[j - shift]);
                } else {
                    let other = if i < shift {
                        j
                    } else {
                        i
                    };
                    assert(theirs[other - shift] == mine[other]);
                    assert(theirs.contains(mine[other]));
                    assert(tail.contains(mine[other]));
                    let t = choose|t: int| 0 <= t < tail.len() && tail[t] == mine[other];
                    assert(all[t + 1] != all[0]);
                }
            }
        }
    }
}

/// The distinct permutations of `items`, as a generator by value gives them:
/// the rearrangements of `items` in the order of prefix shifts, beginning with
/// the non-increasing one.  Each is a rearrangement of `items`, none comes
/// twice, and every rearrangement of `items` is among them.
pub proof fn lemma_distinct_permutations(items: Seq<usize>)
    ensures
        ShiftState::by_value(items).pending().len() == order_len(descending(items)),
        forall|i: int|
            0 <= i < ShiftState::by_value(items).pending().len()
                ==> #[trigger] ShiftState::by_value(items).pending()[i] == advance(
                descending(items),
                i as nat,
            ),
        forall|i: int|
            0 <= i < ShiftState::by_value(items).pending().len() ==> (
            #[trigger] ShiftState::by_value(items).pending()[i]).to_multiset()
                == items.to_multiset(),
        ShiftState::by_value(items).pending().no_duplicates(),
        forall|a: Seq<usize>|
            a.to_multiset() == items.to_multiset() ==> #[trigger] ShiftState::by_value(
                items,
            ).pending().contains(a),
{
    let first = descending(items);
    let state = ShiftState::by_value(items);
    let all = state.pending();
    lemma_descending(items);
    crate::shift_order::lemma_exhausted_iff(first);
    assert forall|i: int| 0 <= i < all.len() implies #[trigger] all[i] == advance(
        first,
        i as nat,
    ) && all[i].to_multiset() == items.to_multiset() by {
        lemma_advance_rearranges(first, i as nat);
        if items.len() > 0 {
            state.lemma_pending_of_fresh(i);
            lemma_carried_along_self(first, i as nat);
            assert(advance(first, i as nat).take(items.len() as int) =~= advance(first, i as nat));
        } else {
            assert(i == 0);
            reveal_with_fuel(ShiftState::after, 2);
            assert(all[0] =~= advance(first, 0));
        }
    }
    if items.len() > 0 {
        state.lemma_pending_of_fresh(0);
    }
    assert(all.len() == order_len(first));
    assert forall|i: int, j: int| 0 <= i < all.len() && 0 <= j < all.len() && i != j implies all[i]
        != all[j] by {
        if i < j {
            lemma_order_has_no_repeats(first, i as nat, j as nat);
        } else {
            lemma_order_has_no_repeats(first, j as nat, i as nat);
        }
    }
    assert forall|a: Seq<usize>|
        a.to_multiset() == items.to_multiset() implies #[trigger] all.contains(a) by {
        lemma_order_holds_all(first, a);
        assert(all[place_of(a, first) as int] == a);
    }
}

/// Values that move with labels stay a rearrangement of what they were.
pub proof fn lemma_carried_along_rearranges(labels: Seq<usize>, values: Seq<usize>, steps: nat)
    requires
        labels.len() == values.len(),
    ensures
        carried_along(labels, values, steps).len() == values.len(),
        carried_along(labels, values, steps).to_multiset() == values.to_multiset(),
    decreases steps,
{
    if steps > 0 {
        if labels.len() >= 2 {
            lemma_shift_position_in_range(labels);
            lemma_prefix_shift_rearranges(values, crate::shift_order::shift_position(
                labels,
                crate::shift_order::cursor(labels),
            ));
        }
        crate::shift_order::lemma_successor_rearranges(labels);
        lemma_carried_along_rearranges(
            successor(labels),
            carried(labels, values),
            (steps - 1) as nat,
        );
    }
}

/// The arrangements that a generator by position gives: as many as there are
/// orderings of the positions, and each the first `k` of the sorted items in
/// one of those orderings, which follow one another as prefix shifts say.
pub proof fn lemma_permutations_by_position(items: Seq<usize>, k: nat)
    requires
        0 < k <= items.len() <= usize::MAX,
    ensures
        ShiftState::by_position(items, k).pending().len() == order_len(countdown(items.len())),
        forall|i: int|
            0 <= i < ShiftState::by_position(items, k).pending().len()
                ==> #[trigger] ShiftState::by_position(items, k).pending()[i] == arranged(
                ascending(items),
                advance(countdown(items.len()), i as nat),
            ).take(k as int),
{
    let n = items.len();
    let labels = countdown(n);
    let source = ascending(items);
    let state = ShiftState::by_position(items, k);
    lemma_ascending(items);
    assert(arranged(source, labels) =~= source);
    state.lemma_pending_of_fresh(0);
    assert forall|i: int| 0 <= i < state.pending().len() implies #[trigger] state.pending()[i]
        == arranged(source, advance(labels, i as nat)).take(k as int) by {
        state.lemma_pending_of_fresh(i);
        lemma_carried_along_arranged(source, labels, i as nat);
    }
}

/// The permutations of `items` at full length, as a generator by position
/// gives them.  Each is a rearrangement of `items`, and every rearrangement
/// of `items` is among them; it comes once for each ordering of the positions
/// that gives it, so once where no two items are equal.
pub proof fn lemma_full_permutations(items: Seq<usize>)
    requires
        items.len() <= usize::MAX,
    ensures
        forall|i: int|
            0 <= i < ShiftState::by_position(items, items.len()).pending().len() ==> (
            #[trigger] ShiftState::by_position(items, items.len()).pending()[i]).to_multiset()
                == items.to_multiset(),
        forall|a: Seq<usize>|
            a.to_multiset() == items.to_multiset() ==> #[trigger] ShiftState::by_position(
                items,
                items.len(),
            ).pending().contains(a),
        items.no_duplicates() ==> ShiftState::by_position(
            items,
            items.len(),
        ).pending().no_duplicates(),
{
    let n = items.len();
    let labels = countdown(n);
    let source = ascending(items);
    let state = ShiftState::by_position(items, n);
    let all = state.pending();
    lemma_ascending(items);
    if n == 0 {
        reveal_with_fuel(ShiftState::after, 2);
        assert(all.len() == 1);
        assert(all[0] =~= Seq::<usize>::empty());
        assert forall|a: Seq<usize>|
            a.to_multiset() == items.to_multiset() implies #[trigger] all.contains(a) by {
            a.to_multiset_ensures();
            items.to_multiset_ensures();
            assert(a =~= all[0]);
        }
        assert(all[0] =~= items);
    } else {
        lemma_permutations_by_position(items, n);
        lemma_labelling_is_rearrangement(labels, n);
        assert forall|i: int| 0 <= i < all.len() implies (#[trigger] all[i]).to_multiset()
            == items.to_multiset() by {
            state.lemma_pending_of_fresh(i);
            lemma_carried_along_rearranges(labels, source, i as nat);
            let whole = carried_along(labels, source, i as nat);
            assert(whole.take(n as int) =~= whole);
        }
        assert forall|a: Seq<usize>|
            a.to_multiset() == items.to_multiset() implies #[trigger] all.contains(a) by {
            let chosen = lemma_labelling_exists(source, a);
            lemma_labelling_is_rearrangement(chosen, n);
            lemma_order_holds_all(labels, chosen);
            let place = place_of(chosen, labels) as int;
            assert(all[place] == arranged(source, chosen).take(n as int));
            assert(arranged(source, chosen).take(n as int) =~= a);
        }
        if items.no_duplicates() {
            lemma_rearrangement_of_distinct(items, source);
            assert forall|i: int, j: int|
                0 <= i < all.len() && 0 <= j < all.len() && i != j implies all[i] != all[j] by {
                let first = advance(labels, i as nat);
                let second = advance(labels, j as nat);
                lemma_advance_rearranges(labels, i as nat);
                lemma_advance_rearranges(labels, j as nat);
                lemma_labelling_is_rearrangement(first, n);
                lemma_labelling_is_rearrangement(second, n);
                if i < j {
                    lemma_order_has_no_repeats(labels, i as nat, j as nat);
                } else {
                    lemma_order_has_no_repeats(labels, j as nat, i as nat);
                }
                assert(arranged(source, first).take(n as int) =~= arranged(source, first));
                assert(arranged(source, second).take(n as int) =~= arranged(source, second));
                if all[i] == all[j] {
                    lemma_arranged_injective(source, first, second);
                }
            }
        }
    }
}

/// At a length below that of `items`, a generator by position gives as many
/// arrangements as at full length, and each is the beginning of the one that
/// comes at its place at full length: cutting short leaves nothing out and
/// joins nothing.
pub proof fn lemma_prefixes_of_permutations(items: Seq<usize>, k: nat)
    requires
        0 < k <= items.len() <= usize::MAX,
    ensures
        ShiftState::by_position(items, k).pending().len() == ShiftState::by_position(
            items,
            items.len(),
        ).pending().len(),
        forall|i: int|
            0 <= i < ShiftState::by_position(items, k).pending().len()
                ==> #[trigger] ShiftState::by_position(items, k).pending()[i]
                == ShiftState::by_position(items, items.len()).pending()[i].take(k as int),
{
    let short = ShiftState::by_position(items, k);
    let full = ShiftState::by_position(items, items.len());
    lemma_permutations_by_position(items, k);
    lemma_permutations_by_position(items, items.len());
    assert forall|i: int| 0 <= i < short.pending().len() implies #[trigger] short.pending()[i]
        == full.pending()[i].take(k as int) by {
        let whole = arranged(ascending(items), advance(countdown(items.len()), i as nat));
        lemma_advance_rearranges(countdown(items.len()), i as nat);
        assert(whole.take(items.len() as int).take(k as int) =~= whole.take(k as int));
    }
}

/// Generators of rearranged items are in the same state, and so give the same
/// arrangements in the same order; two generators of the same items do.
pub proof fn lemma_same_items_same_arrangements(a: Seq<usize>, b: Seq<usize>, k: nat)
    requires
        a.to_multiset() == b.to_multiset(),
    ensures
        ShiftState::by_position(a, k) == ShiftState::by_position(b, k),
        ShiftState::by_position(a, k).pending() == ShiftState::by_position(b, k).pending(),
        ShiftState::by_value(a) == ShiftState::by_value(b),
        ShiftState::by_value(a).pending() == ShiftState::by_value(b).pending(),
{
    a.to_multiset_ensures();
    b.to_multiset_ensures();
    lemma_sorted_of_rearrangement(a, b);
}

/// At length zero a generator gives the empty arrangement, once, whatever the
/// items; so does a generator of the permutations of no items.
pub proof fn lemma_length_zero(items: Seq<usize>)
    ensures
        ShiftState::by_position(items, 0).pending() == seq![Seq::<usize>::empty()],
        ShiftState::by_value(Seq::empty()).pending() == seq![Seq::<usize>::empty()],
{
    reveal_with_fuel(ShiftState::after, 2);
    let by_position = ShiftState::by_position(items, 0);
    let one = seq![Seq::<usize>::empty()];
    assert(by_position.pending().len() == 1);
    assert(by_position.pending()[0] =~= one[0]);
    assert(by_position.pending() =~= one);
    let none = Seq::<usize>::empty();
    let by_value = ShiftState::by_value(none);
    lemma_descending(none);
    assert(by_value.k == 0);
    assert(by_value.pending().len() == 1);
    assert(by_value.pending()[0] =~= one[0]);
    assert(by_value.pending() =~= one);
}

/// The derangements of no numbers are the empty one; one number has none.
pub proof fn lemma_smallest_ranges()
    ensures
        derangements_of(0) == seq![Seq::<usize>::empty()],
        derangements_of(1) == Seq::<Seq<usize>>::empty(),
{
}

/// The map by position excludes a value from a position exactly where the
/// map by value does.
pub open spec fn transposed(
    by_position: Map<usize, Seq<usize>>,
    by_value: Map<usize, Seq<usize>>,
) -> bool {
    forall|position: usize, value: usize|
        #![trigger by_position[position].contains(value)]
        #![trigger by_value[value].contains(position)]
        (by_position.contains_key(position) && by_position[position].contains(value)) <==> (
        by_value.contains_key(value) && by_value[value].contains(position))
}

/// A map by position and a map by value that exclude the same values from the
/// same positions accept the same arrangements, and so keep the same of any
/// sequence of arrangements, in the same order.
pub proof fn lemma_transposed_maps_agree(
    all: Seq<Seq<usize>>,
    by_position: Map<usize, Seq<usize>>,
    by_value: Map<usize, Seq<usize>>,
)
    requires
        transposed(by_position, by_value),
    ensures
        forall|a: Seq<usize>|
            Exclusion::ByPosition(by_position).accepts(a) <==> Exclusion::ByValue(by_value).accepts(
                a,
            ),
        kept(all, Exclusion::ByPosition(by_position)) == kept(all, Exclusion::ByValue(by_value)),
    decreases all.len(),
{
    let one = Exclusion::ByPosition(by_position);
    let other = Exclusion::ByValue(by_value);
    assert forall|a: Seq<usize>| one.accepts(a) <==> other.accepts(a) by {
        assert forall|i: int| 0 <= i < a.len() implies (one.excludes(i, a[i]) <==> other.excludes(
            i,
            a[i],
        )) by {
            let position = #[verifier::truncate]
            (i as usize);
            let value = a[i];
            if by_position.contains_key(position) && by_position[position].contains(value) {
                assert(by_value.contains_key(value) && by_value[value].contains(position));
            }
            if by_value.contains_key(value) && by_value[value].contains(position) {
                assert(by_position.contains_key(position) && by_position[position].contains(value));
            }
        }
    }
    if all.len() > 0 {
        lemma_transposed_maps_agree(all.skip(1), by_position, by_value);
    }
}

/// The numbers `0` up to `n - 1`.
pub open spec fn count_up(n: nat) -> Seq<usize> {
    Seq::new(n, |i: int| i as usize)
}

/// The derangements of `n` numbers are the rearrangements of `0..n` without
/// a value at its own position.
pub proof fn lemma_derangement_is_rearrangement(d: Seq<usize>, n: nat)
    requires
        n <= usize::MAX,
    ensures
        (d.len() == n && is_derangement(d)) <==> (d.to_multiset() == count_up(n).to_multiset()
            && Exclusion::OwnPosition.accepts(d)),
{
    let up = count_up(n);
    assert(up.no_duplicates());
    assert forall|x: usize| up.contains(x) <==> x < n by {
        if x < n {
            assert(up[x as int] == x);
        }
    }
    if d.len() == n && is_derangement(d) {
        assert(d.no_duplicates());
        assert forall|x: usize| d.contains(x) <==> up.contains(x) by {}
        lemma_same_elements_once(d, up);
        assert forall|i: int| 0 <= i < d.len() implies !Exclusion::OwnPosition.excludes(
            i,
            #[trigger] d[i],
        ) by {}
    }
    if d.to_multiset() == up.to_multiset() && Exclusion::OwnPosition.accepts(d) {
        lemma_rearrangement_of_distinct(up, d);
        assert forall|i: int| 0 <= i < d.len() implies d[i] < d.len() && d[i] != i by {
            assert(d.contains(d[i]));
            assert(!Exclusion::OwnPosition.excludes(i, d[i]));
        }
        assert forall|v: usize| v < d.len() implies #[trigger] d.contains(v) by {
            assert(up.contains(v));
        }
    }
}

/// Filtering the permutations of `0..n` by the items themselves, or by the
/// numbers of the positions, gives the derangements of `n` numbers: each of
/// them once and nothing else.
pub proof fn lemma_self_restricted_range(n: nat)
    requires
        n <= usize::MAX,
    ensures
        kept(ShiftState::by_position(count_up(n), n).pending(), Exclusion::Listed(count_up(n)))
            == kept(ShiftState::by_position(count_up(n), n).pending(), Exclusion::OwnPosition),
        kept(
            ShiftState::by_position(count_up(n), n).pending(),
            Exclusion::OwnPosition,
        ).no_duplicates(),
        forall|d: Seq<usize>| #[trigger]
            kept(
                ShiftState::by_position(count_up(n), n).pending(),
                Exclusion::OwnPosition,
            ).contains(d) <==> d.len() == n && is_derangement(d),
{
    let items = count_up(n);
    let all = ShiftState::by_position(items, n).pending();
    lemma_full_permutations(items);
    assert(items.no_duplicates());
    lemma_kept_are_the_accepted(all, Exclusion::OwnPosition);
    assert forall|d: Seq<usize>| #[trigger]
        kept(all, Exclusion::OwnPosition).contains(d) <==> d.len() == n && is_derangement(d) by {
        lemma_derangement_is_rearrangement(d, n);
        if all.contains(d) {
            let i = choose|i: int| 0 <= i < all.len() && all[i] == d;
            assert(all[i].to_multiset() == items.to_multiset());
        }
    }
    assert forall|i: int| 0 <= i < all.len() implies (#[trigger] all[i]).len() <= items.len() by {
        all[i].to_multiset_ensures();
        items.to_multiset_ensures();
    }
    lemma_rules_agree_on(all, items);
}

/// On arrangements no longer than the list, the list `0, 1, 2, ...` excludes
/// what the numbers of the positions exclude.
proof fn lemma_rules_agree_on(all: Seq<Seq<usize>>, items: Seq<usize>)
    requires
        items.len() <= usize::MAX,
        items == count_up(items.len()),
        forall|i: int| 0 <= i < all.len() ==> (#[trigger] all[i]).len() <= items.len(),
    ensures
        kept(all, Exclusion::Listed(items)) == kept(all, Exclusion::OwnPosition),
    decreases all.len(),
{
    if all.len() > 0 {
        let a = all[0];
        assert(Exclusion::Listed(items).accepts(a) <==> Exclusion::OwnPosition.accepts(a)) by {
            assert forall|i: int| 0 <= i < a.len() implies (Exclusion::Listed(items).excludes(
                i,
                a[i],
            ) <==> Exclusion::OwnPosition.excludes(i, a[i])) by {}
        }
        let tail = all.skip(1);
        assert forall|i: int| 0 <= i < tail.len() implies (#[trigger] tail[i]).len()
            <= items.len() by {
            assert(tail[i] == all[i + 1]);
        }
        lemma_rules_agree_on(tail, items);
    }
}

/// The derangements that the recurrence builds for `0..n` are the derangements
/// of `n` numbers, each of them once: those that filtering the permutations
/// of `0..n` gives, in another order.
pub proof fn lemma_range_is_the_filtered(n: nat)
    requires
        n <= usize::MAX,
    ensures
        derangements_of(n).no_duplicates(),
        forall|d: Seq<usize>| #[trigger]
            derangements_of(n).contains(d) <==> d.len() == n && is_derangement(d),
        derangements_of(n).to_multiset() == kept(
            ShiftState::by_position(count_up(n), n).pending(),
            Exclusion::OwnPosition,
        ).to_multiset(),
{
    let built = derangements_of(n);
    let filtered = kept(ShiftState::by_position(count_up(n), n).pending(), Exclusion::OwnPosition);
    lemma_derangements_of_distinct(n);
    lemma_derangements_of_sound(n);
    assert forall|d: Seq<usize>| #[trigger]
        built.contains(d) <==> d.len() == n && is_derangement(d) by {
        if d.len() == n && is_derangement(d) {
            lemma_derangements_of_complete(n, d);
        }
    }
    lemma_self_restricted_range(n);
    assert forall|d: Seq<usize>| built.contains(d) <==> filtered.contains(d) by {}
    lemma_same_elements_once(built, filtered);
}

/// Where no two items are equal, the generator by value and the generator by
/// position at full length give the same arrangements, each once, in orders
/// of their own; and so do their derangements.
pub proof fn lemma_by_value_is_by_position(items: Seq<usize>)
    requires
        items.len() <= usize::MAX,
        items.no_duplicates(),
    ensures
        ShiftState::by_value(items).pending().to_multiset() == ShiftState::by_position(
            items,
            items.len(),
        ).pending().to_multiset(),
        kept(ShiftState::by_value(items).pending(), Exclusion::OwnPosition).to_multiset() == kept(
            ShiftState::by_position(items, items.len()).pending(),
            Exclusion::OwnPosition,
        ).to_multiset(),
{
    let one = ShiftState::by_value(items).pending();
    let other = ShiftState::by_position(items, items.len()).pending();
    lemma_distinct_permutations(items);
    lemma_full_permutations(items);
    assert forall|a: Seq<usize>| one.contains(a) <==> other.contains(a) by {
        if one.contains(a) {
            let i = choose|i: int| 0 <= i < one.len() && one[i] == a;
            assert(one[i].to_multiset() == items.to_multiset());
        }
        if other.contains(a) {
            let i = choose|i: int| 0 <= i < other.len() && other[i] == a;
            assert(other[i].to_multiset() == items.to_multiset());
        }
    }
    lemma_same_elements_once(one, other);
    lemma_kept_are_the_accepted(one, Exclusion::OwnPosition);
    lemma_kept_are_the_accepted(other, Exclusion::OwnPosition);
    let kept_one = kept(one, Exclusion::OwnPosition);
    let kept_other = kept(other, Exclusion::OwnPosition);
    assert forall|a: Seq<usize>| kept_one.contains(a) <==> kept_other.contains(a) by {}
    lemma_same_elements_once(kept_one, kept_other);
}

/// The distinct permutations of `items` are as many as the factorial of the
/// number of items, divided by the factorial of how often each value stands
/// among them.
pub proof fn lemma_count_of_distinct_permutations(items: Seq<usize>)
    ensures
        ShiftState::by_value(items).pending().len() * repeats(items) == factorial(items.len()),
{
    lemma_distinct_permutations(items);
    lemma_descending(items);
    lemma_order_len(descending(items));
    lemma_repeats_of_rearrangement(descending(items), items);
}

/// A generator by position gives as many arrangements as the items have
/// orderings: the factorial of their number.
pub proof fn lemma_count_of_permutations(items: Seq<usize>, k: nat)
    requires
        0 < k <= items.len() <= usize::MAX,
    ensures
        ShiftState::by_position(items, k).pending().len() == factorial(items.len()),
{
    let labels = countdown(items.len());
    lemma_permutations_by_position(items, k);
    lemma_labelling_is_rearrangement(labels, items.len());
    lemma_order_len(labels);
    lemma_no_repeats(labels);
    assert(order_len(labels) * 1 == order_len(labels)) by (nonlinear_arith);
}

/// A generator by position at full length gives each rearrangement of
/// `items` as often as equal items can change places: the product of the
/// factorials of how often each value stands among the items.
pub proof fn lemma_each_arrangement_as_often(items: Seq<usize>, a: Seq<usize>)
    requires
        items.len() <= usize::MAX,
        a.to_multiset() == items.to_multiset(),
    ensures
        ShiftState::by_position(items, items.len()).pending().to_multiset().count(a) == repeats(
            items,
        ),
{
    let n = items.len();
    let labels = countdown(n);
    let source = ascending(items);
    let all = ShiftState::by_position(items, n).pending();
    lemma_ascending(items);
    lemma_repeats_of_rearrangement(source, items);
    lemma_fibre(source, a);
    lemma_positions_of(all, a);
    let places = positions_of(all, a);
    let by = fibre(source, a);
    if n == 0 {
        lemma_length_zero(items);
        a.to_multiset_ensures();
        items.to_multiset_ensures();
        assert(a =~= all[0]);
        assert(places =~= Set::<int>::empty().insert(0)) by {
            assert forall|i: int| places.contains(i) <==> i == 0 by {}
        }
    } else {
        lemma_permutations_by_position(items, n);
        lemma_labelling_is_rearrangement(labels, n);
        let at = |place: int| advance(labels, place as nat);
        assert forall|x: int, y: int|
            places.contains(x) && places.contains(y) && #[trigger] at(x) == #[trigger] at(
                y,
            ) implies x == y by {
            if x < y {
                lemma_order_has_no_repeats(labels, x as nat, y as nat);
            } else if y < x {
                lemma_order_has_no_repeats(labels, y as nat, x as nat);
            }
        }
        assert(injective_on(at, places));
        assert forall|chosen: Seq<usize>| places.map(at).contains(chosen) <==> by.contains(
            chosen,
        ) by {
            if places.map(at).contains(chosen) {
                let place = choose|place: int| places.contains(place) && chosen == at(place);
                lemma_advance_rearranges(labels, place as nat);
                lemma_labelling_is_rearrangement(chosen, n);
                assert(arranged(source, chosen).take(n as int) =~= arranged(source, chosen));
            }
            if by.contains(chosen) {
                lemma_labelling_is_rearrangement(chosen, n);
                lemma_order_holds_all(labels, chosen);
                let place = place_of(chosen, labels) as int;
                assert(arranged(source, chosen).take(n as int) =~= arranged(source, chosen));
                assert(places.contains(place) && chosen == at(place));
            }
        }
        assert(places.map(at) =~= by);
        lemma_map_size(places, by, at);
    }
}

/// Filtering the permutations of `0..n` by the numbers of the positions leaves
/// as many arrangements as `n` numbers have derangements.
pub proof fn lemma_count_of_derangements(n: nat)
    requires
        n <= usize::MAX,
    ensures
        kept(ShiftState::by_position(count_up(n), n).pending(), Exclusion::OwnPosition).len()
            == subfactorial(n),
        derangements_of(n).len() == subfactorial(n),
{
    lemma_range_is_the_filtered(n);
    lemma_derangements_of_len(n);
    derangements_of(n).to_multiset_ensures();
    kept(
        ShiftState::by_position(count_up(n), n).pending(),
        Exclusion::OwnPosition,
    ).to_multiset_ensures();
}

} // verus!
