//! The mathematics of the greedy heuristic: the order of the items by cost
//! per weight, the items that the heuristic takes, and the proof that its
//! choice costs at least half of what any selection that fits costs.
use vstd::prelude::*;
use crate::knapsack::{
    ItemModel, Knapsack, canonical, cost_of, feasible, lemma_canonical_unique, names, weight_of,
};

verus! {

/// Item `a` ranks before item `b`: it has the higher cost per weight, or the
/// same and the lower index. The ratios are compared by cross products.
pub open spec fn ranks_before(items: Seq<ItemModel>, a: int, b: int) -> bool {
    let left = items[a].cost * items[b].weight;
    let right = items[b].cost * items[a].weight;
    left > right || (left == right && a < b)
}

/// The sum of the weights of those of the first `k` items that `chosen`
/// holds of.
pub open spec fn weight_where(items: Seq<ItemModel>, chosen: Set<int>, k: nat) -> nat
    decreases k,
{
    if k == 0 {
        0
    } else if chosen.contains(k - 1) {
        weight_where(items, chosen, (k - 1) as nat) + items[k - 1].weight as nat
    } else {
        weight_where(items, chosen, (k - 1) as nat)
    }
}

/// The sum of the costs of those of the first `k` items that `chosen` holds
/// of.
pub open spec fn cost_where(items: Seq<ItemModel>, chosen: Set<int>, k: nat) -> nat
    decreases k,
{
    if k == 0 {
        0
    } else if chosen.contains(k - 1) {
        cost_where(items, chosen, (k - 1) as nat) + items[k - 1].cost as nat
    } else {
        cost_where(items, chosen, (k - 1) as nat)
    }
}

/// The items up to and including item `i` in the order of the ratios.
pub open spec fn leads(items: Seq<ItemModel>, i: int) -> Set<int> {
    Set::new(|j: int| j == i || ranks_before(items, j, i))
}

/// The weight that has accumulated once item `i` is packed after all the
/// items that rank before it.
pub open spec fn weight_through(items: Seq<ItemModel>, i: int) -> nat {
    weight_where(items, leads(items, i), items.len())
}

/// The heuristic takes item `i`: packed in the order of the ratios, the
/// items up to and including it fit into the bag.
pub open spec fn greedy_takes(knapsack: Knapsack, i: int) -> bool {
    weight_through(knapsack.items, i) <= knapsack.capacity
}

/// The items that the heuristic takes.
pub open spec fn taken(knapsack: Knapsack) -> Set<int> {
    Set::new(|i: int| greedy_takes(knapsack, i))
}

/// The cost of the items that the heuristic takes.
pub open spec fn taken_cost(knapsack: Knapsack) -> nat {
    cost_where(knapsack.items, taken(knapsack), knapsack.items.len())
}

/// Item `b` is the first, in the order of the ratios, that overflows the
/// bag: the items before it fit, and with it they do not.
pub open spec fn is_break_item(knapsack: Knapsack, b: int) -> bool {
    &&& 0 <= b < knapsack.items.len()
    &&& weight_through(knapsack.items, b) > knapsack.capacity
    &&& weight_through(knapsack.items, b) - knapsack.items[b].weight <= knapsack.capacity
}

/// `packed` holds, in canonical form, the items that the heuristic takes.
pub open spec fn holds_taken(knapsack: Knapsack, packed: Seq<usize>) -> bool {
    &&& canonical(knapsack.items.len(), packed)
    &&& forall|i: int|
        0 <= i < knapsack.items.len() ==> (greedy_takes(knapsack, i) <==> #[trigger] names(
            packed,
            i,
        ))
}

/// The first overflowing item `b` is kept in place of the taken items: it
/// fits on its own and costs more than all of them.
pub open spec fn prefers_break_item(knapsack: Knapsack, b: int) -> bool {
    &&& knapsack.items[b].weight <= knapsack.capacity
    &&& knapsack.items[b].cost > taken_cost(knapsack)
}

/// `packed` is the choice of the heuristic. Where every item is taken, it is
/// all of them. Otherwise there is a first overflowing item; the choice is
/// that item alone where it fits on its own and costs more than the taken
/// items, and the taken items where not.
pub open spec fn is_greedy_choice(knapsack: Knapsack, packed: Seq<usize>) -> bool {
    ||| {
        &&& forall|i: int| 0 <= i < knapsack.items.len() ==> #[trigger] greedy_takes(knapsack, i)
        &&& holds_taken(knapsack, packed)
    }
    ||| exists|b: int| #[trigger]
        is_break_item(knapsack, b) && if prefers_break_item(knapsack, b) {
            packed == seq![b as usize]
        } else {
            holds_taken(knapsack, packed)
        }
}

/// Of two different items one ranks before the other.
pub proof fn lemma_ranks_total(items: Seq<ItemModel>, a: int, b: int)
    requires
        a != b,
    ensures
        ranks_before(items, a, b) || ranks_before(items, b, a),
        !(ranks_before(items, a, b) && ranks_before(items, b, a)),
{
}

/// Ranking before is transitive among items of positive weight.
pub proof fn lemma_ranks_transitive(items: Seq<ItemModel>, a: int, b: int, c: int)
    requires
        items[a].weight > 0,
        items[b].weight > 0,
        items[c].weight > 0,
        ranks_before(items, a, b),
        ranks_before(items, b, c),
    ensures
        ranks_before(items, a, c),
{
    let ca = items[a].cost as int;
    let wa = items[a].weight as int;
    let cb = items[b].cost as int;
    let wb = items[b].weight as int;
    let cc = items[c].cost as int;
    let wc = items[c].weight as int;
    let p = ca * wb - cb * wa;
    let q = cb * wc - cc * wb;
    assert(wb * (ca * wc - cc * wa) == wc * p + wa * q) by (nonlinear_arith)
        requires
            p == ca * wb - cb * wa,
            q == cb * wc - cc * wb,
    ;
    if p > 0 || q > 0 {
        assert(wc * p + wa * q > 0) by (nonlinear_arith)
            requires
                wa > 0,
                wc > 0,
                p >= 0,
                q >= 0,
                p > 0 || q > 0,
        ;
        assert(ca * wc - cc * wa > 0) by (nonlinear_arith)
            requires
                wb > 0,
                wb * (ca * wc - cc * wa) > 0,
        ;
    } else {
        assert(wc * p + wa * q == 0) by (nonlinear_arith)
            requires
                p == 0,
                q == 0,
        ;
        assert(ca * wc - cc * wa == 0) by (nonlinear_arith)
            requires
                wb > 0,
                wb * (ca * wc - cc * wa) == 0,
        ;
    }
}

/// A choice that holds of more items weighs and costs at least as much.
pub proof fn lemma_where_monotone(
    items: Seq<ItemModel>,
    fewer: Set<int>,
    more: Set<int>,
    k: nat,
)
    requires
        forall|i: int| 0 <= i < k && #[trigger] fewer.contains(i) ==> more.contains(i),
    ensures
        weight_where(items, fewer, k) <= weight_where(items, more, k),
        cost_where(items, fewer, k) <= cost_where(items, more, k),
    decreases k,
{
    if k > 0 {
        lemma_where_monotone(items, fewer, more, (k - 1) as nat);
    }
}

/// A choice that holds of one more item, `x`, weighs and costs more by that
/// item.
pub proof fn lemma_where_one_more(
    items: Seq<ItemModel>,
    fewer: Set<int>,
    more: Set<int>,
    x: int,
    k: nat,
)
    requires
        !fewer.contains(x),
        more.contains(x),
        forall|i: int| 0 <= i < k && i != x ==> (#[trigger] fewer.contains(i) <==> more.contains(i)),
    ensures
        0 <= x < k ==> weight_where(items, more, k) == weight_where(items, fewer, k)
            + items[x].weight,
        0 <= x < k ==> cost_where(items, more, k) == cost_where(items, fewer, k) + items[x].cost,
        !(0 <= x < k) ==> weight_where(items, more, k) == weight_where(items, fewer, k),
        !(0 <= x < k) ==> cost_where(items, more, k) == cost_where(items, fewer, k),
    decreases k,
{
    if k > 0 {
        lemma_where_one_more(items, fewer, more, x, (k - 1) as nat);
    }
}

/// A choice that holds of all that another holds of, and of `x` besides,
/// weighs at least as much as the other and `x` together.
pub proof fn lemma_where_with_extra(
    items: Seq<ItemModel>,
    fewer: Set<int>,
    more: Set<int>,
    x: int,
    k: nat,
)
    requires
        0 <= x < k,
        !fewer.contains(x),
        more.contains(x),
        forall|i: int| 0 <= i < k && #[trigger] fewer.contains(i) ==> more.contains(i),
    ensures
        weight_where(items, fewer, k) + items[x].weight <= weight_where(items, more, k),
{
    let between = fewer.insert(x);
    lemma_where_one_more(items, fewer, between, x, k);
    lemma_where_monotone(items, between, more, k);
}

/// A selection in canonical form weighs and costs what the choice of its
/// members weighs and costs.
pub proof fn lemma_where_of_selection(
    items: Seq<ItemModel>,
    packed: Seq<usize>,
    chosen: Set<int>,
    n: nat,
)
    requires
        n <= items.len(),
        canonical(n, packed),
        forall|i: int| 0 <= i < n ==> (chosen.contains(i) <==> #[trigger] names(packed, i)),
    ensures
        weight_of(items, packed) == weight_where(items, chosen, n),
        cost_of(items, packed) == cost_where(items, chosen, n),
    decreases n,
{
    if n == 0 {
        if packed.len() > 0 {
            assert(packed[0] < 0);
        }
    } else {
        let rest = if chosen.contains(n - 1) {
            packed.drop_last()
        } else {
            packed
        };
        if chosen.contains(n - 1) {
            assert(names(packed, n - 1));
            let k = choose|k: int| 0 <= k < packed.len() && packed[k] == n - 1;
            if k < packed.len() - 1 {
                assert(packed[k] < packed[packed.len() - 1]);
            }
            assert(packed.last() == n - 1);
        }
        assert forall|k: int| 0 <= k < rest.len() implies (#[trigger] rest[k]) < n - 1 by {
            assert(rest[k] == packed[k]);
            if chosen.contains(n - 1) {
                assert(packed[k] < packed[packed.len() - 1]);
            } else {
                if packed[k] == n - 1 {
                    assert(names(packed, n - 1));
                }
            }
        }
        assert forall|i: int| 0 <= i < n - 1 implies (chosen.contains(i) <==> #[trigger] names(rest, i)) by {
            if chosen.contains(i) {
                assert(names(packed, i));
                let k = choose|k: int| 0 <= k < packed.len() && packed[k] == i;
                assert(rest[k] == i);
            }
            if names(rest, i) {
                let k = choose|k: int| 0 <= k < rest.len() && rest[k] == i;
                assert(packed[k] == i);
                assert(names(packed, i));
            }
        }
        lemma_where_of_selection(items, rest, chosen, (n - 1) as nat);
    }
}

/// Held against a rate of `rate_cost` per `rate_weight`, no selection among
/// the first `n` items does better than the choice of exactly the items
/// whose own rate is at least that rate.
pub proof fn lemma_rate_bound(
    items: Seq<ItemModel>,
    other: Seq<usize>,
    chosen: Set<int>,
    rate_cost: int,
    rate_weight: int,
    n: nat,
)
    requires
        n <= items.len(),
        canonical(n, other),
        forall|i: int|
            0 <= i < n && #[trigger] chosen.contains(i) ==> items[i].cost * rate_weight >= rate_cost
                * items[i].weight,
        forall|i: int|
            0 <= i < n && !#[trigger] chosen.contains(i) ==> items[i].cost * rate_weight
                <= rate_cost * items[i].weight,
    ensures
        rate_weight * cost_of(items, other) - rate_cost * weight_of(items, other) <= rate_weight
            * cost_where(items, chosen, n) - rate_cost * weight_where(items, chosen, n),
    decreases n,
{
    if n == 0 {
        if other.len() > 0 {
            assert(other[0] < 0);
        }
    } else {
        let top = n - 1;
        let has_top = other.len() > 0 && other.last() == top;
        let rest = if has_top {
            other.drop_last()
        } else {
            other
        };
        assert forall|k: int| 0 <= k < rest.len() implies (#[trigger] rest[k]) < n - 1 by {
            assert(rest[k] == other[k]);
            if k < other.len() - 1 {
                assert(other[k] < other[other.len() - 1]);
            }
        }
        lemma_rate_bound(items, rest, chosen, rate_cost, rate_weight, (n - 1) as nat);
        let c = items[top].cost as int;
        let w = items[top].weight as int;
        let cost_rest = cost_of(items, rest) as int;
        let weight_rest = weight_of(items, rest) as int;
        let cost_less = cost_where(items, chosen, (n - 1) as nat) as int;
        let weight_less = weight_where(items, chosen, (n - 1) as nat) as int;
        if has_top {
            assert(rate_weight * (cost_rest + c) - rate_cost * (weight_rest + w) == rate_weight
                * cost_rest - rate_cost * weight_rest + (c * rate_weight - rate_cost * w))
                by (nonlinear_arith);
        }
        if chosen.contains(top) {
            assert(rate_weight * (cost_less + c) - rate_cost * (weight_less + w) == rate_weight
                * cost_less - rate_cost * weight_less + (c * rate_weight - rate_cost * w))
                by (nonlinear_arith);
        }
    }
}

/// The costs of a choice among the first `k` items add up to at most `k`
/// times the highest cost an item can have.
pub proof fn lemma_cost_where_bound(items: Seq<ItemModel>, chosen: Set<int>, k: nat)
    ensures
        cost_where(items, chosen, k) <= k * u32::MAX,
    decreases k,
{
    if k > 0 {
        lemma_cost_where_bound(items, chosen, (k - 1) as nat);
    }
}

/// A choice that holds of none of the first `k` items weighs and costs
/// nothing.
pub proof fn lemma_where_nothing(items: Seq<ItemModel>, chosen: Set<int>, k: nat)
    requires
        forall|i: int| 0 <= i < k ==> !#[trigger] chosen.contains(i),
    ensures
        weight_where(items, chosen, k) == 0,
        cost_where(items, chosen, k) == 0,
    decreases k,
{
    if k > 0 {
        lemma_where_nothing(items, chosen, (k - 1) as nat);
    }
}

/// Two choices that hold of the same items among the first `k` weigh and
/// cost the same.
pub proof fn lemma_where_same(items: Seq<ItemModel>, one: Set<int>, other: Set<int>, k: nat)
    requires
        forall|i: int| 0 <= i < k ==> (#[trigger] one.contains(i) <==> other.contains(i)),
    ensures
        weight_where(items, one, k) == weight_where(items, other, k),
        cost_where(items, one, k) == cost_where(items, other, k),
{
    lemma_where_monotone(items, one, other, k);
    lemma_where_monotone(items, other, one, k);
}

/// Where item `a` ranks before item `b`, the items up to `a` and item `b`
/// together weigh at most what the items up to `b` weigh.
pub proof fn lemma_weight_through_grows(items: Seq<ItemModel>, a: int, b: int)
    requires
        forall|i: int| 0 <= i < items.len() ==> (#[trigger] items[i]).weight > 0,
        0 <= a < items.len(),
        0 <= b < items.len(),
        ranks_before(items, a, b),
    ensures
        weight_through(items, a) + items[b].weight <= weight_through(items, b),
{
    lemma_ranks_total(items, a, b);
    assert forall|i: int| 0 <= i < items.len() && #[trigger] leads(items, a).contains(i) implies leads(
        items,
        b,
    ).contains(i) by {
        if i != a {
            lemma_ranks_transitive(items, i, a, b);
        }
    }
    lemma_where_with_extra(items, leads(items, a), leads(items, b), b, items.len());
}

/// What holds of the first overflowing item `b`: the items taken are those
/// that rank before it, each worth at least its rate, and every other item
/// is worth at most its rate.
pub proof fn lemma_break_item_splits(knapsack: Knapsack, b: int)
    requires
        knapsack.wf(),
        is_break_item(knapsack, b),
    ensures
        forall|i: int|
            0 <= i < knapsack.items.len() ==> (#[trigger] greedy_takes(knapsack, i)
                <==> ranks_before(knapsack.items, i, b)),
        forall|i: int|
            0 <= i < knapsack.items.len() && #[trigger] taken(knapsack).contains(i)
                ==> knapsack.items[i].cost * knapsack.items[b].weight >= knapsack.items[b].cost
                * knapsack.items[i].weight,
        forall|i: int|
            0 <= i < knapsack.items.len() && !#[trigger] taken(knapsack).contains(i)
                ==> knapsack.items[i].cost * knapsack.items[b].weight <= knapsack.items[b].cost
                * knapsack.items[i].weight,
        weight_where(knapsack.items, taken(knapsack), knapsack.items.len())
            + knapsack.items[b].weight == weight_through(knapsack.items, b),
{
    let items = knapsack.items;
    let n = items.len();
    assert forall|i: int| 0 <= i < n implies (#[trigger] greedy_takes(knapsack, i) <==> ranks_before(
        items,
        i,
        b,
    )) by {
        if i != b {
            lemma_ranks_total(items, i, b);
            if ranks_before(items, i, b) {
                lemma_weight_through_grows(items, i, b);
            } else {
                lemma_weight_through_grows(items, b, i);
            }
        }
    }
    let before = Set::new(|j: int| ranks_before(items, j, b));
    lemma_where_one_more(items, before, leads(items, b), b, n);
    lemma_where_same(items, before, taken(knapsack), n);
}

/// The first overflowing item, if there is one, cannot be missed: it fits
/// on its own, or it costs no more than the items taken.
pub open spec fn break_item_counts(knapsack: Knapsack) -> bool {
    forall|b: int| #[trigger]
        is_break_item(knapsack, b) ==> knapsack.items[b].weight <= knapsack.capacity
            || knapsack.items[b].cost <= taken_cost(knapsack)
}

/// The greedy bound. Where the first item that overflows the bag fits on
/// its own, or costs no more than the items taken, the choice of the
/// heuristic costs at least half of what any selection that fits costs.
pub proof fn lemma_greedy_half_bound(knapsack: Knapsack, packed: Seq<usize>, other: Seq<usize>)
    requires
        knapsack.wf(),
        is_greedy_choice(knapsack, packed),
        feasible(knapsack, other),
        break_item_counts(knapsack),
    ensures
        cost_of(knapsack.items, other) <= 2 * cost_of(knapsack.items, packed),
{
    let items = knapsack.items;
    let n = items.len();
    let all = taken(knapsack);
    if (forall|i: int| 0 <= i < n ==> #[trigger] greedy_takes(knapsack, i)) && holds_taken(
        knapsack,
        packed,
    ) {
        lemma_where_of_selection(items, packed, all, n);
        lemma_rate_bound(items, other, all, 0, 1, n);
    } else {
        let b = choose|b: int| #[trigger]
            is_break_item(knapsack, b) && if prefers_break_item(knapsack, b) {
                packed == seq![b as usize]
            } else {
                holds_taken(knapsack, packed)
            };
        lemma_break_item_splits(knapsack, b);
        let cb = items[b].cost as int;
        let wb = items[b].weight as int;
        lemma_rate_bound(items, other, all, cb, wb, n);
        let cost_other = cost_of(items, other) as int;
        let weight_other = weight_of(items, other) as int;
        let cost_taken = cost_where(items, all, n) as int;
        let weight_taken = weight_where(items, all, n) as int;
        assert(cost_other <= cost_taken + cb) by (nonlinear_arith)
            requires
                wb * cost_other - cb * weight_other <= wb * cost_taken - cb * weight_taken,
                weight_other < weight_taken + wb,
                wb > 0,
                cb >= 0,
        ;
        if prefers_break_item(knapsack, b) {
            let single = seq![b as usize];
            assert(single.drop_last() =~= Seq::<usize>::empty());
            assert(cost_of(items, single.drop_last()) == 0);
            assert(cost_of(items, single) == cb);
        } else {
            lemma_where_of_selection(items, packed, all, n);
        }
    }
}

/// The choice of the heuristic is one: two selections that are each the
/// choice of the heuristic for an instance are the same selection.
pub proof fn lemma_greedy_choice_unique(knapsack: Knapsack, one: Seq<usize>, other: Seq<usize>)
    requires
        knapsack.wf(),
        is_greedy_choice(knapsack, one),
        is_greedy_choice(knapsack, other),
    ensures
        one == other,
{
    let n = knapsack.items.len();
    if exists|b: int| is_break_item(knapsack, b) {
        let b = choose|b: int| is_break_item(knapsack, b);
        lemma_break_item_splits(knapsack, b);
        assert(!greedy_takes(knapsack, b));
        assert forall|c: int| is_break_item(knapsack, c) implies c == b by {
            lemma_break_item_splits(knapsack, c);
            if c != b {
                lemma_ranks_total(knapsack.items, b, c);
                assert(greedy_takes(knapsack, b) <==> ranks_before(knapsack.items, b, c));
                assert(greedy_takes(knapsack, c) <==> ranks_before(knapsack.items, c, b));
            }
        }
        if !prefers_break_item(knapsack, b) {
            lemma_canonical_unique(n, one, other);
        }
    } else {
        lemma_canonical_unique(n, one, other);
    }
}

/// Among the first `k` items one ranks last: every other of them ranks
/// before it.
pub proof fn lemma_ranks_last(items: Seq<ItemModel>, k: nat) -> (last: int)
    requires
        0 < k <= items.len(),
        forall|i: int| 0 <= i < items.len() ==> (#[trigger] items[i]).weight > 0,
    ensures
        0 <= last < k,
        forall|j: int| 0 <= j < k && j != last ==> ranks_before(items, j, last),
    decreases k,
{
    if k == 1 {
        0
    } else {
        let before = lemma_ranks_last(items, (k - 1) as nat);
        let top = k - 1;
        lemma_ranks_total(items, before, top);
        if ranks_before(items, before, top) {
            assert forall|j: int| 0 <= j < k && j != top implies ranks_before(items, j, top) by {
                if j != before {
                    lemma_ranks_transitive(items, j, before, top);
                }
            }
            top
        } else {
            before
        }
    }
}

/// The choice of the heuristic fits into the bag.
pub proof fn lemma_greedy_choice_fits(knapsack: Knapsack, packed: Seq<usize>)
    requires
        knapsack.wf(),
        is_greedy_choice(knapsack, packed),
    ensures
        feasible(knapsack, packed),
{
    let items = knapsack.items;
    let n = items.len();
    if (forall|i: int| 0 <= i < n ==> #[trigger] greedy_takes(knapsack, i)) && holds_taken(
        knapsack,
        packed,
    ) {
        lemma_where_of_selection(items, packed, taken(knapsack), n);
        if n > 0 {
            let last = lemma_ranks_last(items, n);
            assert forall|i: int| 0 <= i < n && #[trigger] taken(knapsack).contains(i) implies leads(
                items,
                last,
            ).contains(i) by {
                if i != last {
                    assert(ranks_before(items, i, last));
                }
            }
            lemma_where_monotone(items, taken(knapsack), leads(items, last), n);
            assert(greedy_takes(knapsack, last));
        }
    } else {
        let b = choose|b: int| #[trigger]
            is_break_item(knapsack, b) && if prefers_break_item(knapsack, b) {
                packed == seq![b as usize]
            } else {
                holds_taken(knapsack, packed)
            };
        lemma_break_item_splits(knapsack, b);
        if prefers_break_item(knapsack, b) {
            assert(packed.drop_last() =~= Seq::<usize>::empty());
            assert(weight_of(items, packed.drop_last()) == 0);
            assert(packed.last() == b);
        } else {
            lemma_where_of_selection(items, packed, taken(knapsack), n);
        }
    }
}

} // verus!
