//! The mathematics of the exact dynamic program: the table of best costs,
//! the selection that is read back from it, and the proof that this
//! selection is optimal.
use vstd::prelude::*;
use crate::knapsack::{ItemModel, Knapsack, canonical, cost_of, feasible, optimal, weight_of};

verus! {

/// The best cost that the first `i` items reach within weight `j`.
pub open spec fn best(items: Seq<ItemModel>, i: nat, j: nat) -> nat
    decreases i,
{
    if i == 0 {
        0
    } else {
        let item = items[i - 1];
        let without = best(items, (i - 1) as nat, j);
        if item.weight > j {
            without
        } else {
            let with = best(items, (i - 1) as nat, (j - item.weight) as nat) + item.cost as nat;
            if without > with {
                without
            } else {
                with
            }
        }
    }
}

/// The selection that is read back from the table, walking down from item
/// `i` with weight `j` left: an item is packed where the best cost with it
/// differs from the best cost without it.
pub open spec fn traceback(items: Seq<ItemModel>, i: nat, j: nat) -> Seq<usize>
    decreases i,
{
    if i == 0 {
        Seq::empty()
    } else if best(items, i, j) != best(items, (i - 1) as nat, j) {
        traceback(items, (i - 1) as nat, (j - items[i - 1].weight) as nat).push((i - 1) as usize)
    } else {
        traceback(items, (i - 1) as nat, j)
    }
}

/// The selection that the exact dynamic program makes for an instance.
pub open spec fn exact_choice(knapsack: Knapsack) -> Seq<usize> {
    traceback(knapsack.items, knapsack.items.len(), knapsack.capacity)
}

/// A best cost is at most the sum of as many costs as there are items to
/// choose from.
pub proof fn lemma_best_bound(items: Seq<ItemModel>, i: nat, j: nat, limit: nat)
    requires
        i <= items.len(),
        forall|k: int| 0 <= k < items.len() ==> (#[trigger] items[k]).cost <= limit,
    ensures
        best(items, i, j) <= i * limit,
    decreases i,
{
    if i > 0 {
        lemma_best_bound(items, (i - 1) as nat, j, limit);
        assert((i - 1) * limit + limit == i * limit) by (nonlinear_arith);
        if items[i - 1].weight <= j {
            lemma_best_bound(items, (i - 1) as nat, (j - items[i - 1].weight) as nat, limit);
        }
    }
}

/// No selection among the first `i` items that weighs at most `j` costs
/// more than the table says.
pub proof fn lemma_best_dominates(items: Seq<ItemModel>, i: nat, j: nat, packed: Seq<usize>)
    requires
        i <= items.len(),
        canonical(i, packed),
        weight_of(items, packed) <= j,
    ensures
        cost_of(items, packed) <= best(items, i, j),
    decreases i,
{
    if packed.len() > 0 && i == 0 {
        assert(packed[0] < 0);
    } else if packed.len() > 0 {
        let last = packed.last();
        let rest = packed.drop_last();
        assert(last == packed[packed.len() - 1]);
        assert forall|k: int| 0 <= k < rest.len() implies (#[trigger] rest[k]) < i - 1 by {
            assert(rest[k] == packed[k]);
            assert(packed[k] < packed[packed.len() - 1]);
        }
        if last == i - 1 {
            lemma_best_dominates(
                items,
                (i - 1) as nat,
                (j - items[i - 1].weight) as nat,
                rest,
            );
        } else {
            assert forall|k: int| 0 <= k < packed.len() implies (#[trigger] packed[k]) < i - 1 by {
                if k < packed.len() - 1 {
                    assert(rest[k] == packed[k]);
                }
            }
            lemma_best_dominates(items, (i - 1) as nat, j, packed);
        }
    }
}

/// The selection read back from the table is in canonical form, weighs at
/// most what was left, and costs what the table says.
pub proof fn lemma_traceback(items: Seq<ItemModel>, i: nat, j: nat)
    requires
        i <= items.len(),
        items.len() <= usize::MAX,
    ensures
        canonical(i, traceback(items, i, j)),
        weight_of(items, traceback(items, i, j)) <= j,
        cost_of(items, traceback(items, i, j)) == best(items, i, j),
    decreases i,
{
    if i > 0 {
        if best(items, i, j) != best(items, (i - 1) as nat, j) {
            let left = (j - items[i - 1].weight) as nat;
            let rest = traceback(items, (i - 1) as nat, left);
            lemma_traceback(items, (i - 1) as nat, left);
            let whole = rest.push((i - 1) as usize);
            assert(whole.drop_last() =~= rest);
            assert(whole.last() == i - 1);
            assert forall|k: int| 0 <= k < whole.len() implies (#[trigger] whole[k]) < i by {
                if k < rest.len() {
                    assert(whole[k] == rest[k]);
                }
            }
            assert forall|k: int, l: int| 0 <= k < l < whole.len() implies whole[k] < whole[l] by {
                assert(whole[k] == rest[k]);
                if l < rest.len() {
                    assert(whole[l] == rest[l]);
                }
            }
        } else {
            lemma_traceback(items, (i - 1) as nat, j);
            let same = traceback(items, (i - 1) as nat, j);
            assert forall|k: int| 0 <= k < same.len() implies (#[trigger] same[k]) < i by {}
        }
    }
}

/// The selection of the exact dynamic program fits into the bag, and no
/// selection that fits costs more.
pub proof fn lemma_exact_choice_is_optimal(knapsack: Knapsack)
    requires
        knapsack.items.len() <= usize::MAX,
    ensures
        optimal(knapsack, exact_choice(knapsack)),
        cost_of(knapsack.items, exact_choice(knapsack)) == best(
            knapsack.items,
            knapsack.items.len(),
            knapsack.capacity,
        ),
{
    let n = knapsack.items.len();
    lemma_traceback(knapsack.items, n, knapsack.capacity);
    assert forall|other: Seq<usize>| #[trigger] feasible(knapsack, other) implies cost_of(
        knapsack.items,
        other,
    ) <= cost_of(knapsack.items, exact_choice(knapsack)) by {
        lemma_best_dominates(knapsack.items, n, knapsack.capacity, other);
    }
}

/// The optimal cost is one: two optimal selections cost the same. So
/// whatever exact method finds an optimal selection, its cost is the cost
/// of the selection of the exact dynamic program.
pub proof fn lemma_optimal_costs_agree(knapsack: Knapsack, one: Seq<usize>, other: Seq<usize>)
    requires
        optimal(knapsack, one),
        optimal(knapsack, other),
    ensures
        cost_of(knapsack.items, one) == cost_of(knapsack.items, other),
{
    assert(feasible(knapsack, one));
    assert(feasible(knapsack, other));
}

} // verus!
