//! The mathematics of the approximation scheme: the instance with rescaled
//! costs, and the proof that an optimal selection of the rescaled instance
//! loses at most the fraction `eps` of the highest cost.
use vstd::prelude::*;
use vstd::arithmetic::div_mod::{lemma_fundamental_div_mod, lemma_mod_pos_bound, lemma_multiply_divide_lt};
use crate::knapsack::exact::{exact_choice, lemma_exact_choice_is_optimal};
use crate::knapsack::{ItemModel, Knapsack, canonical, cost_of, feasible, optimal, weight_of};

verus! {

/// The highest cost of an item.
pub open spec fn highest_cost(items: Seq<ItemModel>) -> u32
    decreases items.len(),
{
    if items.len() == 0 {
        0
    } else if items.last().cost > highest_cost(items.drop_last()) {
        items.last().cost
    } else {
        highest_cost(items.drop_last())
    }
}

/// The cost `cost` divided by the scaling factor `numerator * top /
/// (denominator * n)` and rounded down.
pub open spec fn scaled_cost(cost: u32, n: nat, numerator: nat, denominator: nat, top: nat) -> nat {
    ((cost * n * denominator) / (numerator * top) as int) as nat
}

/// The instance whose costs are rescaled for `eps = numerator /
/// denominator`: every cost is divided by `eps` times the highest cost over
/// the number of items, and rounded down. Weights and capacity stay. An
/// instance without items, or whose costs are all zero, has no scaling
/// factor and stays as it is.
pub open spec fn scaled(knapsack: Knapsack, numerator: nat, denominator: nat) -> Knapsack {
    let n = knapsack.items.len();
    let top = highest_cost(knapsack.items);
    if n == 0 || top == 0 {
        knapsack
    } else {
        Knapsack {
            items: Seq::new(
                n,
                |i: int|
                    ItemModel {
                        cost: scaled_cost(
                            knapsack.items[i].cost,
                            n,
                            numerator,
                            denominator,
                            top as nat,
                        ) as u32,
                        weight: knapsack.items[i].weight,
                    },
            ),
            capacity: knapsack.capacity,
        }
    }
}

/// The rescaled costs fit the cost type of an item.
pub open spec fn scales_within(knapsack: Knapsack, numerator: nat, denominator: nat) -> bool {
    knapsack.items.len() * denominator < 0x1_0000_0000 * numerator
}

/// No item costs more than the highest cost.
pub proof fn lemma_highest_cost(items: Seq<ItemModel>, i: int)
    requires
        0 <= i < items.len(),
    ensures
        items[i].cost <= highest_cost(items),
    decreases items.len(),
{
    if i < items.len() - 1 {
        lemma_highest_cost(items.drop_last(), i);
    }
}

/// A rescaled cost is below `2^32`, and times the divisor it lies within
/// one divisor below the cost times the dividend.
pub proof fn lemma_scaled_cost(cost: u32, n: nat, numerator: nat, denominator: nat, top: nat)
    requires
        0 < numerator,
        0 < top,
        cost <= top,
        n * denominator < 0x1_0000_0000 * numerator,
    ensures
        scaled_cost(cost, n, numerator, denominator, top) < 0x1_0000_0000,
        (numerator * top) * scaled_cost(cost, n, numerator, denominator, top) <= cost * (n
            * denominator),
        cost * (n * denominator) < (numerator * top) * scaled_cost(
            cost,
            n,
            numerator,
            denominator,
            top,
        ) + numerator * top,
{
    let dividend = (cost * n * denominator) as int;
    let divisor = (numerator * top) as int;
    assert(divisor > 0) by (nonlinear_arith)
        requires
            divisor == numerator * top,
            numerator > 0,
            top > 0,
    ;
    assert(dividend == cost * (n * denominator)) by (nonlinear_arith)
        requires
            dividend == cost * n * denominator,
    ;
    assert(dividend >= 0) by (nonlinear_arith)
        requires
            dividend == cost * (n * denominator),
            n * denominator >= 0,
            cost >= 0,
    ;
    assert(dividend < divisor * 0x1_0000_0000) by (nonlinear_arith)
        requires
            dividend == cost * (n * denominator),
            divisor == numerator * top,
            0 <= cost <= top,
            0 < top,
            0 <= n * denominator < 0x1_0000_0000 * numerator,
    ;
    lemma_multiply_divide_lt(dividend, divisor, 0x1_0000_0000);
    lemma_fundamental_div_mod(dividend, divisor);
    lemma_mod_pos_bound(dividend, divisor);
    assert(dividend / divisor >= 0) by (nonlinear_arith)
        requires
            dividend >= 0,
            divisor > 0,
    ;
}

/// The rescaled instance is an instance, with the weights and so the
/// feasible selections of the unscaled instance.
pub proof fn lemma_scaled_keeps_weights(
    knapsack: Knapsack,
    numerator: nat,
    denominator: nat,
    packed: Seq<usize>,
)
    ensures
        scaled(knapsack, numerator, denominator).items.len() == knapsack.items.len(),
        knapsack.wf() ==> scaled(knapsack, numerator, denominator).wf(),
        weight_of(scaled(knapsack, numerator, denominator).items, packed) == weight_of(
            knapsack.items,
            packed,
        ),
        feasible(scaled(knapsack, numerator, denominator), packed) == feasible(knapsack, packed),
    decreases packed.len(),
{
    if packed.len() > 0 {
        lemma_scaled_keeps_weights(knapsack, numerator, denominator, packed.drop_last());
    }
}

/// A selection in canonical form among `n` items has at most `n` members.
pub proof fn lemma_canonical_len(n: nat, packed: Seq<usize>)
    requires
        canonical(n, packed),
    ensures
        packed.len() <= n,
    decreases packed.len(),
{
    if packed.len() > 0 {
        let rest = packed.drop_last();
        if n == 0 {
            assert(packed[0] < 0);
        } else {
            assert forall|k: int| 0 <= k < rest.len() implies (#[trigger] rest[k]) < n - 1 by {
                assert(rest[k] == packed[k]);
                assert(packed[k] < packed[packed.len() - 1]);
            }
            lemma_canonical_len((n - 1) as nat, rest);
        }
    }
}

/// Summed over a selection, the rescaled costs times the divisor lie within
/// one divisor per member below the costs times the dividend.
pub proof fn lemma_scaled_sums(
    knapsack: Knapsack,
    numerator: nat,
    denominator: nat,
    packed: Seq<usize>,
)
    requires
        0 < numerator,
        0 < knapsack.items.len(),
        0 < highest_cost(knapsack.items),
        scales_within(knapsack, numerator, denominator),
        canonical(knapsack.items.len(), packed),
    ensures
        (numerator * highest_cost(knapsack.items)) * cost_of(
            scaled(knapsack, numerator, denominator).items,
            packed,
        ) <= (knapsack.items.len() * denominator) * cost_of(knapsack.items, packed),
        (knapsack.items.len() * denominator) * cost_of(knapsack.items, packed) <= (numerator
            * highest_cost(knapsack.items)) * cost_of(
            scaled(knapsack, numerator, denominator).items,
            packed,
        ) + (numerator * highest_cost(knapsack.items)) * packed.len(),
    decreases packed.len(),
{
    let items = knapsack.items;
    let rescaled = scaled(knapsack, numerator, denominator).items;
    let n = items.len();
    let top = highest_cost(items) as nat;
    let divisor = (numerator * top) as int;
    let dividend = (n * denominator) as int;
    if packed.len() == 0 {
        assert(divisor * 0 == 0 && dividend * 0 == 0) by (nonlinear_arith);
    } else {
        let rest = packed.drop_last();
        let last = packed.last() as int;
        assert(packed[packed.len() - 1] < n);
        assert forall|k: int| 0 <= k < rest.len() implies (#[trigger] rest[k]) < n by {
            assert(rest[k] == packed[k]);
        }
        lemma_scaled_sums(knapsack, numerator, denominator, rest);
        lemma_highest_cost(items, last);
        lemma_scaled_cost(items[last].cost, n, numerator, denominator, top);
        let c = items[last].cost as int;
        let s = rescaled[last].cost as int;
        let cost_rest = cost_of(items, rest) as int;
        let scaled_rest = cost_of(rescaled, rest) as int;
        let count = rest.len() as int;
        assert(divisor * (scaled_rest + s) <= dividend * (cost_rest + c)) by (nonlinear_arith)
            requires
                divisor * scaled_rest <= dividend * cost_rest,
                divisor * s <= c * dividend,
        ;
        assert(dividend * (cost_rest + c) <= divisor * (scaled_rest + s) + divisor * (count + 1))
            by (nonlinear_arith)
            requires
                dividend * cost_rest <= divisor * scaled_rest + divisor * count,
                c * dividend < divisor * s + divisor,
        ;
    }
}

/// What the approximation scheme loses. An optimal selection of the
/// rescaled instance costs, at the unscaled costs, at least what any feasible
/// selection costs less `eps` times the highest cost.
pub proof fn lemma_scaled_optimum_loss(
    knapsack: Knapsack,
    numerator: nat,
    denominator: nat,
    packed: Seq<usize>,
    other: Seq<usize>,
)
    requires
        0 < numerator < denominator,
        scales_within(knapsack, numerator, denominator),
        optimal(scaled(knapsack, numerator, denominator), packed),
        feasible(knapsack, other),
    ensures
        denominator * cost_of(knapsack.items, other) <= denominator * cost_of(
            knapsack.items,
            packed,
        ) + numerator * highest_cost(knapsack.items),
{
    let items = knapsack.items;
    let n = items.len();
    let top = highest_cost(items) as int;
    let rescaled = scaled(knapsack, numerator, denominator);
    lemma_scaled_keeps_weights(knapsack, numerator, denominator, other);
    lemma_scaled_keeps_weights(knapsack, numerator, denominator, packed);
    assert(feasible(rescaled, other));
    if n == 0 || top == 0 {
        assert(numerator * top >= 0) by (nonlinear_arith)
            requires
                numerator >= 0,
                top >= 0,
        ;
        assert(denominator * cost_of(items, other) <= denominator * cost_of(items, packed))
            by (nonlinear_arith)
            requires
                cost_of(items, other) <= cost_of(items, packed),
                denominator >= 0,
        ;
    } else {
        lemma_scaled_sums(knapsack, numerator, denominator, other);
        lemma_scaled_sums(knapsack, numerator, denominator, packed);
        lemma_canonical_len(n, other);
        let divisor = (numerator * top) as int;
        let dividend = (n * denominator) as int;
        let cost_other = cost_of(items, other) as int;
        let cost_packed = cost_of(items, packed) as int;
        let scaled_other = cost_of(rescaled.items, other) as int;
        let scaled_packed = cost_of(rescaled.items, packed) as int;
        let count = other.len() as int;
        assert(dividend * cost_other <= dividend * cost_packed + divisor * n) by (nonlinear_arith)
            requires
                divisor * scaled_packed <= dividend * cost_packed,
                dividend * cost_other <= divisor * scaled_other + divisor * count,
                scaled_other <= scaled_packed,
                0 <= count <= n,
                divisor >= 0,
        ;
        assert(denominator * cost_other <= denominator * cost_packed + numerator * top)
            by (nonlinear_arith)
            requires
                dividend * cost_other <= dividend * cost_packed + divisor * n,
                dividend == n * denominator,
                divisor == numerator * top,
                n > 0,
        ;
    }
}

/// The bound of the approximation scheme. Where some feasible selection
/// costs at least the highest cost of an item, as it does where an item of
/// that cost fits on its own, an optimal selection of the rescaled instance
/// costs at least `1 - eps` times what an optimal selection of the
/// unscaled instance costs.
pub proof fn lemma_scaled_optimum_ratio(
    knapsack: Knapsack,
    numerator: nat,
    denominator: nat,
    packed: Seq<usize>,
    optimum: Seq<usize>,
)
    requires
        0 < numerator < denominator,
        scales_within(knapsack, numerator, denominator),
        optimal(scaled(knapsack, numerator, denominator), packed),
        optimal(knapsack, optimum),
        highest_cost(knapsack.items) <= cost_of(knapsack.items, optimum),
    ensures
        denominator * cost_of(knapsack.items, packed) >= (denominator - numerator) * cost_of(
            knapsack.items,
            optimum,
        ),
{
    lemma_scaled_optimum_loss(knapsack, numerator, denominator, packed, optimum);
    let top = highest_cost(knapsack.items) as int;
    let best = cost_of(knapsack.items, optimum) as int;
    let got = cost_of(knapsack.items, packed) as int;
    assert(denominator * got >= (denominator - numerator) * best) by (nonlinear_arith)
        requires
            denominator * best <= denominator * got + numerator * top,
            top <= best,
            numerator >= 0,
    ;
}

/// The selection of the exact program for the rescaled instance fits into
/// the bag of the unscaled instance.
pub proof fn lemma_scaled_choice_fits(knapsack: Knapsack, numerator: nat, denominator: nat)
    requires
        knapsack.items.len() <= usize::MAX,
    ensures
        feasible(knapsack, exact_choice(scaled(knapsack, numerator, denominator))),
{
    let rescaled = scaled(knapsack, numerator, denominator);
    lemma_scaled_keeps_weights(knapsack, numerator, denominator, exact_choice(rescaled));
    lemma_exact_choice_is_optimal(rescaled);
}

} // verus!
