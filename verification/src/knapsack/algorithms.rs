//! The three algorithms for the knapsack problem: the greedy heuristic, the
//! exact dynamic program, and the approximation scheme built on it.
use vstd::prelude::*;
use vstd::string::StringExecFns;
use crate::algorithm::{Algorithm, TheoreticGuarantee, TheoreticValidation};
use crate::knapsack::exact::{
    best, exact_choice, lemma_best_bound, lemma_exact_choice_is_optimal, traceback,
};
use crate::knapsack::ratio::{
    break_item_counts, cost_where, greedy_takes, holds_taken, is_break_item, is_greedy_choice,
    leads,
    lemma_cost_where_bound, lemma_greedy_half_bound, lemma_ranks_total, lemma_ranks_transitive,
    lemma_weight_through_grows, lemma_where_nothing, lemma_where_of_selection,
    lemma_where_one_more, lemma_where_same, prefers_break_item, ranks_before, taken,
    weight_where,
};
use crate::knapsack::scaling::{
    highest_cost, lemma_highest_cost, lemma_scaled_cost, lemma_scaled_keeps_weights,
    lemma_scaled_optimum_loss, scaled, scales_within,
};
use crate::knapsack::{
    DefaultItem, Instance, Item, ItemModel, Knapsack, Solution, canonical, cost_of, feasible,
    models, names, optimal, weight_of,
};
use crate::primitives::Zero;
use crate::problem::{Solvable, SolutionKind};
use crate::program::{LpSolution, MathProgram};
use crate::reduction::Reduction;
use crate::text::{append_decimal, decimal};

verus! {

/// The exact dynamic program over the weights: it fills the table of best
/// costs and reads an optimal selection back from it.
pub struct SimpleDP;

impl<I: Item> Algorithm<Instance<I>> for SimpleDP {
    /// The table has one column for each weight up to the capacity, and the
    /// costs of all items must add up within the cost type.
    open spec fn accepts(&self, instance: &Instance<I>) -> bool {
        &&& instance@.capacity < usize::MAX
        &&& instance@.items.len() <= u32::MAX
    }

    /// The solution is the selection read back from the table, and it is
    /// optimal.
    open spec fn guarantees(&self, instance: &Instance<I>, solution: &Solution) -> bool {
        &&& solution.packs(exact_choice(instance@))
        &&& optimal(instance@, exact_choice(instance@))
    }

    fn run(&self, instance: &Instance<I>) -> (solution: Solution) {
        let items = instance.items();
        let capacity = *instance.bag_size();
        let table = fill_table(items, capacity);
        let packed = read_back(items, capacity, &table);
        proof {
            lemma_exact_choice_is_optimal(instance@);
        }
        Solution::Solved { packed_items: packed }
    }
}

/// Whether `table` holds, for each number of items up to `rows - 1` and each
/// weight up to `capacity`, the best cost.
pub open spec fn is_table<I: Item>(table: Seq<Vec<u64>>, items: Seq<I>, capacity: u32, rows: nat) -> bool {
    &&& table.len() == rows
    &&& forall|i: int|
        0 <= i < rows ==> {
            &&& (#[trigger] table[i]).len() == capacity + 1
            &&& forall|j: int|
                0 <= j <= capacity ==> (#[trigger] table[i][j]) == best(
                    models(items),
                    i as nat,
                    j as nat,
                )
        }
}

/// The table of best costs: row `i`, column `j` holds the best cost that the
/// first `i` items reach within weight `j`.
fn fill_table<I: Item>(items: &[I], capacity: u32) -> (table: Vec<Vec<u64>>)
    requires
        capacity < usize::MAX,
        items@.len() <= u32::MAX,
    ensures
        is_table(table@, items@, capacity, (items@.len() + 1) as nat),
{
    let ghost listed = models(items@);
    let width: usize = capacity as usize + 1;
    let mut first: Vec<u64> = Vec::new();
    let mut j: usize = 0;
    while j < width
        invariant
            j <= width,
            first.len() == j,
            forall|l: int| 0 <= l < j ==> (#[trigger] first[l]) == 0,
        decreases width - j,
    {
        first.push(0);
        j += 1;
    }
    let mut table: Vec<Vec<u64>> = Vec::new();
    table.push(first);
    let mut i: usize = 0;
    while i < items.len()
        invariant
            i <= items.len(),
            items@.len() <= u32::MAX,
            width == capacity + 1,
            listed == models(items@),
            is_table(table@, items@, capacity, (i + 1) as nat),
        decreases items.len() - i,
    {
        let weight = *items[i].weight() as usize;
        let cost = *items[i].cost() as u64;
        assert(listed[i as int] == items@[i as int].model());
        let mut row: Vec<u64> = Vec::new();
        let mut j: usize = 0;
        while j < width
            invariant
                j <= width,
                i < items.len(),
                items@.len() <= u32::MAX,
                width == capacity + 1,
                listed == models(items@),
                weight == listed[i as int].weight,
                cost == listed[i as int].cost,
                is_table(table@, items@, capacity, (i + 1) as nat),
                row.len() == j,
                forall|l: int|
                    0 <= l < j ==> (#[trigger] row[l]) == best(listed, (i + 1) as nat, l as nat),
            decreases width - j,
        {
            let without = table[i][j];
            let value = if weight > j {
                without
            } else {
                proof {
                    lemma_best_bound(listed, i as nat, (j - weight) as nat, u32::MAX as nat);
                }
                let with = table[i][j - weight] + cost;
                if without > with {
                    without
                } else {
                    with
                }
            };
            row.push(value);
            j += 1;
        }
        table.push(row);
        i += 1;
    }
    table
}

/// The selection that the table stands for: walking the items from the last
/// to the first, an item is packed where its row differs from the row
/// before at the weight that is left.
fn read_back<I: Item>(items: &[I], capacity: u32, table: &Vec<Vec<u64>>) -> (packed: Vec<usize>)
    requires
        is_table(table@, items@, capacity, (items@.len() + 1) as nat),
    ensures
        packed@ == traceback(models(items@), items@.len(), capacity as nat),
{
    let ghost listed = models(items@);
    let ghost mut tail: Seq<usize> = Seq::empty();
    let mut reversed: Vec<usize> = Vec::new();
    let mut left: usize = capacity as usize;
    let mut i: usize = items.len();
    while i > 0
        invariant
            i <= items.len(),
            left <= capacity,
            listed == models(items@),
            is_table(table@, items@, capacity, (items@.len() + 1) as nat),
            traceback(listed, items@.len(), capacity as nat) == traceback(
                listed,
                i as nat,
                left as nat,
            ) + tail,
            tail.len() == reversed.len(),
            forall|k: int| 0 <= k < tail.len() ==> tail[k] == reversed[reversed.len() - 1 - k],
        decreases i,
    {
        assert(listed[i - 1] == items@[i - 1].model());
        if table[i][left] != table[i - 1][left] {
            let ghost rest = traceback(
                listed,
                (i - 1) as nat,
                (left - listed[i - 1].weight) as nat,
            );
            proof {
                assert(rest.push((i - 1) as usize) + tail =~= rest + (seq![(i - 1) as usize] + tail));
                tail = seq![(i - 1) as usize] + tail;
            }
            reversed.push(i - 1);
            left -= *items[i - 1].weight() as usize;
        }
        i -= 1;
    }
    let mut packed: Vec<usize> = Vec::new();
    let mut k: usize = reversed.len();
    while k > 0
        invariant
            k <= reversed.len(),
            tail.len() == reversed.len(),
            forall|l: int| 0 <= l < tail.len() ==> tail[l] == reversed[reversed.len() - 1 - l],
            packed@ == tail.take(reversed.len() - k),
        decreases k,
    {
        k -= 1;
        packed.push(reversed[k]);
        proof {
            assert(packed@ =~= tail.take(reversed.len() - k));
        }
    }
    proof {
        assert(tail.take(reversed.len() as int) =~= tail);
        assert(traceback(listed, 0, left as nat) + tail =~= tail);
    }
    packed
}

/// The greedy heuristic: it packs the items in the order of their cost per
/// weight until one overflows the bag, and keeps that item alone where it
/// fits on its own and is worth more than all that was packed.
pub struct Greedy;

impl<I: Item> Algorithm<Instance<I>> for Greedy {
    /// The solution is the choice of the heuristic; it fits into the bag;
    /// and where the first overflowing item fits on its own or costs no more
    /// than the items taken, it costs at least half of what any selection
    /// that fits costs.
    open spec fn guarantees(&self, instance: &Instance<I>, solution: &Solution) -> bool {
        &&& solution matches Solution::Solved { packed_items }
        &&& is_greedy_choice(instance@, packed_items@)
        &&& feasible(instance@, packed_items@)
        &&& break_item_counts(instance@) ==> forall|other: Seq<usize>| #[trigger]
            feasible(instance@, other) ==> cost_of(instance@.items, other) <= 2 * cost_of(
                instance@.items,
                packed_items@,
            )
    }

    fn run(&self, instance: &Instance<I>) -> (solution: Solution) {
        proof {
            use_type_invariant(instance);
        }
        let items = instance.items();
        let capacity = *instance.bag_size();
        let packed = greedy_selection(items, capacity);
        proof {
            let knapsack = instance@;
            assert(knapsack == Knapsack { items: models(items@), capacity: capacity as nat });
            if break_item_counts(knapsack) {
                assert forall|other: Seq<usize>| #[trigger] feasible(knapsack, other) implies cost_of(
                    knapsack.items,
                    other,
                ) <= 2 * cost_of(knapsack.items, packed@) by {
                    lemma_greedy_half_bound(knapsack, packed@, other);
                }
            }
        }
        Solution::Solved { packed_items: packed }
    }
}

/// The evidence that the greedy heuristic fell short: the cost it achieved
/// and the optimal cost, of which it owes half.
pub open spec fn greedy_shortfall_text(achieved: nat, optimum: nat) -> Seq<char> {
    "Greedy algorithm did not achieve its theoretical approximation ratio: "@ + decimal(achieved)
        + " < 1/2 * "@ + decimal(optimum)
}

/// Whether `guarantee` is the outcome of holding the cost that the greedy
/// heuristic achieved against the cost of a reference solution:
/// `Consistent` where it achieved at least half, `Inconsistent` with the
/// evidence where it achieved less, and `Failed` where one of the two
/// solutions has no cost.
pub open spec fn greedy_verdict(
    achieved: Option<u64>,
    reference: Option<u64>,
    guarantee: TheoreticGuarantee,
) -> bool {
    match (achieved, reference) {
        (Some(cost), Some(optimum)) => if 2 * cost >= optimum {
            guarantee is Consistent
        } else {
            guarantee matches TheoreticGuarantee::Inconsistent(text) && text@
                == greedy_shortfall_text(cost as nat, optimum as nat)
        },
        _ => guarantee matches TheoreticGuarantee::Failed(text) && text@ == uncomputed_text(),
    }
}

impl Greedy {
    /// Holds `solution` against `reference`, a solution of the same instance
    /// that an exact method found.
    pub fn judge<I: Item>(&self, instance: &Instance<I>, solution: &Solution, reference: &Solution) -> (guarantee:
        TheoreticGuarantee)
        ensures
            greedy_verdict(solution.cost_spec(instance), reference.cost_spec(instance), guarantee),
    {
        match (solution.cost(instance), reference.cost(instance)) {
            (Some(achieved), Some(optimum)) => {
                if reaches(achieved, optimum, 1, 2) {
                    TheoreticGuarantee::Consistent
                } else {
                    let mut text = String::from_str(
                        "Greedy algorithm did not achieve its theoretical approximation ratio: ",
                    );
                    append_decimal(&mut text, achieved as u128);
                    text.append(" < 1/2 * ");
                    append_decimal(&mut text, optimum as u128);
                    TheoreticGuarantee::Inconsistent(text)
                }
            },
            _ => TheoreticGuarantee::Failed(
                String::from_str(
                    "Error: Cost of optimal solution and algorithm could not have been computed!",
                ),
            ),
        }
    }

    /// Holds `solution` against the bound of the heuristic. The reference
    /// is the solution that `oracle`, a solver of linear programs, finds for
    /// the reduced instance.
    pub fn validate<I: Item, A: Algorithm<MathProgram>>(
        &self,
        instance: &Instance<I>,
        solution: &Solution,
        oracle: &A,
    ) -> (guarantee: TheoreticGuarantee)
        requires
            forall|reduced: MathProgram| #[trigger]
                instance.reduces_to(&reduced) ==> oracle.accepts(&reduced),
            forall|reduced: MathProgram, answer: LpSolution|
                instance.reduces_to(&reduced) && #[trigger] oracle.guarantees(&reduced, &answer)
                    ==> instance.can_map_back(&answer),
        ensures
            exists|reduced: MathProgram, answer: LpSolution, reference: Solution|
                instance.reduces_to(&reduced) && #[trigger] oracle.guarantees(&reduced, &answer)
                    && #[trigger] instance.maps_back(&answer, &reference) && greedy_verdict(
                    solution.cost_spec(instance),
                    reference.cost_spec(instance),
                    guarantee,
                ),
    {
        let reference = instance.solve_by_reduction(oracle);
        self.judge(instance, solution, &reference)
    }
}

/// Whether item `a` ranks before item `b`.
fn goes_first<I: Item>(items: &[I], a: usize, b: usize) -> (first: bool)
    requires
        a < items@.len(),
        b < items@.len(),
    ensures
        first == ranks_before(models(items@), a as int, b as int),
{
    let cost_a = *items[a].cost() as u64;
    let weight_a = *items[a].weight() as u64;
    let cost_b = *items[b].cost() as u64;
    let weight_b = *items[b].weight() as u64;
    assert(cost_a * weight_b <= 0xFFFF_FFFF * 0xFFFF_FFFF && cost_b * weight_a <= 0xFFFF_FFFF
        * 0xFFFF_FFFF) by (nonlinear_arith)
        requires
            cost_a <= 0xFFFF_FFFF,
            weight_a <= 0xFFFF_FFFF,
            cost_b <= 0xFFFF_FFFF,
            weight_b <= 0xFFFF_FFFF,
    ;
    let left = cost_a * weight_b;
    let right = cost_b * weight_a;
    assert(models(items@)[a as int] == items@[a as int].model());
    assert(models(items@)[b as int] == items@[b as int].model());
    left > right || (left == right && a < b)
}

/// `order` lists every item from `lo` up to `hi` once, each before all that
/// it ranks before.
pub open spec fn ranks_range(items: Seq<ItemModel>, order: Seq<usize>, lo: int, hi: int) -> bool {
    &&& order.len() == hi - lo
    &&& forall|s: int| 0 <= s < order.len() ==> lo <= (#[trigger] order[s]) < hi
    &&& forall|s: int, t: int|
        0 <= s < t < order.len() ==> ranks_before(items, order[s] as int, order[t] as int)
    &&& forall|j: int| lo <= j < hi ==> #[trigger] names(order, j)
}

/// The items from `lo` up to `hi` in the order of their ratios, by a merge
/// sort.
fn rank_range<I: Item>(items: &[I], lo: usize, hi: usize) -> (order: Vec<usize>)
    requires
        lo <= hi <= items@.len(),
        forall|i: int| 0 <= i < items@.len() ==> (#[trigger] models(items@)[i]).weight > 0,
    ensures
        ranks_range(models(items@), order@, lo as int, hi as int),
    decreases hi - lo,
{
    let mut order: Vec<usize> = Vec::new();
    if hi - lo == 0 {
        order
    } else if hi - lo == 1 {
        order.push(lo);
        assert(order@[0] == lo);
        assert(names(order@, lo as int));
        order
    } else {
        let mid = lo + (hi - lo) / 2;
        let left = rank_range(items, lo, mid);
        let right = rank_range(items, mid, hi);
        merge_ranked(items, &left, &right, lo, mid, hi)
    }
}

/// The two ranked lists merged into one.
fn merge_ranked<I: Item>(
    items: &[I],
    left: &Vec<usize>,
    right: &Vec<usize>,
    lo: usize,
    mid: usize,
    hi: usize,
) -> (order: Vec<usize>)
    requires
        lo <= mid <= hi <= items@.len(),
        forall|i: int| 0 <= i < items@.len() ==> (#[trigger] models(items@)[i]).weight > 0,
        ranks_range(models(items@), left@, lo as int, mid as int),
        ranks_range(models(items@), right@, mid as int, hi as int),
    ensures
        ranks_range(models(items@), order@, lo as int, hi as int),
{
    let ghost listed = models(items@);
    let mut order: Vec<usize> = Vec::new();
    let mut i: usize = 0;
    let mut j: usize = 0;
    while i < left.len() || j < right.len()
        invariant
            i <= left.len(),
            j <= right.len(),
            order.len() == i + j,
            lo <= mid <= hi <= items@.len(),
            listed == models(items@),
            forall|i: int| 0 <= i < items@.len() ==> (#[trigger] listed[i]).weight > 0,
            ranks_range(listed, left@, lo as int, mid as int),
            ranks_range(listed, right@, mid as int, hi as int),
            forall|p: int| 0 <= p < order.len() ==> lo <= (#[trigger] order[p]) < hi,
            forall|p: int, q: int|
                0 <= p < q < order.len() ==> ranks_before(listed, order[p] as int, order[q] as int),
            forall|p: int, s: int|
                0 <= p < order.len() && i <= s < left.len() ==> ranks_before(
                    listed,
                    order[p] as int,
                    left[s] as int,
                ),
            forall|p: int, t: int|
                0 <= p < order.len() && j <= t < right.len() ==> ranks_before(
                    listed,
                    order[p] as int,
                    right[t] as int,
                ),
            forall|s: int| 0 <= s < i ==> names(order@, #[trigger] left[s] as int),
            forall|t: int| 0 <= t < j ==> names(order@, #[trigger] right[t] as int),
        decreases left.len() - i + right.len() - j,
    {
        let ghost before = order@;
        let from_left = if i == left.len() {
            false
        } else if j == right.len() {
            true
        } else {
            goes_first(items, left[i], right[j])
        };
        if from_left {
            let x = left[i];
            proof {
                assert forall|t: int| j <= t < right.len() implies ranks_before(
                    listed,
                    x as int,
                    right[t] as int,
                ) by {
                    if t > j {
                        lemma_ranks_transitive(listed, x as int, right[j as int] as int, right[t] as int);
                    }
                }
            }
            order.push(x);
            i += 1;
        } else {
            let x = right[j];
            proof {
                assert forall|s: int| i <= s < left.len() implies ranks_before(
                    listed,
                    x as int,
                    left[s] as int,
                ) by {
                    lemma_ranks_total(listed, left[i as int] as int, x as int);
                    if s > i {
                        lemma_ranks_transitive(listed, x as int, left[i as int] as int, left[s] as int);
                    }
                }
            }
            order.push(x);
            j += 1;
        }
        proof {
            let last = order.len() - 1;
            assert forall|s: int| 0 <= s < i implies names(order@, #[trigger] left[s] as int) by {
                if from_left && s == i - 1 {
                    assert(order@[last] == left[s]);
                } else {
                    assert(names(before, left[s] as int));
                    let p = choose|p: int| 0 <= p < before.len() && before[p] == left[s];
                    assert(order@[p] == left[s]);
                }
            }
            assert forall|t: int| 0 <= t < j implies names(order@, #[trigger] right[t] as int) by {
                if !from_left && t == j - 1 {
                    assert(order@[last] == right[t]);
                } else {
                    assert(names(before, right[t] as int));
                    let p = choose|p: int| 0 <= p < before.len() && before[p] == right[t];
                    assert(order@[p] == right[t]);
                }
            }
        }
    }
    proof {
        assert forall|x: int| lo <= x < hi implies #[trigger] names(order@, x) by {
            if x < mid {
                assert(names(left@, x));
                let s = choose|s: int| 0 <= s < left.len() && left[s] == x;
                assert(names(order@, left[s] as int));
            } else {
                assert(names(right@, x));
                let t = choose|t: int| 0 <= t < right.len() && right[t] == x;
                assert(names(order@, right[t] as int));
            }
        }
    }
    order
}

/// The items that are marked in `flags`.
pub open spec fn marked(flags: Seq<bool>) -> Set<int> {
    Set::new(|i: int| 0 <= i < flags.len() && flags[i])
}

/// The indices that are marked in `flags`, ascending.
fn marked_indices(flags: &Vec<bool>) -> (packed: Vec<usize>)
    ensures
        canonical(flags@.len(), packed@),
        forall|i: int| 0 <= i < flags@.len() ==> (flags@[i] <==> #[trigger] names(packed@, i)),
{
    let mut packed: Vec<usize> = Vec::new();
    let mut i: usize = 0;
    while i < flags.len()
        invariant
            i <= flags.len(),
            canonical(i as nat, packed@),
            forall|l: int| 0 <= l < i ==> (flags@[l] <==> #[trigger] names(packed@, l)),
        decreases flags.len() - i,
    {
        let ghost before = packed@;
        if flags[i] {
            packed.push(i);
        }
        proof {
            assert forall|l: int| 0 <= l < i + 1 implies (flags@[l] <==> #[trigger] names(
                packed@,
                l,
            )) by {
                if names(before, l) {
                    let k = choose|k: int| 0 <= k < before.len() && before[k] == l;
                    assert(packed@[k] == l);
                }
                if names(packed@, l) {
                    let k = choose|k: int| 0 <= k < packed@.len() && packed@[k] == l;
                    if k < before.len() {
                        assert(before[k] == l);
                        assert(names(before, l));
                    }
                }
                if l == i && flags@[l] {
                    assert(packed@[packed@.len() - 1] == l);
                }
            }
        }
        i += 1;
    }
    packed
}

/// The choice of the greedy heuristic among `items` for a bag of
/// `capacity`.
fn greedy_selection<I: Item>(items: &[I], capacity: u32) -> (packed: Vec<usize>)
    requires
        (Knapsack { items: models(items@), capacity: capacity as nat }).wf(),
    ensures
        is_greedy_choice(
            Knapsack { items: models(items@), capacity: capacity as nat },
            packed@,
        ),
        feasible(Knapsack { items: models(items@), capacity: capacity as nat }, packed@),
{
    let ghost listed = models(items@);
    let ghost knapsack = Knapsack { items: listed, capacity: capacity as nat };
    let n = items.len();
    let order = rank_range(items, 0, n);
    let mut flags: Vec<bool> = Vec::new();
    let mut i: usize = 0;
    while i < n
        invariant
            i <= n,
            flags.len() == i,
            forall|l: int| 0 <= l < i ==> !(#[trigger] flags[l]),
        decreases n - i,
    {
        flags.push(false);
        i += 1;
    }
    let mut weight: u32 = u32::zero();
    let mut cost: u128 = 0;
    let mut overflowing: Option<usize> = None;
    proof {
        lemma_where_nothing(listed, marked(flags@), n as nat);
    }
    let mut t: usize = 0;
    while t < n && overflowing.is_none()
        invariant
            t <= n,
            n == items@.len(),
            listed == models(items@),
            knapsack == (Knapsack { items: listed, capacity: capacity as nat }),
            knapsack.wf(),
            ranks_range(listed, order@, 0, n as int),
            flags.len() == n,
            forall|l: int| 0 <= l < n ==> (#[trigger] flags[l] <==> names(order@.take(t as int), l)),
            weight == weight_where(listed, marked(flags@), n as nat),
            cost == cost_where(listed, marked(flags@), n as nat),
            weight <= capacity,
            forall|s: int| 0 <= s < t ==> greedy_takes(knapsack, #[trigger] order[s] as int),
            match overflowing {
                Some(b) => t < n && b == order[t as int] && is_break_item(knapsack, b as int),
                None => true,
            },
        decreases n - t + (if overflowing is None { 1int } else { 0int }),
    {
        let x = order[t];
        let item_weight = *items[x].weight();
        let item_cost = *items[x].cost() as u128;
        proof {
            assert(listed[x as int] == items@[x as int].model());
            let with_x = marked(flags@).insert(x as int);
            if flags[x as int] {
                let s = choose|s: int|
                    0 <= s < order@.take(t as int).len() && order@.take(t as int)[s] == x;
                assert(ranks_before(listed, order[s] as int, order[t as int] as int));
            }
            lemma_where_one_more(listed, marked(flags@), with_x, x as int, n as nat);
            assert forall|l: int| 0 <= l < n implies (#[trigger] with_x.contains(l) <==> leads(
                listed,
                x as int,
            ).contains(l)) by {
                if l != x {
                    if flags[l] {
                        let s = choose|s: int|
                            0 <= s < order@.take(t as int).len() && order@.take(t as int)[s] == l;
                        assert(ranks_before(listed, order[s] as int, order[t as int] as int));
                    }
                    if ranks_before(listed, l, x as int) {
                        assert(names(order@, l));
                        let s = choose|s: int| 0 <= s < order.len() && order[s] == l;
                        lemma_ranks_total(listed, l, x as int);
                        if s > t {
                            assert(ranks_before(listed, order[t as int] as int, order[s] as int));
                        }
                        assert(order@.take(t as int)[s] == l);
                        assert(names(order@.take(t as int), l));
                    }
                }
            }
            lemma_where_same(listed, with_x, leads(listed, x as int), n as nat);
            lemma_cost_where_bound(listed, marked(flags@), n as nat);
        }
        if item_weight > capacity - weight {
            overflowing = Some(x);
        } else {
            let ghost before = flags@;
            flags.set(x, true);
            weight = weight + item_weight;
            cost = cost + item_cost;
            t += 1;
            proof {
                assert(marked(flags@) =~= marked(before).insert(x as int));
                assert forall|l: int| 0 <= l < n implies (#[trigger] flags[l] <==> names(
                    order@.take(t as int),
                    l,
                )) by {
                    let shorter = order@.take(t - 1);
                    let longer = order@.take(t as int);
                    if names(shorter, l) {
                        let s = choose|s: int| 0 <= s < shorter.len() && shorter[s] == l;
                        assert(longer[s] == l);
                    }
                    if names(longer, l) {
                        let s = choose|s: int| 0 <= s < longer.len() && longer[s] == l;
                        if s < t - 1 {
                            assert(shorter[s] == l);
                            assert(names(shorter, l));
                        }
                    }
                    if l == x {
                        assert(longer[t - 1] == l);
                    }
                }
            }
        }
    }
    proof {
        assert forall|l: int| 0 <= l < n implies (#[trigger] greedy_takes(knapsack, l) <==> flags[l]) by {
            assert(names(order@, l));
            let s = choose|s: int| 0 <= s < order.len() && order[s] == l;
            if s < t {
                assert(order@.take(t as int)[s] == l);
                assert(names(order@.take(t as int), l));
            } else {
                if names(order@.take(t as int), l) {
                    let r = choose|r: int|
                        0 <= r < order@.take(t as int).len() && order@.take(t as int)[r] == l;
                    assert(ranks_before(listed, order[r] as int, order[s] as int));
                }
                let b = order[t as int] as int;
                if s > t {
                    lemma_weight_through_grows(listed, b, l);
                }
            }
        }
        lemma_where_same(listed, marked(flags@), taken(knapsack), n as nat);
    }
    let switch = match overflowing {
        Some(b) => {
            assert(listed[b as int] == items@[b as int].model());
            *items[b].weight() <= capacity && *items[b].cost() as u128 > cost
        },
        None => false,
    };
    if switch {
        let b = overflowing.unwrap();
        let mut packed: Vec<usize> = Vec::new();
        packed.push(b);
        proof {
            assert(packed@ =~= seq![b]);
            assert(weight_of(listed, packed@.drop_last()) == 0);
        }
        packed
    } else {
        let packed = marked_indices(&flags);
        proof {
            assert forall|l: int| 0 <= l < n implies (marked(flags@).contains(l) <==> #[trigger] names(
                packed@,
                l,
            )) by {}
            lemma_where_of_selection(listed, packed@, marked(flags@), n as nat);
            match overflowing {
                Some(b) => {
                    assert(!prefers_break_item(knapsack, b as int));
                },
                None => {
                    assert forall|l: int| 0 <= l < n implies #[trigger] greedy_takes(knapsack, l) by {
                        assert(names(order@, l));
                        let s = choose|s: int| 0 <= s < order.len() && order[s] == l;
                        assert(greedy_takes(knapsack, order[s] as int));
                    }
                },
            }
        }
        packed
    }
}

/// The approximation scheme for `eps = numerator / denominator`: it divides
/// the costs by `eps` times the highest cost over the number of items,
/// rounds them down, and solves the rescaled instance exactly.
pub struct FPTAS {
    numerator: u32,
    denominator: u32,
}

impl FPTAS {
    /// The numerator and the denominator of `eps`.
    pub closed spec fn eps(&self) -> (nat, nat) {
        (self.numerator as nat, self.denominator as nat)
    }

    /// `eps` lies strictly between zero and one.
    #[verifier::type_invariant]
    pub open spec fn proper(&self) -> bool {
        0 < self.eps().0 < self.eps().1
    }

    /// The scheme for `eps = numerator / denominator`. An `eps` that does
    /// not lie strictly between zero and one is refused.
    pub fn new(numerator: u32, denominator: u32) -> (scheme: Option<Self>)
        ensures
            scheme is Some <==> 0 < numerator < denominator,
            scheme matches Some(made) ==> made.eps() == (numerator as nat, denominator as nat),
    {
        if 0 < numerator && numerator < denominator {
            Some(FPTAS { numerator, denominator })
        } else {
            None
        }
    }
}

impl<I: Item> Algorithm<Instance<I>> for FPTAS {
    /// The table of the exact program has one column for each weight up to
    /// the capacity, and the rescaled costs must fit the cost type of an
    /// item.
    open spec fn accepts(&self, instance: &Instance<I>) -> bool {
        &&& instance@.capacity < usize::MAX
        &&& scales_within(instance@, self.eps().0, self.eps().1)
    }

    /// The solution is the selection of the exact program for the rescaled
    /// instance; it fits into the bag; and it costs at least what any
    /// selection that fits costs, less `eps` times the highest cost.
    open spec fn guarantees(&self, instance: &Instance<I>, solution: &Solution) -> bool {
        &&& solution matches Solution::Solved { packed_items }
        &&& packed_items@ == exact_choice(scaled(instance@, self.eps().0, self.eps().1))
        &&& feasible(instance@, packed_items@)
        &&& forall|other: Seq<usize>| #[trigger]
            feasible(instance@, other) ==> self.eps().1 * cost_of(instance@.items, other)
                <= self.eps().1 * cost_of(instance@.items, packed_items@) + self.eps().0
                * highest_cost(instance@.items)
    }

    fn run(&self, instance: &Instance<I>) -> (solution: Solution) {
        proof {
            use_type_invariant(self);
            use_type_invariant(instance);
        }
        let ghost knapsack = instance@;
        let ghost numerator = self.eps().0;
        let ghost denominator = self.eps().1;
        let items = instance.items();
        let n = items.len();
        assert(n < 0x1_0000_0000) by (nonlinear_arith)
            requires
                n * denominator < 0x1_0000_0000 * numerator,
                0 < numerator < denominator,
        ;
        let top = top_cost(items);
        let solution = if n == 0 || top == 0 {
            SimpleDP.run(instance)
        } else {
            let mut rescaled: Vec<DefaultItem> = Vec::new();
            let mut i: usize = 0;
            while i < n
                invariant
                    i <= n,
                    n == items@.len(),
                    n < 0x1_0000_0000,
                    top == highest_cost(knapsack.items),
                    0 < top,
                    numerator == self.numerator,
                    denominator == self.denominator,
                    0 < numerator < denominator,
                    knapsack.items == models(items@),
                    knapsack.wf(),
                    scales_within(knapsack, numerator, denominator),
                    rescaled.len() == i,
                    forall|l: int|
                        0 <= l < i ==> (#[trigger] rescaled[l]).model() == scaled(
                            knapsack,
                            numerator,
                            denominator,
                        ).items[l],
                decreases n - i,
            {
                let cost = *items[i].cost();
                let weight = *items[i].weight();
                proof {
                    assert(knapsack.items[i as int] == items@[i as int].model());
                    lemma_highest_cost(knapsack.items, i as int);
                    lemma_scaled_cost(cost, n as nat, numerator, denominator, top as nat);
                    assert(cost * n * self.denominator <= 0xFFFF_FFFF * 0xFFFF_FFFF * 0xFFFF_FFFF
                        && cost * n <= 0xFFFF_FFFF * 0xFFFF_FFFF && self.numerator * top
                        <= 0xFFFF_FFFF * 0xFFFF_FFFF && self.numerator * top > 0)
                        by (nonlinear_arith)
                        requires
                            0 <= cost <= 0xFFFF_FFFF,
                            0 <= n <= 0xFFFF_FFFF,
                            0 <= self.denominator <= 0xFFFF_FFFF,
                            0 < self.numerator <= 0xFFFF_FFFF,
                            0 < top <= 0xFFFF_FFFF,
                    ;
                }
                let dividend = cost as u128 * n as u128 * self.denominator as u128;
                let divisor = self.numerator as u128 * top as u128;
                let quotient = dividend / divisor;
                rescaled.push(DefaultItem::from((quotient as u32, weight)));
                i += 1;
            }
            let smaller = Instance::of_weighing(rescaled, *instance.bag_size());
            proof {
                assert(smaller@.items =~= scaled(knapsack, numerator, denominator).items);
                assert(smaller@ == scaled(knapsack, numerator, denominator));
            }
            smaller.run(SimpleDP)
        };
        proof {
            let packed = exact_choice(scaled(knapsack, numerator, denominator));
            lemma_scaled_keeps_weights(knapsack, numerator, denominator, packed);
            assert forall|other: Seq<usize>| #[trigger] feasible(knapsack, other) implies denominator
                * cost_of(knapsack.items, other) <= denominator * cost_of(knapsack.items, packed)
                + numerator * highest_cost(knapsack.items) by {
                lemma_scaled_optimum_loss(knapsack, numerator, denominator, packed, other);
            }
        }
        solution
    }
}

/// The highest cost among `items`.
fn top_cost<I: Item>(items: &[I]) -> (top: u32)
    ensures
        top == highest_cost(models(items@)),
{
    let ghost listed = models(items@);
    let mut top: u32 = u32::zero();
    let mut i: usize = 0;
    while i < items.len()
        invariant
            i <= items.len(),
            listed == models(items@),
            top == highest_cost(listed.take(i as int)),
        decreases items.len() - i,
    {
        let cost = *items[i].cost();
        proof {
            assert(listed[i as int] == items@[i as int].model());
            assert(listed.take(i + 1).drop_last() =~= listed.take(i as int));
        }
        if cost > top {
            top = cost;
        }
        i += 1;
    }
    proof {
        assert(listed.take(i as int) =~= listed);
    }
    top
}

/// Whether `achieved` is at least the fraction `share / scale` of
/// `reference`.
fn reaches(achieved: u64, reference: u64, share: u32, scale: u32) -> (reached: bool)
    ensures
        reached == (scale * achieved >= share * reference),
{
    assert(scale * achieved <= 0xFFFF_FFFF * 0xFFFF_FFFF_FFFF_FFFF && share * reference
        <= 0xFFFF_FFFF * 0xFFFF_FFFF_FFFF_FFFF) by (nonlinear_arith)
        requires
            0 <= scale <= 0xFFFF_FFFF,
            0 <= share <= 0xFFFF_FFFF,
            0 <= achieved <= 0xFFFF_FFFF_FFFF_FFFF,
            0 <= reference <= 0xFFFF_FFFF_FFFF_FFFF,
    ;
    scale as u128 * achieved as u128 >= share as u128 * reference as u128
}

/// The message of a validation that could not run.
pub open spec fn uncomputed_text() -> Seq<char> {
    "Error: Cost of optimal solution and algorithm could not have been computed!"@
}

/// The evidence that the scheme for `eps = numerator / denominator` fell
/// short: the cost it achieved, the fraction it owes, and the optimal cost.
pub open spec fn scheme_shortfall_text(
    numerator: nat,
    denominator: nat,
    achieved: nat,
    optimum: nat,
) -> Seq<char> {
    "FPTAS (eps = "@ + decimal(numerator) + "/"@ + decimal(denominator)
        + ") did not achieve its theoretical approximation ratio: "@ + decimal(achieved) + " < "@
        + decimal((denominator - numerator) as nat) + "/"@ + decimal(denominator) + " * "@
        + decimal(optimum)
}

impl<I: Item> TheoreticValidation<Instance<I>> for FPTAS {
    /// The reference is the solution of the exact program, which must take
    /// the instance.
    open spec fn validates(&self, instance: &Instance<I>) -> bool {
        SimpleDP.accepts(instance)
    }

    /// `Consistent` where the solution costs at least `1 - eps` times the
    /// optimal cost, `Inconsistent` with the evidence where it costs less,
    /// and `Failed` where it has no cost.
    open spec fn verdict(
        &self,
        instance: &Instance<I>,
        solution: &Solution,
        guarantee: TheoreticGuarantee,
    ) -> bool {
        let optimum = cost_of(instance@.items, exact_choice(instance@));
        match solution.cost_spec(instance) {
            Some(achieved) => if self.eps().1 * achieved >= (self.eps().1 - self.eps().0)
                * optimum {
                guarantee is Consistent
            } else {
                guarantee matches TheoreticGuarantee::Inconsistent(text) && text@
                    == scheme_shortfall_text(self.eps().0, self.eps().1, achieved as nat, optimum)
            },
            None => guarantee matches TheoreticGuarantee::Failed(text) && text@
                == uncomputed_text(),
        }
    }

    fn validate(&self, instance: &Instance<I>, solution: &Solution) -> (guarantee:
        TheoreticGuarantee) {
        proof {
            use_type_invariant(self);
            lemma_exact_choice_is_optimal(instance@);
            lemma_best_bound(
                instance@.items,
                instance@.items.len(),
                instance@.capacity,
                u32::MAX as nat,
            );
        }
        let optimal_solution = instance.run(SimpleDP);
        match (solution.cost(instance), optimal_solution.cost(instance)) {
            (Some(achieved), Some(optimum)) => {
                if reaches(achieved, optimum, self.denominator - self.numerator, self.denominator) {
                    TheoreticGuarantee::Consistent
                } else {
                    let mut text = String::from_str("FPTAS (eps = ");
                    append_decimal(&mut text, self.numerator as u128);
                    text.append("/");
                    append_decimal(&mut text, self.denominator as u128);
                    text.append(") did not achieve its theoretical approximation ratio: ");
                    append_decimal(&mut text, achieved as u128);
                    text.append(" < ");
                    append_decimal(&mut text, (self.denominator - self.numerator) as u128);
                    text.append("/");
                    append_decimal(&mut text, self.denominator as u128);
                    text.append(" * ");
                    append_decimal(&mut text, optimum as u128);
                    TheoreticGuarantee::Inconsistent(text)
                }
            },
            _ => TheoreticGuarantee::Failed(
                String::from_str(
                    "Error: Cost of optimal solution and algorithm could not have been computed!",
                ),
            ),
        }
    }
}

} // verus!
