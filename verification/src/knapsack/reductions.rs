//! The reduction of the knapsack problem to a linear program over binary
//! variables: one variable for each item, the costs as the objective, and
//! the weights against the capacity as the one constraint.
use vstd::prelude::*;
use vstd::string::StringExecFns;
use crate::knapsack::ratio::{cost_where, lemma_where_of_selection, weight_where};
use crate::knapsack::exact::{exact_choice, lemma_exact_choice_is_optimal, lemma_optimal_costs_agree};
use crate::knapsack::{
    Instance, Item, ItemModel, Knapsack, Solution, canonical, cost_of, feasible,
    lemma_canonical_unique, models, names, optimal, weight_of,
};
use crate::program::{
    Constraint, ConstraintModel, LpSolution, MathProgram, ONE, ProgramModel, Single, binary,
    program_of, weighted_sum,
};
use lp_modeler::dsl::LpBinary;
use crate::reduction::Reduction;
use crate::text::{append_decimal, decimal, lemma_decimal_injective};

verus! {

/// The name of the variable that stands for the item at `index`.
pub open spec fn variable_name(index: nat) -> Seq<char> {
    "x_"@ + decimal(index)
}

/// The program that a knapsack instance reduces to.
pub open spec fn knapsack_program(knapsack: Knapsack) -> ProgramModel {
    let n = knapsack.items.len();
    ProgramModel {
        variables: Seq::new(n, |i: int| variable_name(i as nat)),
        objective: Seq::new(n, |i: int| knapsack.items[i].cost as nat),
        constraints: seq![
            ConstraintModel {
                coefficients: Seq::new(n, |i: int| knapsack.items[i].weight as nat),
                bound: knapsack.capacity,
            },
        ],
    }
}

/// Whether the variable of the item at `index` has the value one.
pub open spec fn is_one(vars: Map<Seq<char>, Single>, index: nat) -> bool {
    vars.contains_key(variable_name(index)) && vars[variable_name(index)].bits == ONE
}

/// The items among the first `n` whose variables have the value one, in
/// ascending order.
pub open spec fn picked(vars: Map<Seq<char>, Single>, n: nat) -> Seq<usize>
    decreases n,
{
    if n == 0 {
        Seq::empty()
    } else if is_one(vars, (n - 1) as nat) {
        picked(vars, (n - 1) as nat).push((n - 1) as usize)
    } else {
        picked(vars, (n - 1) as nat)
    }
}

impl<I: Item> Reduction<MathProgram> for Instance<I> {
    /// The reduced instance is the knapsack program of this instance.
    open spec fn reduces_to(&self, reduced: &MathProgram) -> bool {
        reduced@ == knapsack_program(self@)
    }

    /// A program with binary variables under one constraint has a bounded
    /// objective: an answer that calls it unbounded stands for no solution.
    open spec fn can_map_back(&self, solution: &LpSolution) -> bool {
        !(solution is Unbounded)
    }

    /// A found assignment stands for the items whose variables are one, an
    /// infeasible program for an infeasible instance, and a failure for a
    /// failure with the same text.
    open spec fn maps_back(&self, solution: &LpSolution, own: &Solution) -> bool {
        match solution {
            LpSolution::Solved { vars, .. } => own.packs(picked(vars@, self@.items.len())),
            LpSolution::Infeasible => own is Infeasible,
            LpSolution::Failed(text) => own matches Solution::Failed(same) && same@ == text@,
            LpSolution::Unbounded => true,
        }
    }

    fn reduce_instance(&self) -> (reduced: MathProgram) {
        let items = self.items();
        let mut variables: Vec<LpBinary> = Vec::new();
        let mut objective: Vec<u32> = Vec::new();
        let mut weights: Vec<u32> = Vec::new();
        let mut index: usize = 0;
        while index < items.len()
            invariant
                index <= items.len(),
                models(items@) == self@.items,
                variables.len() == index,
                objective.len() == index,
                weights.len() == index,
                forall|i: int|
                    0 <= i < index ==> (#[trigger] variables[i]).name@ == variable_name(i as nat),
                forall|i: int| 0 <= i < index ==> (#[trigger] objective[i]) == self@.items[i].cost,
                forall|i: int| 0 <= i < index ==> (#[trigger] weights[i]) == self@.items[i].weight,
            decreases items.len() - index,
        {
            let mut name = String::from_str("x_");
            append_decimal(&mut name, index as u128);
            variables.push(binary(name.as_str()));
            assert(self@.items[index as int] == items@[index as int].model());
            objective.push(*items[index].cost());
            weights.push(*items[index].weight());
            index += 1;
        }
        let mut constraints: Vec<Constraint> = Vec::new();
        constraints.push(Constraint { coefficients: weights, bound: *self.bag_size() });
        proof {
            let model = program_of(variables@, objective@, constraints@);
            assert(model.constraints[0].coefficients.len() == model.variables.len());
        }
        let reduced = MathProgram::of_matching(variables, objective, constraints);
        proof {
            let expected = knapsack_program(self@);
            assert(reduced@.variables =~= expected.variables);
            assert(reduced@.objective =~= expected.objective);
            assert(reduced@.constraints[0].coefficients =~= expected.constraints[0].coefficients);
            assert(reduced@.constraints =~= expected.constraints);
        }
        reduced
    }

    fn reduce_solution(&self, solution: &LpSolution) -> (own: Solution) {
        match solution {
            LpSolution::Failed(text) => Solution::Failed(text.clone()),
            LpSolution::Infeasible => Solution::Infeasible,
            LpSolution::Unbounded => vstd::pervasive::unreached(),
            LpSolution::Solved { vars, .. } => {
                let n = self.number_of_items();
                let mut packed: Vec<usize> = Vec::new();
                let mut index: usize = 0;
                while index < n
                    invariant
                        index <= n,
                        packed@ == picked(vars@, index as nat),
                    decreases n - index,
                {
                    let mut name = String::from_str("x_");
                    append_decimal(&mut name, index as u128);
                    let one = match vars.get(name.as_str()) {
                        Some(value) => value.is_one(),
                        None => false,
                    };
                    if one {
                        packed.push(index);
                    }
                    index += 1;
                }
                Solution::Solved { packed_items: packed }
            },
        }
    }
}

/// Different items have variables of different names.
pub proof fn lemma_variable_names_differ(a: nat, b: nat)
    requires
        variable_name(a) == variable_name(b),
    ensures
        a == b,
{
    let prefix = "x_"@;
    assert(variable_name(a).subrange(prefix.len() as int, variable_name(a).len() as int)
        =~= decimal(a));
    assert(variable_name(b).subrange(prefix.len() as int, variable_name(b).len() as int)
        =~= decimal(b));
    lemma_decimal_injective(a, b);
}

/// The items picked from an assignment are in canonical form, and they are
/// the items whose variables are one.
pub proof fn lemma_picked(vars: Map<Seq<char>, Single>, n: nat)
    requires
        n <= usize::MAX,
    ensures
        canonical(n, picked(vars, n)),
        forall|i: int| 0 <= i < n ==> (is_one(vars, i as nat) <==> #[trigger] names(picked(vars, n), i)),
    decreases n,
{
    if n > 0 {
        let rest = picked(vars, (n - 1) as nat);
        let whole = picked(vars, n);
        lemma_picked(vars, (n - 1) as nat);
        assert forall|k: int| 0 <= k < whole.len() implies (#[trigger] whole[k]) < n by {
            if k < rest.len() {
                assert(whole[k] == rest[k]);
            }
        }
        assert forall|k: int, l: int| 0 <= k < l < whole.len() implies whole[k] < whole[l] by {
            assert(whole[k] == rest[k]);
            if l < rest.len() {
                assert(whole[l] == rest[l]);
            }
        }
        assert forall|i: int| 0 <= i < n implies (is_one(vars, i as nat) <==> #[trigger] names(
            whole,
            i,
        )) by {
            if names(rest, i) {
                let k = choose|k: int| 0 <= k < rest.len() && rest[k] == i;
                assert(whole[k] == i);
            }
            if names(whole, i) {
                let k = choose|k: int| 0 <= k < whole.len() && whole[k] == i;
                if k < rest.len() {
                    assert(rest[k] == i);
                    assert(names(rest, i));
                }
            }
            if i == n - 1 && is_one(vars, i as nat) {
                assert(whole[whole.len() - 1] == i);
            }
        }
    }
}

/// The round trip. An assignment that sets to one exactly the variables of
/// the items of a selection maps back to that selection, index for index.
pub proof fn lemma_round_trip(n: nat, chosen: Seq<usize>, vars: Map<Seq<char>, Single>)
    requires
        n <= usize::MAX,
        canonical(n, chosen),
        forall|i: int| 0 <= i < n ==> (is_one(vars, i as nat) <==> names(chosen, i)),
    ensures
        picked(vars, n) == chosen,
{
    lemma_picked(vars, n);
    lemma_canonical_unique(n, picked(vars, n), chosen);
}

/// The reduction keeps the meaning of a selection. With the variables of
/// its items set to one and the others to zero, the objective of the
/// program has the cost of the selection as its value, and the constraint
/// of the program is met where the selection fits into the bag.
pub proof fn lemma_program_means_knapsack(knapsack: Knapsack, packed: Seq<usize>)
    requires
        canonical(knapsack.items.len(), packed),
    ensures
        knapsack_program(knapsack).objective_value(Set::new(|i: int| names(packed, i))) == cost_of(
            knapsack.items,
            packed,
        ),
        knapsack_program(knapsack).satisfied_by(Set::new(|i: int| names(packed, i))) <==> weight_of(
            knapsack.items,
            packed,
        ) <= knapsack.capacity,
{
    let n = knapsack.items.len();
    let ones = Set::new(|i: int| names(packed, i));
    let program = knapsack_program(knapsack);
    lemma_where_of_selection(knapsack.items, packed, ones, n);
    lemma_sums_agree(knapsack.items, ones, n);
    assert(program.constraints[0].coefficients == Seq::new(
        n,
        |i: int| knapsack.items[i].weight as nat,
    ));
}

/// The weighted sums of the program's coefficients are the sums of the
/// costs and of the weights of the items.
proof fn lemma_sums_agree(items: Seq<ItemModel>, ones: Set<int>, k: nat)
    requires
        k <= items.len(),
    ensures
        weighted_sum(Seq::new(items.len(), |i: int| items[i].cost as nat), ones, k) == cost_where(
            items,
            ones,
            k,
        ),
        weighted_sum(Seq::new(items.len(), |i: int| items[i].weight as nat), ones, k)
            == weight_where(items, ones, k),
    decreases k,
{
    if k > 0 {
        lemma_sums_agree(items, ones, (k - 1) as nat);
    }
}

/// The items whose variables an assignment sets to one.
pub open spec fn ones_of(vars: Map<Seq<char>, Single>) -> Set<int> {
    Set::new(|i: int| 0 <= i && is_one(vars, i as nat))
}

/// Two sets of variables that agree on the first `k` variables give the
/// same weighted sum over them.
proof fn lemma_weighted_sum_same(coefficients: Seq<nat>, one: Set<int>, other: Set<int>, k: nat)
    requires
        forall|i: int| 0 <= i < k ==> (#[trigger] one.contains(i) <==> other.contains(i)),
    ensures
        weighted_sum(coefficients, one, k) == weighted_sum(coefficients, other, k),
    decreases k,
{
    if k > 0 {
        lemma_weighted_sum_same(coefficients, one, other, (k - 1) as nat);
    }
}

/// An optimal assignment maps back to an optimal selection. Where an
/// assignment meets the constraint of the knapsack program, and no
/// assignment that meets it gives the objective a higher value, the items
/// picked from it are an optimal selection of the instance; so they cost
/// what the selection of the exact dynamic program costs.
pub proof fn lemma_optimal_assignment_maps_back(knapsack: Knapsack, vars: Map<Seq<char>, Single>)
    requires
        knapsack.items.len() <= usize::MAX,
        knapsack_program(knapsack).satisfied_by(ones_of(vars)),
        forall|other: Set<int>| #[trigger]
            knapsack_program(knapsack).satisfied_by(other) ==> knapsack_program(
                knapsack,
            ).objective_value(other) <= knapsack_program(knapsack).objective_value(ones_of(vars)),
    ensures
        optimal(knapsack, picked(vars, knapsack.items.len())),
        cost_of(knapsack.items, picked(vars, knapsack.items.len())) == cost_of(
            knapsack.items,
            exact_choice(knapsack),
        ),
{
    let n = knapsack.items.len();
    let program = knapsack_program(knapsack);
    let packed = picked(vars, n);
    let ones = ones_of(vars);
    let named = Set::new(|i: int| names(packed, i));
    lemma_picked(vars, n);
    lemma_program_means_knapsack(knapsack, packed);
    lemma_weighted_sum_same(program.objective, ones, named, n);
    lemma_weighted_sum_same(program.constraints[0].coefficients, ones, named, n);
    assert(program.satisfied_by(named));
    assert forall|other: Seq<usize>| #[trigger] feasible(knapsack, other) implies cost_of(
        knapsack.items,
        other,
    ) <= cost_of(knapsack.items, packed) by {
        lemma_program_means_knapsack(knapsack, other);
        assert(program.satisfied_by(Set::new(|i: int| names(other, i))));
    }
    lemma_exact_choice_is_optimal(knapsack);
    lemma_optimal_costs_agree(knapsack, packed, exact_choice(knapsack));
}

} // verus!
