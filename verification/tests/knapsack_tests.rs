use knapsack_opt::algorithm::{Algorithm, TheoreticGuarantee, TheoreticValidation};
use knapsack_opt::knapsack::algorithms::{Greedy, SimpleDP, FPTAS};
use knapsack_opt::knapsack::{DefaultItem, Instance, InstanceError, Item, Solution};
use knapsack_opt::problem::{Solvable, SolutionKind};
use knapsack_opt::program::{
    Constraint, LpSolution, MathProgram, Single, ONE,
};
use knapsack_opt::reduction::Reduction;
use lp_modeler::solvers::Status;
use rand::Rng;

/// An exact solver for programs with one constraint, by a table over the
/// bounds that are left.
struct TableOracle;

impl Algorithm<MathProgram> for TableOracle {
    fn run(&self, program: &MathProgram) -> LpSolution {
        let costs = program.objective();
        let constraint: &Constraint = &program.constraints()[0];
        let bound = constraint.bound as usize;
        let n = costs.len();
        let mut reach = vec![vec![0u64; bound + 1]; n + 1];
        for i in (0..n).rev() {
            let w = constraint.coefficients[i] as usize;
            for left in 0..=bound {
                let skip = reach[i + 1][left];
                reach[i][left] = if w <= left {
                    skip.max(reach[i + 1][left - w] + costs[i] as u64)
                } else {
                    skip
                };
            }
        }
        let mut values = Vec::new();
        let mut left = bound;
        for i in 0..n {
            let w = constraint.coefficients[i] as usize;
            let take = w <= left && reach[i][left] == reach[i + 1][left - w] + costs[i] as u64
                && reach[i][left] != reach[i + 1][left];
            if take {
                left -= w;
            }
            let bits = if take { ONE } else { 0 };
            values.push((program.variables()[i].name.clone(), Single { bits }));
        }
        LpSolution::from(&Status::Optimal, values, None)
    }
}

fn instance_of(pairs: Vec<(u32, u32)>, size: u32) -> Instance<DefaultItem> {
    Instance::from((pairs, size)).unwrap()
}

fn random_instance() -> Instance<DefaultItem> {
    let mut rng = rand::thread_rng();
    let pairs: Vec<(u32, u32)> = (0..30)
        .map(|_| (rng.gen_range(0..100), rng.gen_range(1..100)))
        .collect();
    let size = rng.gen_range(400..700);
    instance_of(pairs, size)
}

fn weight_of(instance: &Instance<DefaultItem>, packed: &[usize]) -> u64 {
    packed.iter().map(|&i| *instance.items()[i].weight() as u64).sum()
}

#[test]
fn it_works() {
    assert_eq!(2 + 2, 4);
}

#[test]
fn knapsack_build_instance_from_works() {
    let instance = Instance::from((vec![(1, 2), (2, 3), (3, 4)], 5)).unwrap();
    assert_eq!(3, instance.number_of_items());
    assert_eq!(5, *instance.bag_size());
}

#[test]
fn mod_build_instance_from_works() {
    let instance = Instance::from((vec![(1, 2), (2, 3), (3, 4)], 5)).unwrap();
    assert_eq!(3, instance.number_of_items());
    assert_eq!(5, *instance.bag_size());
}

#[test]
fn knapsack_reduction_works() {
    let instance = &instance_of(vec![(1, 2), (2, 3), (2, 4)], 5);
    let program = instance.reduce_instance();
    assert_eq!(3, program.number_of_variables());
    assert_eq!(1, program.number_of_constraints());
}

#[test]
fn reductions_reduction_works() {
    let instance = &instance_of(vec![(1, 2), (2, 3), (2, 4)], 5);
    let program = instance.reduce_instance();
    assert_eq!(3, program.number_of_variables());
    assert_eq!(1, program.number_of_constraints());
}

#[test]
fn knapsack_solving_by_reduction_works() {
    let instance = &instance_of(vec![(1, 2), (2, 3), (2, 4)], 5);
    println!("{}", instance.to_string());
    let solution = instance.solve_by_reduction(&TableOracle);
    assert!(solution.is_solved());
    let items: Vec<&DefaultItem> = solution
        .as_solution()
        .unwrap()
        .into_iter()
        .map(|index| &instance.items()[index])
        .collect();
    assert_eq!(
        items,
        vec![&DefaultItem::from((1, 2)), &DefaultItem::from((2, 3))]
    )
}

#[test]
fn reductions_solving_by_reduction_works() {
    let instance = &instance_of(vec![(1, 2), (2, 3), (2, 4)], 5);
    let solution = instance.solve_by_reduction(&TableOracle);
    assert!(solution.is_solved());
    let items = solution.as_solution().unwrap();
    assert_eq!(items, vec![0, 1])
}

#[test]
fn solving_by_greedy_works() {
    let instance = instance_of(vec![(1, 2), (2, 3), (2, 1)], 5);
    let solution = instance.run(Greedy);
    assert!(solution.is_solved());
    let items = solution.as_solution().unwrap();
    assert_eq!(items, vec![1, 2])
}

#[test]
fn random_validation_greedy_alg() {
    let instance = random_instance();
    let solution = instance.run(Greedy);
    assert!(solution.is_solved());
    let validation = Greedy.validate(&instance, &solution, &TableOracle);
    assert!(validation.is_correct());
}

#[test]
fn solving_by_simple_dp_works() {
    let instance = instance_of(vec![(1, 2), (2, 3), (2, 1)], 5);
    let solution = instance.run(SimpleDP);
    assert!(solution.is_solved());
    let items = solution.as_solution().unwrap();
    assert_eq!(items, vec![1, 2])
}

#[test]
fn random_validation_simple_dp_alg() {
    let instance = random_instance();
    let dp_solution = instance.run(SimpleDP);
    let ilp_solution = instance.solve_by_reduction(&TableOracle);
    assert!(dp_solution.is_solved());
    assert!(ilp_solution.is_solved());
    assert_eq!(ilp_solution.cost(&instance), dp_solution.cost(&instance));
}

#[test]
fn solving_by_fptas_works() {
    let instance = instance_of(vec![(1, 2), (2, 3), (2, 1)], 5);
    let solution = instance.run(FPTAS::new(1, 2).unwrap());
    assert!(solution.is_solved());
    let items = solution.as_solution().unwrap();
    assert_eq!(items, vec![1, 2])
}

#[test]
fn random_validation_fptas_alg() {
    let mut rng = rand::thread_rng();
    let percent: u32 = rng.gen_range(5..95);
    let instance = random_instance();
    let solution = instance.run(FPTAS::new(percent, 100).unwrap());
    assert!(solution.is_solved());
    let validation = FPTAS::new(percent, 100)
        .unwrap()
        .validate(&instance, &solution);
    assert!(validation.is_correct());
}

#[test]
fn scenario_one_weighs_four_and_costs_four() {
    let instance = instance_of(vec![(1, 2), (2, 3), (2, 1)], 5);
    for solution in [instance.run(SimpleDP), instance.run(Greedy)] {
        assert_eq!(solution.cost(&instance), Some(4));
        let packed = solution.as_solution().unwrap();
        assert_eq!(packed, vec![1, 2]);
        assert_eq!(weight_of(&instance, &packed), 4);
    }
}

#[test]
fn scenario_two_weighs_five_and_costs_three() {
    let instance = instance_of(vec![(1, 2), (2, 3), (2, 4)], 5);
    let solution = instance.solve_by_reduction(&TableOracle);
    assert_eq!(solution.cost(&instance), Some(3));
    let packed = solution.as_solution().unwrap();
    assert_eq!(packed, vec![0, 1]);
    assert_eq!(weight_of(&instance, &packed), 5);
}

#[test]
fn construction_refuses_weight_zero() {
    let made = Instance::from((vec![(1, 2), (5, 0), (3, 0)], 5));
    assert_eq!(made.err(), Some(InstanceError::NonPositiveWeight(1)));
    let items = vec![DefaultItem::from((7, 0))];
    assert_eq!(
        Instance::new(items, 3).err(),
        Some(InstanceError::NonPositiveWeight(0))
    );
}

#[test]
fn construction_takes_no_items_and_capacity_zero() {
    let instance = instance_of(vec![], 0);
    assert_eq!(instance.number_of_items(), 0);
    for solution in [
        instance.run(Greedy),
        instance.run(SimpleDP),
        instance.run(FPTAS::new(1, 3).unwrap()),
    ] {
        assert_eq!(solution.cost(&instance), Some(0));
        assert_eq!(solution.as_solution(), Some(vec![]));
    }
}

#[test]
fn items_keep_their_order() {
    let instance = instance_of(vec![(9, 1), (8, 2)], 3);
    assert_eq!(*instance.items()[0].cost(), 9);
    assert_eq!(*instance.items()[0].weight(), 1);
    assert_eq!(instance.items()[1], DefaultItem::from((8, 2)));
}

#[test]
fn item_and_instance_show_as_text() {
    assert_eq!(DefaultItem::from((1, 2)).to_string(), "Item[c = 1, w = 2]");
    assert_eq!(DefaultItem::from((0, 4294967295)).to_string(), "Item[c = 0, w = 4294967295]");
    let instance = instance_of(vec![(1, 2), (20, 30), (105, 7)], 5);
    assert_eq!(
        instance.to_string(),
        "Knapsack instance\n   - size = 5\n   - items = { Item[c = 1, w = 2], Item[c = 20, w = 30], Item[c = 105, w = 7] }\n"
    );
    assert_eq!(
        instance_of(vec![(3, 4)], 0).to_string(),
        "Knapsack instance\n   - size = 0\n   - items = { Item[c = 3, w = 4] }\n"
    );
    assert_eq!(
        instance_of(vec![], 12).to_string(),
        "Knapsack instance\n   - size = 12\n   - items = {  }\n"
    );
}

#[test]
fn scheme_can_lose_everything_where_the_dearest_item_does_not_fit() {
    // The factor is 1000 / 6: the two items that fit rescale to cost zero.
    let instance = instance_of(vec![(1000, 100), (1, 1), (1, 1)], 5);
    let solution = instance.run(FPTAS::new(1, 2).unwrap());
    assert_eq!(instance.run(SimpleDP).cost(&instance), Some(2));
    assert!(!FPTAS::new(1, 2).unwrap().is_correct(&instance, &solution));
    assert_eq!(solution.as_solution(), Some(vec![]));
}

#[test]
fn solution_cost_is_the_sum_of_the_packed_costs() {
    let instance = instance_of(vec![(10, 1), (20, 1), (30, 1)], 3);
    let solved = Solution::Solved { packed_items: vec![0, 2] };
    assert_eq!(solved.cost(&instance), Some(40));
    let out_of_range = Solution::Solved { packed_items: vec![0, 3] };
    assert_eq!(out_of_range.cost(&instance), None);
    assert_eq!(Solution::Infeasible.cost(&instance), None);
    assert_eq!(Solution::Failed(String::from("no")).cost(&instance), None);
}

#[test]
fn solution_without_packed_items_is_not_solved() {
    assert!(!Solution::Infeasible.is_solved());
    assert!(!Solution::Failed(String::from("no")).is_solved());
    assert_eq!(Solution::Infeasible.as_solution(), None);
    assert!(Solution::Solved { packed_items: vec![] }.is_solved());
}

#[test]
fn greedy_stops_at_the_first_item_that_overflows() {
    // Ratios 5, 4, 3: item 1 overflows after item 0, and item 2, which would
    // still fit, is not looked at.
    let instance = instance_of(vec![(10, 2), (16, 4), (3, 1)], 5);
    let solution = instance.run(Greedy);
    // The overflowing item fits on its own and costs more than item 0.
    assert_eq!(solution.as_solution(), Some(vec![1]));
}

#[test]
fn greedy_keeps_the_packed_items_when_they_cost_more() {
    let instance = instance_of(vec![(10, 2), (9, 2), (16, 4)], 5);
    // Ratios 5, 4.5, 4: items 0 and 1 are packed, item 2 overflows and costs
    // less than the two together.
    let solution = instance.run(Greedy);
    assert_eq!(solution.as_solution(), Some(vec![0, 1]));
}

#[test]
fn greedy_keeps_the_packed_items_on_a_tie() {
    let instance = instance_of(vec![(10, 2), (8, 4)], 5);
    // Item 1 overflows, fits on its own, but does not cost more than item 0.
    let tie = instance_of(vec![(8, 2), (8, 4)], 5);
    assert_eq!(instance.run(Greedy).as_solution(), Some(vec![0]));
    assert_eq!(tie.run(Greedy).as_solution(), Some(vec![0]));
}

#[test]
fn greedy_never_packs_an_item_that_does_not_fit() {
    // Item 0 has the best ratio and overflows the empty bag.
    let instance = instance_of(vec![(100, 11), (1, 1)], 10);
    let solution = instance.run(Greedy);
    assert_eq!(solution.as_solution(), Some(vec![]));
}

#[test]
fn greedy_breaks_ties_of_the_ratio_by_the_index() {
    // All ratios are 1; the bag holds the first two.
    let instance = instance_of(vec![(2, 2), (2, 2), (2, 2)], 4);
    assert_eq!(instance.run(Greedy).as_solution(), Some(vec![0, 1]));
}

#[test]
fn greedy_returns_ascending_indices() {
    let instance = instance_of(vec![(1, 1), (5, 1), (3, 1)], 3);
    assert_eq!(instance.run(Greedy).as_solution(), Some(vec![0, 1, 2]));
}

#[test]
fn exact_program_beats_greedy_where_greedy_is_not_optimal() {
    let instance = instance_of(vec![(6, 3), (5, 3), (5, 3), (7, 4)], 6);
    let exact = instance.run(SimpleDP);
    assert_eq!(exact.cost(&instance), Some(11));
    assert_eq!(exact.as_solution(), Some(vec![0, 1]));
    let greedy = instance.run(Greedy);
    assert_eq!(greedy.cost(&instance), Some(7));
    assert_eq!(greedy.as_solution(), Some(vec![3]));
}

#[test]
fn exact_program_packs_nothing_into_an_empty_bag() {
    let instance = instance_of(vec![(6, 3), (5, 1)], 0);
    assert_eq!(instance.run(SimpleDP).as_solution(), Some(vec![]));
}

#[test]
fn every_algorithm_returns_a_selection_that_fits() {
    for _ in 0..5 {
        let instance = random_instance();
        let capacity = *instance.bag_size() as u64;
        for solution in [
            instance.run(Greedy),
            instance.run(SimpleDP),
            instance.run(FPTAS::new(1, 4).unwrap()),
        ] {
            let packed = solution.as_solution().unwrap();
            assert!(weight_of(&instance, &packed) <= capacity);
            assert!(packed.windows(2).all(|pair| pair[0] < pair[1]));
            assert!(packed.iter().all(|&i| i < instance.number_of_items()));
        }
    }
}

#[test]
fn scheme_refuses_eps_outside_zero_and_one() {
    assert!(FPTAS::new(0, 5).is_none());
    assert!(FPTAS::new(5, 5).is_none());
    assert!(FPTAS::new(6, 5).is_none());
    assert!(FPTAS::new(1, 0).is_none());
    assert!(FPTAS::new(4, 5).is_some());
}

#[test]
fn scheme_rounds_the_costs_down() {
    // eps = 1/2, three items, highest cost 90: the factor is 15 and the
    // rescaled costs are 6, 3 and 3, so item 0 alone ties with items 1 and 2
    // and the table keeps the selection without the last item.
    let instance = instance_of(vec![(90, 2), (50, 1), (55, 1)], 2);
    let solution = instance.run(FPTAS::new(1, 2).unwrap());
    assert_eq!(solution.as_solution(), Some(vec![0]));
    assert_eq!(instance.run(SimpleDP).as_solution(), Some(vec![1, 2]));
}

#[test]
fn scheme_solves_exactly_where_all_costs_are_zero() {
    let instance = instance_of(vec![(0, 2), (0, 3)], 5);
    let solution = instance.run(FPTAS::new(1, 2).unwrap());
    assert_eq!(solution.as_solution(), Some(vec![]));
}

#[test]
fn scheme_reproduces_the_exact_selection_of_scenario_one() {
    let instance = instance_of(vec![(1, 2), (2, 3), (2, 1)], 5);
    let scheme = instance.run(FPTAS::new(1, 2).unwrap());
    let exact = instance.run(SimpleDP);
    assert_eq!(scheme.as_solution(), exact.as_solution());
}

#[test]
fn scheme_validation_tells_the_three_outcomes_apart() {
    let instance = instance_of(vec![(10, 1), (20, 1)], 2);
    let scheme = FPTAS::new(1, 4).unwrap();
    let good = Solution::Solved { packed_items: vec![0, 1] };
    assert!(matches!(scheme.validate(&instance, &good), TheoreticGuarantee::Consistent));
    assert!(scheme.is_correct(&instance, &good));
    let poor = Solution::Solved { packed_items: vec![0] };
    match scheme.validate(&instance, &poor) {
        TheoreticGuarantee::Inconsistent(text) => assert_eq!(
            text,
            "FPTAS (eps = 1/4) did not achieve its theoretical approximation ratio: 10 < 3/4 * 30"
        ),
        _ => panic!("the bound is violated"),
    }
    assert!(!scheme.is_correct(&instance, &poor));
    match scheme.validate(&instance, &Solution::Infeasible) {
        TheoreticGuarantee::Failed(text) => assert_eq!(
            text,
            "Error: Cost of optimal solution and algorithm could not have been computed!"
        ),
        _ => panic!("the validation cannot run"),
    }
}

#[test]
fn scheme_validation_takes_the_bound_itself_as_consistent() {
    // 3/4 of 40 is 30.
    let instance = instance_of(vec![(30, 1), (40, 1)], 1);
    let scheme = FPTAS::new(1, 4).unwrap();
    let at_bound = Solution::Solved { packed_items: vec![0] };
    assert!(scheme.is_correct(&instance, &at_bound));
}

#[test]
fn greedy_judgement_tells_the_three_outcomes_apart() {
    let instance = instance_of(vec![(10, 1), (20, 1), (1, 1)], 2);
    let reference = Solution::Solved { packed_items: vec![0, 1] };
    let half = Solution::Solved { packed_items: vec![0, 2] };
    assert!(Greedy.judge(&instance, &reference, &reference).is_correct());
    assert!(!Greedy.judge(&instance, &half, &reference).is_correct());
    match Greedy.judge(&instance, &half, &reference) {
        TheoreticGuarantee::Inconsistent(text) => assert_eq!(
            text,
            "Greedy algorithm did not achieve its theoretical approximation ratio: 11 < 1/2 * 30"
        ),
        _ => panic!("the bound is violated"),
    }
    let exactly_half = Solution::Solved { packed_items: vec![0] };
    let twenty = Solution::Solved { packed_items: vec![1] };
    assert!(Greedy.judge(&instance, &exactly_half, &twenty).is_correct());
    for (solution, other) in [
        (&Solution::Infeasible, &reference),
        (&reference, &Solution::Failed(String::from("solver"))),
    ] {
        match Greedy.judge(&instance, solution, other) {
            TheoreticGuarantee::Failed(text) => assert_eq!(
                text,
                "Error: Cost of optimal solution and algorithm could not have been computed!"
            ),
            _ => panic!("the validation cannot run"),
        }
    }
}

#[test]
fn guarantee_is_correct_only_when_consistent() {
    assert!(TheoreticGuarantee::Consistent.is_correct());
    assert!(!TheoreticGuarantee::Inconsistent(String::from("short")).is_correct());
    assert!(!TheoreticGuarantee::Failed(String::from("none")).is_correct());
}

#[test]
fn greedy_reaches_half_of_the_optimum_on_random_instances() {
    for _ in 0..20 {
        let instance = random_instance();
        let greedy = instance.run(Greedy).cost(&instance).unwrap();
        let exact = instance.run(SimpleDP).cost(&instance).unwrap();
        assert!(2 * greedy >= exact);
    }
}

#[test]
fn scheme_reaches_its_share_of_the_optimum_on_random_instances() {
    let mut rng = rand::thread_rng();
    for _ in 0..20 {
        let instance = random_instance();
        let numerator: u64 = rng.gen_range(1..100);
        let scheme = FPTAS::new(numerator as u32, 100).unwrap();
        let achieved = instance.run(scheme).cost(&instance).unwrap();
        let exact = instance.run(SimpleDP).cost(&instance).unwrap();
        assert!(100 * achieved >= (100 - numerator) * exact);
    }
}

fn small_random_instance(items: usize, top_cost: u32, top_weight: u32, top_size: u32) -> (Vec<(u32, u32)>, u32) {
    let mut rng = rand::thread_rng();
    let pairs = (0..items)
        .map(|_| (rng.gen_range(0..=top_cost), rng.gen_range(1..=top_weight)))
        .collect();
    (pairs, rng.gen_range(0..=top_size))
}

#[test]
fn exact_program_finds_the_best_of_all_selections() {
    for _ in 0..30 {
        let (pairs, size) = small_random_instance(10, 20, 12, 40);
        let mut best: u64 = 0;
        for mask in 0u32..(1 << pairs.len()) {
            let chosen = |i: &usize| mask & (1 << *i) != 0;
            let weight: u64 = (0..pairs.len()).filter(chosen).map(|i| pairs[i].1 as u64).sum();
            let cost: u64 = (0..pairs.len()).filter(chosen).map(|i| pairs[i].0 as u64).sum();
            if weight <= size as u64 && cost > best {
                best = cost;
            }
        }
        let instance = instance_of(pairs, size);
        assert_eq!(instance.run(SimpleDP).cost(&instance), Some(best));
    }
}

#[test]
fn greedy_packs_in_the_order_of_the_ratios() {
    for _ in 0..50 {
        let (pairs, size) = small_random_instance(12, 9, 9, 30);
        let mut order: Vec<usize> = (0..pairs.len()).collect();
        order.sort_by(|&a, &b| {
            let left = pairs[a].0 as u64 * pairs[b].1 as u64;
            let right = pairs[b].0 as u64 * pairs[a].1 as u64;
            right.cmp(&left).then(a.cmp(&b))
        });
        let mut packed = Vec::new();
        let mut weight = 0;
        let mut cost = 0;
        let mut overflowing = None;
        for &index in &order {
            if weight + pairs[index].1 > size {
                overflowing = Some(index);
                break;
            }
            weight += pairs[index].1;
            cost += pairs[index].0;
            packed.push(index);
        }
        packed.sort();
        let expected = match overflowing {
            Some(index) if pairs[index].1 <= size && pairs[index].0 > cost => vec![index],
            _ => packed,
        };
        let instance = instance_of(pairs, size);
        assert_eq!(instance.run(Greedy).as_solution(), Some(expected));
    }
}

#[test]
fn scheme_solves_the_rescaled_instance_exactly() {
    let mut rng = rand::thread_rng();
    for _ in 0..30 {
        let (pairs, size) = small_random_instance(10, 1000, 12, 40);
        let numerator: u64 = rng.gen_range(1..20);
        let top = pairs.iter().map(|pair| pair.0).max().unwrap() as u64;
        let n = pairs.len() as u64;
        let instance = instance_of(pairs.clone(), size);
        let expected = if top == 0 {
            instance.run(SimpleDP).as_solution()
        } else {
            let rescaled = pairs
                .iter()
                .map(|&(cost, weight)| ((cost as u64 * n * 20 / (numerator * top)) as u32, weight))
                .collect();
            instance_of(rescaled, size).run(SimpleDP).as_solution()
        };
        let scheme = FPTAS::new(numerator as u32, 20).unwrap();
        assert_eq!(instance.run(scheme).as_solution(), expected);
    }
}

#[test]
fn cost_of_a_large_selection_does_not_wrap() {
    let instance = instance_of(vec![(u32::MAX, 1), (u32::MAX, 1), (u32::MAX, 1)], 3);
    let all = instance.run(SimpleDP);
    assert_eq!(all.cost(&instance), Some(3 * (u32::MAX as u64)));
    assert_eq!(instance.run(Greedy).cost(&instance), Some(3 * (u32::MAX as u64)));
}

#[test]
fn greedy_compares_ratios_exactly() {
    // Item 1 has the higher ratio, by less than double precision can tell:
    // 4294967294 / 4294967293 against 4294967295 / 4294967294. It goes
    // first and fills the bag; were item 0 to go first, nothing would fit.
    let instance = instance_of(
        vec![(4294967295, 4294967294), (4294967294, 4294967293)],
        4294967293,
    );
    assert_eq!(instance.run(Greedy).as_solution(), Some(vec![1]));
}
