use knapsack_opt::knapsack::{DefaultItem, Instance, Solution};
use knapsack_opt::primitives::Zero;
use knapsack_opt::problem::SolutionKind;
use knapsack_opt::program::{
    Constraint, LpSolution, MathProgram, Single, SolutionType, ONE,
};
use knapsack_opt::reduction::Reduction;
use lp_modeler::dsl::LpBinary;
use lp_modeler::solvers::Status;

fn instance_of(pairs: Vec<(u32, u32)>, size: u32) -> Instance<DefaultItem> {
    Instance::from((pairs, size)).unwrap()
}

fn named(values: &[(&str, u32)]) -> Vec<(String, Single)> {
    values
        .iter()
        .map(|(name, bits)| (String::from(*name), Single { bits: *bits }))
        .collect()
}

const HALF: u32 = 0x3F00_0000;

#[test]
fn reduced_program_names_one_variable_for_each_item() {
    let pairs: Vec<(u32, u32)> = (0..12).map(|i| (i, i + 1)).collect();
    let program = instance_of(pairs, 20).reduce_instance();
    let names: Vec<&str> = program
        .variables()
        .iter()
        .map(|variable| variable.name.as_str())
        .collect();
    assert_eq!(
        names,
        vec!["x_0", "x_1", "x_2", "x_3", "x_4", "x_5", "x_6", "x_7", "x_8", "x_9", "x_10", "x_11"]
    );
}

#[test]
fn reduced_program_has_the_costs_as_objective_and_the_weights_as_constraint() {
    let program = instance_of(vec![(1, 2), (2, 3), (2, 4)], 5).reduce_instance();
    assert_eq!(program.objective(), &vec![1, 2, 2]);
    assert_eq!(program.constraints().len(), 1);
    assert_eq!(program.constraints()[0].coefficients, vec![2, 3, 4]);
    assert_eq!(program.constraints()[0].bound, 5);
}

#[test]
fn reduced_program_of_no_items_has_no_variables() {
    let program = instance_of(vec![], 7).reduce_instance();
    assert_eq!(program.number_of_variables(), 0);
    assert_eq!(program.number_of_constraints(), 1);
    assert_eq!(program.constraints()[0].bound, 7);
}

#[test]
fn program_counts_what_it_was_made_of() {
    let program = MathProgram::new(
        vec![LpBinary::new("a"), LpBinary::new("b")],
        vec![3, 4],
        vec![
            Constraint { coefficients: vec![1, 1], bound: 1 },
            Constraint { coefficients: vec![2, 0], bound: 2 },
        ],
    )
    .unwrap();
    assert_eq!(program.number_of_variables(), 2);
    assert_eq!(program.number_of_constraints(), 2);
    assert_eq!(program.variables()[1].name, "b");
    assert_eq!(program.objective(), &vec![3, 4]);
    assert_eq!(program.constraints()[1].bound, 2);
}

#[test]
fn program_wants_one_coefficient_for_each_variable() {
    let variables = || vec![LpBinary::new("a"), LpBinary::new("b")];
    let fitting = || Constraint { coefficients: vec![1, 1], bound: 1 };
    assert!(MathProgram::new(variables(), vec![3], vec![fitting()]).is_none());
    assert!(MathProgram::new(variables(), vec![3, 4, 5], vec![]).is_none());
    let short = Constraint { coefficients: vec![1], bound: 1 };
    assert!(MathProgram::new(variables(), vec![3, 4], vec![fitting(), short]).is_none());
    assert!(MathProgram::new(variables(), vec![3, 4], vec![]).is_some());
    assert!(MathProgram::new(vec![], vec![], vec![]).is_some());
}

#[test]
fn solved_answer_maps_back_to_the_items_whose_variables_are_one() {
    let instance = instance_of(vec![(1, 2), (2, 3), (2, 4)], 5);
    let answer = LpSolution::from(&Status::Optimal,
        named(&[("x_2", 0), ("x_0", ONE), ("x_1", ONE)]),
        None,
    );
    let solution = instance.reduce_solution(&answer);
    assert_eq!(solution.as_solution(), Some(vec![0, 1]));
}

#[test]
fn round_trip_keeps_every_index() {
    let pairs: Vec<(u32, u32)> = (0..25).map(|i| (i, 1)).collect();
    let instance = instance_of(pairs, 25);
    let program = instance.reduce_instance();
    let chosen: Vec<usize> = vec![0, 1, 9, 10, 11, 19, 21, 24];
    let values: Vec<(String, Single)> = program
        .variables()
        .iter()
        .enumerate()
        .map(|(index, variable)| {
            let bits = if chosen.contains(&index) { ONE } else { 0 };
            (variable.name.clone(), Single { bits })
        })
        .collect();
    let answer = LpSolution::from(&Status::SubOptimal, values, None);
    assert_eq!(instance.reduce_solution(&answer).as_solution(), Some(chosen));
}

#[test]
fn variable_that_is_missing_or_not_one_is_not_packed() {
    let instance = instance_of(vec![(1, 1), (1, 1), (1, 1), (1, 1)], 4);
    let answer = LpSolution::from(&Status::Optimal,
        named(&[("x_0", HALF), ("x_1", ONE), ("x_3", 0), ("x_01", ONE), ("x_7", ONE), ("y_2", ONE)]),
        None,
    );
    assert_eq!(instance.reduce_solution(&answer).as_solution(), Some(vec![1]));
}

#[test]
fn later_value_under_one_name_counts() {
    let instance = instance_of(vec![(1, 1), (1, 1)], 2);
    let answer = LpSolution::from(&Status::Optimal,
        named(&[("x_0", ONE), ("x_0", 0), ("x_1", 0), ("x_1", ONE)]),
        None,
    );
    assert_eq!(instance.reduce_solution(&answer).as_solution(), Some(vec![1]));
}

#[test]
fn infeasible_and_failed_answers_map_back_as_they_are() {
    let instance = instance_of(vec![(1, 1)], 1);
    let infeasible = LpSolution::from(&Status::Infeasible, named(&[("x_0", ONE)]), None);
    assert!(matches!(instance.reduce_solution(&infeasible), Solution::Infeasible));
    let failed = LpSolution::Failed(String::from("Error running the Cbc solver"));
    match instance.reduce_solution(&failed) {
        Solution::Failed(text) => assert_eq!(text, "Error running the Cbc solver"),
        _ => panic!("a failure stays a failure"),
    }
    let unsolved = LpSolution::from(&Status::NotSolved, vec![], None);
    match instance.reduce_solution(&unsolved) {
        Solution::Failed(text) => assert_eq!(text, "Not solved"),
        _ => panic!("an unsolved program is a failure"),
    }
}

#[test]
fn answer_reads_each_status_of_the_solver() {
    let values = || named(&[("x_0", ONE)]);
    let value = Some(Single { bits: HALF });
    match LpSolution::from(&Status::Optimal, values(), value) {
        LpSolution::Solved { kind, value, .. } => {
            assert!(matches!(kind, SolutionType::Optimal));
            assert_eq!(value, Some(Single { bits: HALF }));
        }
        _ => panic!("an optimal answer is solved"),
    }
    match LpSolution::from(&Status::SubOptimal, values(), None) {
        LpSolution::Solved { kind, value, .. } => {
            assert!(matches!(kind, SolutionType::SubOptimal));
            assert_eq!(value, None);
        }
        _ => panic!("a suboptimal answer is solved"),
    }
    assert!(matches!(
        LpSolution::from(&Status::Infeasible, values(), value),
        LpSolution::Infeasible
    ));
    assert!(matches!(
        LpSolution::from(&Status::Unbounded, values(), value),
        LpSolution::Unbounded
    ));
    match LpSolution::from(&Status::NotSolved, values(), value) {
        LpSolution::Failed(text) => assert_eq!(text, "Not solved"),
        _ => panic!("an unsolved program is a failure"),
    }
}

#[test]
fn answer_of_a_solver_maps_back_to_the_packed_items() {
    let instance = instance_of(vec![(1, 2), (2, 3), (2, 4)], 5);
    let reported = named(&[("x_0", ONE), ("x_1", ONE), ("x_2", 0)]);
    let answer = LpSolution::from(&Status::Optimal, reported, None);
    assert_eq!(instance.reduce_solution(&answer).as_solution(), Some(vec![0, 1]));
}

#[test]
fn cost_of_an_answer_is_the_value_of_its_objective() {
    let program = instance_of(vec![(1, 1)], 1).reduce_instance();
    let value = Some(Single { bits: ONE });
    let solved = LpSolution::from(&Status::Optimal, vec![], value);
    assert_eq!(solved.cost(&program), value);
    let unknown = LpSolution::from(&Status::Optimal, vec![], None);
    assert_eq!(unknown.cost(&program), None);
    assert_eq!(LpSolution::Infeasible.cost(&program), None);
    assert_eq!(LpSolution::Unbounded.cost(&program), None);
}

#[test]
fn one_is_the_only_pattern_that_is_one() {
    assert!(Single { bits: ONE }.is_one());
    assert!(!Single { bits: 0 }.is_one());
    assert!(!Single { bits: HALF }.is_one());
    assert_eq!(f32::from_bits(ONE), 1.0);
    assert_eq!(1.0f32.to_bits(), ONE);
}

#[test]
fn zero_is_the_additive_identity() {
    assert_eq!(<u32 as Zero>::zero(), 0);
    assert_eq!(<i32 as Zero>::zero(), 0);
    assert_eq!(<usize as Zero>::zero(), 0);
}
