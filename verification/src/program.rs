//! Linear programs over binary variables, and what a solver answers to
//! them. A program is built here, over the binary variables of
//! `lp_modeler`, and solved elsewhere; what a solver of `lp_modeler`
//! reports is read into an `LpSolution`.
use vstd::hash_map::StringHashMap;
use vstd::prelude::*;
use vstd::string::StringExecFns;
use crate::problem::{OptProblemKind, SolutionKind};
use lp_modeler::dsl::LpBinary;
use lp_modeler::solvers::Status;

verus! {

/// A number in single precision, held by its IEEE 754 bit pattern.
#[derive(Clone, Copy, Debug, PartialEq, Eq, Structural)]
pub struct Single {
    pub bits: u32,
}

/// The bit pattern of the number one. No other pattern compares equal to
/// one.
pub const ONE: u32 = 0x3F80_0000;

impl Single {
    /// Whether the number is one.
    pub fn is_one(&self) -> (one: bool)
        ensures
            one == (self.bits == ONE),
    {
        self.bits == ONE
    }
}

/// What a linear constraint is to the mathematics: the sum of the
/// variables, each times its coefficient, is at most the bound.
pub struct ConstraintModel {
    pub coefficients: Seq<nat>,
    pub bound: nat,
}

/// What a program is to the mathematics: the names of its binary variables,
/// the coefficient of each variable in the objective, which is maximized,
/// and the constraints.
pub struct ProgramModel {
    pub variables: Seq<Seq<char>>,
    pub objective: Seq<nat>,
    pub constraints: Seq<ConstraintModel>,
}

/// A linear constraint of a program.
pub struct Constraint {
    pub coefficients: Vec<u32>,
    pub bound: u32,
}

impl View for Constraint {
    type V = ConstraintModel;

    open spec fn view(&self) -> ConstraintModel {
        ConstraintModel {
            coefficients: Seq::new(self.coefficients@.len(), |i: int| self.coefficients@[i] as nat),
            bound: self.bound as nat,
        }
    }
}

/// A linear program that maximizes its objective over binary variables.
pub struct MathProgram {
    variables: Vec<LpBinary>,
    objective: Vec<u32>,
    constraints: Vec<Constraint>,
}

/// The names of a list of binary variables.
pub open spec fn names_of(variables: Seq<LpBinary>) -> Seq<Seq<char>> {
    Seq::new(variables.len(), |i: int| variables[i].name@)
}

impl View for MathProgram {
    type V = ProgramModel;

    closed spec fn view(&self) -> ProgramModel {
        program_of(self.variables@, self.objective@, self.constraints@)
    }
}

/// The program that the given variables, objective and constraints make.
pub open spec fn program_of(
    variables: Seq<LpBinary>,
    objective: Seq<u32>,
    constraints: Seq<Constraint>,
) -> ProgramModel {
    ProgramModel {
        variables: names_of(variables),
        objective: Seq::new(objective.len(), |i: int| objective[i] as nat),
        constraints: Seq::new(constraints.len(), |i: int| constraints[i]@),
    }
}

impl MathProgram {
    /// The objective and every constraint have one coefficient for each
    /// variable.
    #[verifier::type_invariant]
    pub open spec fn matching(&self) -> bool {
        self@.wf()
    }

    /// The program of the given variables, objective and constraints. It is
    /// refused where the objective or a constraint does not have one
    /// coefficient for each variable.
    pub fn new(variables: Vec<LpBinary>, objective: Vec<u32>, constraints: Vec<Constraint>) -> (program:
        Option<Self>)
        ensures
            program is Some <==> program_of(variables@, objective@, constraints@).wf(),
            program matches Some(made) ==> made@ == program_of(
                variables@,
                objective@,
                constraints@,
            ),
    {
        let ghost model = program_of(variables@, objective@, constraints@);
        if objective.len() != variables.len() {
            return None;
        }
        let mut index: usize = 0;
        while index < constraints.len()
            invariant
                index <= constraints.len(),
                model == program_of(variables@, objective@, constraints@),
                forall|c: int|
                    0 <= c < index ==> (#[trigger] model.constraints[c]).coefficients.len()
                        == model.variables.len(),
            decreases constraints.len() - index,
        {
            if constraints[index].coefficients.len() != variables.len() {
                assert(model.constraints[index as int].coefficients.len() != model.variables.len());
                return None;
            }
            index += 1;
        }
        Some(MathProgram { variables, objective, constraints })
    }

    /// The program of parts that are known to match.
    pub(crate) fn of_matching(
        variables: Vec<LpBinary>,
        objective: Vec<u32>,
        constraints: Vec<Constraint>,
    ) -> (program: Self)
        requires
            program_of(variables@, objective@, constraints@).wf(),
        ensures
            program@ == program_of(variables@, objective@, constraints@),
    {
        MathProgram { variables, objective, constraints }
    }

    /// How many variables the program has.
    pub fn number_of_variables(&self) -> (count: usize)
        ensures
            count == self@.variables.len(),
    {
        self.variables.len()
    }

    /// How many constraints the program has.
    pub fn number_of_constraints(&self) -> (count: usize)
        ensures
            count == self@.constraints.len(),
    {
        self.constraints.len()
    }

    /// The variables.
    pub fn variables(&self) -> (variables: &Vec<LpBinary>)
        ensures
            self@.variables == names_of(variables@),
    {
        &self.variables
    }

    /// The coefficient of each variable in the objective.
    pub fn objective(&self) -> (objective: &Vec<u32>)
        ensures
            self@.objective == Seq::new(objective@.len(), |i: int| objective@[i] as nat),
            objective@.len() == self@.variables.len(),
    {
        proof {
            use_type_invariant(self);
        }
        &self.objective
    }

    /// The constraints.
    pub fn constraints(&self) -> (constraints: &Vec<Constraint>)
        ensures
            self@.constraints == Seq::new(constraints@.len(), |i: int| constraints@[i]@),
            forall|c: int|
                0 <= c < constraints@.len() ==> (#[trigger] constraints@[c]).coefficients@.len()
                    == self@.variables.len(),
    {
        proof {
            use_type_invariant(self);
            assert forall|c: int| 0 <= c < self.constraints@.len() implies (
            #[trigger] self.constraints@[c]).coefficients@.len() == self@.variables.len() by {
                assert(self@.constraints[c].coefficients.len() == self@.variables.len());
            }
        }
        &self.constraints
    }
}

/// The sum of the coefficients of those of the first `k` variables that are
/// set to one.
pub open spec fn weighted_sum(coefficients: Seq<nat>, ones: Set<int>, k: nat) -> nat
    decreases k,
{
    if k == 0 {
        0
    } else if ones.contains(k - 1) {
        weighted_sum(coefficients, ones, (k - 1) as nat) + coefficients[k - 1]
    } else {
        weighted_sum(coefficients, ones, (k - 1) as nat)
    }
}

impl ProgramModel {
    /// The objective and every constraint have one coefficient for each
    /// variable.
    pub open spec fn wf(self) -> bool {
        &&& self.objective.len() == self.variables.len()
        &&& forall|c: int|
            0 <= c < self.constraints.len() ==> (#[trigger] self.constraints[c]).coefficients.len()
                == self.variables.len()
    }

    /// The value of the objective where the variables of `ones` are set to
    /// one and the others to zero.
    pub open spec fn objective_value(self, ones: Set<int>) -> nat {
        weighted_sum(self.objective, ones, self.variables.len())
    }

    /// Whether every constraint is met where the variables of `ones` are
    /// set to one and the others to zero.
    pub open spec fn satisfied_by(self, ones: Set<int>) -> bool {
        forall|c: int|
            0 <= c < self.constraints.len() ==> weighted_sum(
                (#[trigger] self.constraints[c]).coefficients,
                ones,
                self.variables.len(),
            ) <= self.constraints[c].bound
    }
}

impl OptProblemKind for MathProgram {
    type Cost = Single;

    type Solution = LpSolution;
}

/// The solvers that a program can be handed to.
pub enum LpSolver {
    CBC,
    GLPK,
}

/// How good a solved program's assignment is known to be.
pub enum SolutionType {
    Optimal,
    SubOptimal,
}

/// What a solver answers to a program.
pub enum LpSolution {
    /// An assignment was found: the value of each variable by its name, how
    /// good the assignment is, and the value of the objective if it is
    /// known.
    Solved { vars: StringHashMap<Single>, kind: SolutionType, value: Option<Single> },
    /// No assignment meets the constraints.
    Infeasible,
    /// The objective has no bound.
    Unbounded,
    /// The solver failed; the text says how.
    Failed(String),
}

/// The assignment that a list of named values describes. Of two values
/// under one name the later counts.
pub open spec fn assignments(values: Seq<(String, Single)>) -> Map<Seq<char>, Single>
    decreases values.len(),
{
    if values.len() == 0 {
        Map::empty()
    } else {
        assignments(values.drop_last()).insert(values.last().0@, values.last().1)
    }
}

/// Whether `solution` is what the answer of a solver of `lp_modeler` reads
/// as, given the status in which the solver ended, the values of the
/// variables and the value of the objective. The values and the objective
/// value are kept where the status says that an assignment was found.
pub open spec fn reads_as(
    solution: LpSolution,
    status: Status,
    values: Map<Seq<char>, Single>,
    objective: Option<Single>,
) -> bool {
    match status {
        Status::Optimal => solution matches LpSolution::Solved { vars, kind, value } && vars@
            == values && kind is Optimal && value == objective,
        Status::SubOptimal => solution matches LpSolution::Solved { vars, kind, value } && vars@
            == values && kind is SubOptimal && value == objective,
        Status::Infeasible => solution is Infeasible,
        Status::Unbounded => solution is Unbounded,
        Status::NotSolved => solution matches LpSolution::Failed(text) && text@ == "Not solved"@,
    }
}

impl LpSolution {
    /// The answer of a solver of `lp_modeler` that ended in `status`, with
    /// the values of the variables and the value of the objective that it
    /// reported.
    pub fn from(status: &Status, values: Vec<(String, Single)>, objective: Option<Single>) -> (solution:
        Self)
        ensures
            reads_as(solution, *status, assignments(values@), objective),
    {
        match status {
            Status::Optimal => LpSolution::Solved {
                kind: SolutionType::Optimal,
                value: objective,
                vars: assignment_map(values),
            },
            Status::SubOptimal => LpSolution::Solved {
                kind: SolutionType::SubOptimal,
                value: objective,
                vars: assignment_map(values),
            },
            Status::Infeasible => LpSolution::Infeasible,
            Status::Unbounded => LpSolution::Unbounded,
            Status::NotSolved => LpSolution::Failed(String::from_str("Not solved")),
        }
    }
}

/// The map of a list of named values.
fn assignment_map(values: Vec<(String, Single)>) -> (map: StringHashMap<Single>)
    ensures
        map@ == assignments(values@),
{
    let mut map: StringHashMap<Single> = StringHashMap::new();
    let mut i: usize = 0;
    while i < values.len()
        invariant
            i <= values.len(),
            map@ == assignments(values@.take(i as int)),
        decreases values.len() - i,
    {
        proof {
            assert(values@.take(i + 1).drop_last() =~= values@.take(i as int));
        }
        map.insert(values[i].0.clone(), values[i].1);
        i += 1;
    }
    proof {
        assert(values@.take(i as int) =~= values@);
    }
    map
}

impl SolutionKind<MathProgram> for LpSolution {
    type Cost = Single;

    /// The value of the objective, where an assignment was found and the
    /// value is known.
    open spec fn cost_spec(&self, instance: &MathProgram) -> Option<Single> {
        match self {
            LpSolution::Solved { value, .. } => *value,
            _ => None,
        }
    }

    fn cost(&self, instance: &MathProgram) -> (cost: Option<Single>) {
        match self {
            LpSolution::Solved { value, .. } => *value,
            _ => None,
        }
    }
}

#[verifier::external_type_specification]
pub struct ExLpBinary(lp_modeler::dsl::LpBinary);

/// Calls `lp_modeler::dsl::LpBinary::new`, which makes the variable that
/// holds a copy of the given name.
#[verifier::external_body]
pub(crate) fn binary(name: &str) -> (variable: LpBinary)
    ensures
        variable.name@ == name@,
{
    LpBinary::new(name)
}

#[verifier::external_type_specification]
pub struct ExStatus(lp_modeler::solvers::Status);

} // verus!
