//! The puzzle data model: operators, steps, puzzles, and their
//! well-formedness invariant, together with random generation.

use vstd::prelude::*;

use crate::rng::random_in_range;

verus! {

/// How many steps a freshly generated (or default) puzzle has.
pub const STEPS_PER_PUZZLE: usize = 2;

/// The largest step count for which evaluation is guaranteed to stay
/// inside `i64` (see `solve`): well-formed puzzles never exceed it.
pub const MAX_STEPS: usize = 12;

/// One of the four arithmetic operations a step may apply.
#[derive(Debug, PartialEq, Eq, Structural, Clone, Copy)]
pub enum Op {
    Add,
    Sub,
    Mul,
    Div,
}

/// One step of a puzzle: an operator and its right-hand operand.
#[derive(Debug, PartialEq, Eq, Structural, Clone, Copy)]
pub struct Step {
    pub operator: Op,
    pub operand: i64,
}

/// A puzzle: a seed value and an ordered sequence of steps, applied
/// left to right.
#[derive(Debug)]
pub struct Puzzle {
    pub seed: i64,
    pub steps: Vec<Step>,
}

/// Smallest operand (inclusive) ever drawn for `op`.
pub open spec fn operand_min(op: Op) -> int {
    1
}

/// Largest operand (exclusive) ever drawn for `op`: additive operators
/// use a wide range, multiplicative and divisive ones a narrow range so
/// that intermediate results stay small.
pub open spec fn operand_max(op: Op) -> int {
    match op {
        Op::Add => 100,
        Op::Sub => 100,
        Op::Mul => 10,
        Op::Div => 10,
    }
}

/// A step is well formed when its operand lies in the range configured
/// for its operator.  In particular a divisor is never zero.
pub open spec fn wf_step(s: Step) -> bool {
    operand_min(s.operator) <= s.operand < operand_max(s.operator)
}

impl Puzzle {
    /// A puzzle is well formed when its seed lies in the generated range,
    /// every step is well formed, and the step count is small enough for
    /// evaluation to stay inside `i64`.
    pub open spec fn wf(&self) -> bool {
        &&& 1 <= self.seed < 100
        &&& self.steps@.len() <= MAX_STEPS
        &&& forall|i: int| 0 <= i < self.steps@.len() ==> wf_step(#[trigger] self.steps@[i])
    }

    /// Runtime check of `wf`, for callers outside verified code.
    pub fn is_wf(&self) -> (r: bool)
        ensures
            r == self.wf(),
    {
        if !(1 <= self.seed && self.seed < 100) {
            return false;
        }
        if self.steps.len() > MAX_STEPS {
            return false;
        }
        let mut i: usize = 0;
        while i < self.steps.len()
            invariant
                0 <= i <= self.steps@.len(),
                forall|j: int| 0 <= j < i ==> wf_step(#[trigger] self.steps@[j]),
            decreases self.steps@.len() - i,
        {
            let s = self.steps[i];
            let ok = match s.operator {
                Op::Add => 1 <= s.operand && s.operand < 100,
                Op::Sub => 1 <= s.operand && s.operand < 100,
                Op::Mul => 1 <= s.operand && s.operand < 10,
                Op::Div => 1 <= s.operand && s.operand < 10,
            };
            if !ok {
                return false;
            }
            i += 1;
        }
        true
    }
}

impl PartialEq for Puzzle {
    fn eq(&self, other: &Puzzle) -> (r: bool) {
        if self.seed != other.seed {
            return false;
        }
        if self.steps.len() != other.steps.len() {
            return false;
        }
        let mut i: usize = 0;
        while i < self.steps.len()
            invariant
                0 <= i <= self.steps@.len(),
                self.steps@.len() == other.steps@.len(),
                self.seed == other.seed,
                forall|j: int| 0 <= j < i ==> self.steps@[j] == other.steps@[j],
            decreases self.steps@.len() - i,
        {
            if self.steps[i] != other.steps[i] {
                proof {
                    assert(self.steps@[i as int] != other.steps@[i as int]);
                }
                return false;
            }
            i += 1;
        }
        proof {
            assert(self.steps@ =~= other.steps@);
        }
        true
    }
}

impl vstd::std_specs::cmp::PartialEqSpecImpl for Puzzle {
    open spec fn obeys_eq_spec() -> bool {
        true
    }

    open spec fn eq_spec(&self, other: &Puzzle) -> bool {
        self.seed == other.seed && self.steps@ == other.steps@
    }
}

impl Default for Step {
    /// The default step adds one.
    fn default() -> (r: Step)
        ensures
            r == (Step { operator: Op::Add, operand: 1 }),
            wf_step(r),
    {
        let operator = Op::Add;
        let operand: i64 = 1;

        Step { operator, operand }
    }
}

impl Default for Puzzle {
    /// The default puzzle starts from ten and adds one at every step.
    fn default() -> (r: Puzzle)
        ensures
            r.seed == 10,
            r.steps@.len() == STEPS_PER_PUZZLE,
            forall|i: int|
                0 <= i < r.steps@.len() ==> #[trigger] r.steps@[i] == (Step {
                    operator: Op::Add,
                    operand: 1,
                }),
            r.wf(),
    {
        let seed: i64 = 10;
        let step = Step::default();
        let mut steps: Vec<Step> = Vec::new();
        while steps.len() < STEPS_PER_PUZZLE
            invariant
                steps@.len() <= STEPS_PER_PUZZLE,
                step == (Step { operator: Op::Add, operand: 1 }),
                forall|i: int|
                    0 <= i < steps@.len() ==> #[trigger] steps@[i] == (Step {
                        operator: Op::Add,
                        operand: 1,
                    }),
            decreases STEPS_PER_PUZZLE - steps@.len(),
        {
            steps.push(step);
        }

        Puzzle { seed, steps }
    }
}

/// Draw one of the four operators uniformly at random.
pub fn random_op() -> Op {
    let idx = random_in_range(0, 4);
    if idx == 0 {
        Op::Add
    } else if idx == 1 {
        Op::Sub
    } else if idx == 2 {
        Op::Mul
    } else {
        Op::Div
    }
}

/// Draw a random step: a uniform operator, then an operand from the
/// range configured for that operator.
pub fn random_step() -> (s: Step)
    ensures
        wf_step(s),
{
    let operator = random_op();
    let (lo, hi): (i64, i64) = match operator {
        Op::Add => (1, 100),
        Op::Sub => (1, 100),
        Op::Mul => (1, 10),
        Op::Div => (1, 10),
    };
    let operand = random_in_range(lo, hi);

    Step { operator, operand }
}

impl Puzzle {
    /// Create a new puzzle with a random seed and random steps.
    pub fn new() -> (r: Puzzle)
        ensures
            r.wf(),
            r.steps@.len() == STEPS_PER_PUZZLE,
    {
        let seed = random_in_range(1, 100);
        let mut steps: Vec<Step> = Vec::new();
        while steps.len() < STEPS_PER_PUZZLE
            invariant
                steps@.len() <= STEPS_PER_PUZZLE,
                forall|i: int| 0 <= i < steps@.len() ==> wf_step(#[trigger] steps@[i]),
            decreases STEPS_PER_PUZZLE - steps@.len(),
        {
            steps.push(random_step());
        }

        Puzzle { seed, steps }
    }
}

} // verus!
