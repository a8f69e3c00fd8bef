//! The evaluator: folds a puzzle's steps over its seed, left to right,
//! with division truncating toward zero, and proves the whole fold free
//! of overflow for well-formed puzzles.

use vstd::arithmetic::div_mod::lemma_div_nonincreasing;
use vstd::arithmetic::div_mod::lemma_div_pos_is_pos;
use vstd::prelude::*;

use crate::puzzle::wf_step;
use crate::puzzle::Op;
use crate::puzzle::Puzzle;
use crate::puzzle::Step;
use crate::puzzle::MAX_STEPS;

verus! {

/// Integer division truncating toward zero: the remainder is discarded,
/// so `-7` divided by `2` is `-3`.  Meaningful for positive divisors,
/// and every well-formed step's divisor is positive.
pub open spec fn tdiv(a: int, b: int) -> int
    recommends
        b >= 1,
{
    if a >= 0 {
        a / b
    } else {
        -((-a) / b)
    }
}

/// The accumulator after one step: its operator applied to the old
/// accumulator and the step's operand.
pub open spec fn apply_step(acc: int, s: Step) -> int {
    match s.operator {
        Op::Add => acc + s.operand,
        Op::Sub => acc - s.operand,
        Op::Mul => acc * s.operand,
        Op::Div => tdiv(acc, s.operand as int),
    }
}

/// The solution of a puzzle: a strict left-to-right fold of the steps
/// over the seed, with no operator precedence.
pub open spec fn solve_spec(seed: int, steps: Seq<Step>) -> int
    decreases steps.len(),
{
    if steps.len() == 0 {
        seed
    } else {
        apply_step(solve_spec(seed, steps.drop_last()), steps.last())
    }
}

/// Worst-case magnitude of the accumulator after `n` well-formed steps:
/// a step at most multiplies the magnitude by nine (`Mul` by up to
/// nine) and adds ninety-nine (`Add`/`Sub` of up to ninety-nine).
pub open spec fn step_bound(n: nat) -> int
    decreases n,
{
    if n == 0 {
        99
    } else {
        9 * step_bound((n - 1) as nat) + 99
    }
}

proof fn lemma_step_bound_nonneg(n: nat)
    ensures
        step_bound(n) >= 99,
    decreases n,
{
    if n > 0 {
        lemma_step_bound_nonneg((n - 1) as nat);
    }
}

proof fn lemma_step_bound_mono(m: nat, n: nat)
    requires
        m <= n,
    ensures
        step_bound(m) <= step_bound(n),
    decreases n - m,
{
    if m < n {
        lemma_step_bound_mono(m, (n - 1) as nat);
        lemma_step_bound_nonneg((n - 1) as nat);
    }
}

proof fn lemma_step_bound_at_max()
    ensures
        step_bound(MAX_STEPS as nat) == 31455589625559,
{
    reveal_with_fuel(step_bound, 14);
}

/// One well-formed step keeps a `b`-bounded accumulator within
/// `9 * b + 99`.
proof fn lemma_apply_step_bound(acc: int, s: Step, b: int)
    requires
        wf_step(s),
        b >= 0,
        -b <= acc <= b,
    ensures
        -(9 * b + 99) <= apply_step(acc, s) <= 9 * b + 99,
{
    match s.operator {
        Op::Add => {},
        Op::Sub => {},
        Op::Mul => {
            assert(-(9 * b) <= acc * s.operand <= 9 * b) by (nonlinear_arith)
                requires
                    -b <= acc <= b,
                    1 <= s.operand <= 9,
                    b >= 0,
            ;
        },
        Op::Div => {
            if acc >= 0 {
                lemma_div_pos_is_pos(acc, s.operand as int);
                lemma_div_nonincreasing(acc, s.operand as int);
            } else {
                lemma_div_pos_is_pos(-acc, s.operand as int);
                lemma_div_nonincreasing(-acc, s.operand as int);
            }
        },
    }
}

/// The accumulator of a well-formed fold never leaves
/// `[-step_bound(n), step_bound(n)]` after `n` steps.
proof fn lemma_solve_bounded(seed: int, steps: Seq<Step>)
    requires
        1 <= seed < 100,
        forall|i: int| 0 <= i < steps.len() ==> wf_step(#[trigger] steps[i]),
    ensures
        -step_bound(steps.len()) <= solve_spec(seed, steps) <= step_bound(steps.len()),
    decreases steps.len(),
{
    if steps.len() == 0 {
    } else {
        let prefix = steps.drop_last();
        assert(forall|i: int| 0 <= i < prefix.len() ==> wf_step(#[trigger] prefix[i]));
        lemma_solve_bounded(seed, prefix);
        lemma_step_bound_nonneg(prefix.len());
        lemma_apply_step_bound(solve_spec(seed, prefix), steps.last(), step_bound(prefix.len()));
    }
}

/// Law: when every step adds one, the solution is the seed plus the
/// step count.
pub proof fn lemma_solve_all_add_one(seed: int, steps: Seq<Step>)
    requires
        forall|i: int|
            0 <= i < steps.len() ==> #[trigger] steps[i] == (Step {
                operator: Op::Add,
                operand: 1,
            }),
    ensures
        solve_spec(seed, steps) == seed + steps.len(),
    decreases steps.len(),
{
    if steps.len() > 0 {
        let prefix = steps.drop_last();
        assert(forall|i: int|
            0 <= i < prefix.len() ==> #[trigger] prefix[i] == (Step {
                operator: Op::Add,
                operand: 1,
            }));
        lemma_solve_all_add_one(seed, prefix);
        assert(steps.last() == (Step { operator: Op::Add, operand: 1 }));
    }
}

/// Division of an `i64` by a positive `i64`, truncating toward zero.
fn div_trunc(a: i64, b: i64) -> (r: i64)
    requires
        1 <= b,
        i64::MIN < a,
    ensures
        r as int == tdiv(a as int, b as int),
{
    if a >= 0 {
        let q: u64 = (a as u64) / (b as u64);
        proof {
            lemma_div_pos_is_pos(a as int, b as int);
            lemma_div_nonincreasing(a as int, b as int);
        }
        q as i64
    } else {
        let m: u64 = (-a) as u64;
        let q: u64 = m / (b as u64);
        proof {
            lemma_div_pos_is_pos(m as int, b as int);
            lemma_div_nonincreasing(m as int, b as int);
        }
        -(q as i64)
    }
}

/// Solve a puzzle: fold every step over the seed, in sequence order.
pub fn solve_puzzle(puzzle: &Puzzle) -> (solution: i64)
    requires
        puzzle.wf(),
    ensures
        solution as int == solve_spec(puzzle.seed as int, puzzle.steps@),
{
    let ghost all = puzzle.steps@;
    let mut solution: i64 = puzzle.seed;
    let mut i: usize = 0;
    while i < puzzle.steps.len()
        invariant
            puzzle.wf(),
            0 <= i <= puzzle.steps@.len(),
            solution as int == solve_spec(puzzle.seed as int, puzzle.steps@.take(i as int)),
        decreases puzzle.steps@.len() - i,
    {
        let step = puzzle.steps[i];
        proof {
            let pre = puzzle.steps@.take(i as int);
            let post = puzzle.steps@.take(i as int + 1);
            assert(forall|j: int| 0 <= j < pre.len() ==> wf_step(#[trigger] pre[j]));
            lemma_solve_bounded(puzzle.seed as int, pre);
            lemma_step_bound_mono(pre.len(), MAX_STEPS as nat);
            lemma_step_bound_at_max();
            lemma_apply_step_bound(solution as int, step, 31455589625559);
            assert(post.drop_last() =~= pre);
            assert(post.last() == step);
        }
        solution = match step.operator {
            Op::Add => solution + step.operand,
            Op::Sub => solution - step.operand,
            Op::Mul => solution * step.operand,
            Op::Div => div_trunc(solution, step.operand),
        };
        i += 1;
    }
    proof {
        assert(puzzle.steps@.take(puzzle.steps@.len() as int) =~= puzzle.steps@);
    }
    solution
}

} // verus!
