//! The session's one decision: compare the player's answer with the
//! computed solution and produce the verdict text.

use vstd::prelude::*;

use crate::render::i64_to_string;
use crate::render::int_digits;

verus! {

/// The verdict text: `"correct"` for the right answer, otherwise
/// `"Incorrect."`, a line break, and the correct answer.
pub open spec fn verdict_spec(answer: int, solution: int) -> Seq<char> {
    if answer == solution {
        "correct"@
    } else {
        "Incorrect.\nThe correct answer is: "@ + int_digits(solution)
    }
}

/// Compare an answer with the solution and render the verdict.
pub fn check_answer(answer: i64, solution: i64) -> (r: String)
    ensures
        r@ == verdict_spec(answer as int, solution as int),
{
    if answer == solution {
        String::from_str("correct")
    } else {
        let mut out = String::from_str("Incorrect.\nThe correct answer is: ");
        let digits = i64_to_string(solution);
        out.append(digits.as_str());
        out
    }
}

} // verus!
