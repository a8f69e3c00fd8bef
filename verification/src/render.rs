//! Rendering: decimal numerals for the numbers, one symbol per
//! operator, and the puzzle as `"<seed> <sym> <operand> ..."`.

use vstd::prelude::*;

use crate::puzzle::wf_step;
use crate::puzzle::Op;
use crate::puzzle::Puzzle;
use crate::puzzle::Step;

verus! {

/// The character for one decimal digit.
pub open spec fn digit_char(d: nat) -> char
    recommends
        d < 10,
{
    if d == 0 {
        '0'
    } else if d == 1 {
        '1'
    } else if d == 2 {
        '2'
    } else if d == 3 {
        '3'
    } else if d == 4 {
        '4'
    } else if d == 5 {
        '5'
    } else if d == 6 {
        '6'
    } else if d == 7 {
        '7'
    } else if d == 8 {
        '8'
    } else {
        '9'
    }
}

/// The decimal numeral of a natural number, most significant digit
/// first, with no leading zeros (zero itself is the single digit "0").
pub open spec fn dec_digits(n: nat) -> Seq<char>
    decreases n,
{
    if n < 10 {
        seq![digit_char(n)]
    } else {
        dec_digits(n / 10) + seq![digit_char(n % 10)]
    }
}

/// The decimal numeral of an integer: a minus sign before the numeral
/// of the magnitude when the integer is negative.
pub open spec fn int_digits(n: int) -> Seq<char> {
    if n < 0 {
        seq!['-'] + dec_digits((-n) as nat)
    } else {
        dec_digits(n as nat)
    }
}

/// The symbol an operator renders as.
pub open spec fn op_symbol(op: Op) -> char {
    match op {
        Op::Add => '+',
        Op::Sub => '-',
        Op::Mul => '*',
        Op::Div => '/',
    }
}

/// The text of one step: a space, the operator's symbol, a space, the
/// operand's numeral.
pub open spec fn render_step(s: Step) -> Seq<char>
    recommends
        wf_step(s),
{
    seq![' ', op_symbol(s.operator), ' '] + dec_digits(s.operand as nat)
}

/// The text of a sequence of steps, in order.
pub open spec fn render_steps(steps: Seq<Step>) -> Seq<char>
    decreases steps.len(),
{
    if steps.len() == 0 {
        Seq::empty()
    } else {
        render_step(steps[0]) + render_steps(steps.drop_first())
    }
}

/// The full text of a puzzle: the seed's numeral, then every step.
pub open spec fn render_spec(seed: int, steps: Seq<Step>) -> Seq<char>
    recommends
        seed >= 0,
{
    dec_digits(seed as nat) + render_steps(steps)
}

/// Law: each operator renders as exactly one of the four symbols, and
/// the symbol determines the operator.
pub proof fn lemma_op_symbol_exact()
    ensures
        forall|op: Op|
            #[trigger] op_symbol(op) == '+' || op_symbol(op) == '-' || op_symbol(op) == '*'
                || op_symbol(op) == '/',
        forall|op: Op| #[trigger] op_symbol(op) == '+' <==> op == Op::Add,
        forall|op: Op| #[trigger] op_symbol(op) == '-' <==> op == Op::Sub,
        forall|op: Op| #[trigger] op_symbol(op) == '*' <==> op == Op::Mul,
        forall|op: Op| #[trigger] op_symbol(op) == '/' <==> op == Op::Div,
{
}

proof fn lemma_render_steps_snoc(steps: Seq<Step>, s: Step)
    ensures
        render_steps(steps.push(s)) == render_steps(steps) + render_step(s),
    decreases steps.len(),
{
    if steps.len() == 0 {
        reveal_with_fuel(render_steps, 3);
        assert(steps.push(s).drop_first() =~= Seq::<Step>::empty());
        assert(steps.push(s)[0] == s);
        assert(render_steps(steps.push(s)) =~= render_steps(steps) + render_step(s));
    } else {
        assert(steps.push(s).drop_first() =~= steps.drop_first().push(s));
        lemma_render_steps_snoc(steps.drop_first(), s);
        assert(steps.push(s)[0] == steps[0]);
        assert(render_steps(steps.push(s)) =~= render_steps(steps) + render_step(s));
    }
}

/// The text " + 1" repeated `n` times.
pub open spec fn plus_one_repeats(n: nat) -> Seq<char>
    decreases n,
{
    if n == 0 {
        Seq::empty()
    } else {
        seq![' ', '+', ' ', '1'] + plus_one_repeats((n - 1) as nat)
    }
}

proof fn lemma_render_steps_all_add_one(steps: Seq<Step>)
    requires
        forall|i: int|
            0 <= i < steps.len() ==> #[trigger] steps[i] == (Step {
                operator: Op::Add,
                operand: 1,
            }),
    ensures
        render_steps(steps) == plus_one_repeats(steps.len()),
    decreases steps.len(),
{
    if steps.len() > 0 {
        let rest = steps.drop_first();
        assert(forall|i: int|
            0 <= i < rest.len() ==> #[trigger] rest[i] == (Step { operator: Op::Add, operand: 1 }));
        lemma_render_steps_all_add_one(rest);
        assert(render_step(steps[0]) =~= seq![' ', '+', ' ', '1']);
        assert(render_steps(steps) =~= plus_one_repeats(steps.len()));
    }
}

/// Law: the default configuration (seed ten, every step Add one)
/// renders as "10" followed by " + 1" once per step.
pub proof fn lemma_render_all_add_one(steps: Seq<Step>)
    requires
        forall|i: int|
            0 <= i < steps.len() ==> #[trigger] steps[i] == (Step {
                operator: Op::Add,
                operand: 1,
            }),
    ensures
        render_spec(10, steps) == seq!['1', '0'] + plus_one_repeats(steps.len()),
{
    lemma_render_steps_all_add_one(steps);
    reveal_with_fuel(dec_digits, 3);
    assert(dec_digits(10) =~= seq!['1', '0']);
}

fn digit_str(d: u64) -> (r: &'static str)
    requires
        d < 10,
    ensures
        r@ == seq![digit_char(d as nat)],
{
    if d == 0 {
        proof {
            reveal_strlit("0");
            assert("0"@ =~= seq![digit_char(0)]);
        }
        "0"
    } else if d == 1 {
        proof {
            reveal_strlit("1");
            assert("1"@ =~= seq![digit_char(1)]);
        }
        "1"
    } else if d == 2 {
        proof {
            reveal_strlit("2");
            assert("2"@ =~= seq![digit_char(2)]);
        }
        "2"
    } else if d == 3 {
        proof {
            reveal_strlit("3");
            assert("3"@ =~= seq![digit_char(3)]);
        }
        "3"
    } else if d == 4 {
        proof {
            reveal_strlit("4");
            assert("4"@ =~= seq![digit_char(4)]);
        }
        "4"
    } else if d == 5 {
        proof {
            reveal_strlit("5");
            assert("5"@ =~= seq![digit_char(5)]);
        }
        "5"
    } else if d == 6 {
        proof {
            reveal_strlit("6");
            assert("6"@ =~= seq![digit_char(6)]);
        }
        "6"
    } else if d == 7 {
        proof {
            reveal_strlit("7");
            assert("7"@ =~= seq![digit_char(7)]);
        }
        "7"
    } else if d == 8 {
        proof {
            reveal_strlit("8");
            assert("8"@ =~= seq![digit_char(8)]);
        }
        "8"
    } else {
        proof {
            reveal_strlit("9");
            assert("9"@ =~= seq![digit_char(9)]);
        }
        "9"
    }
}

/// The decimal numeral of an unsigned machine integer.
pub fn u64_to_string(n: u64) -> (r: String)
    ensures
        r@ == dec_digits(n as nat),
    decreases n,
{
    if n < 10 {
        String::from_str(digit_str(n))
    } else {
        let mut s = u64_to_string(n / 10);
        s.append(digit_str(n % 10));
        s
    }
}

/// The decimal numeral of a signed machine integer.
pub fn i64_to_string(n: i64) -> (r: String)
    ensures
        r@ == int_digits(n as int),
{
    if n >= 0 {
        u64_to_string(n as u64)
    } else {
        let m: u64 = ((-(n + 1)) as u64) + 1;
        proof {
            assert(m as int == -(n as int));
        }
        let mut s = String::from_str("-");
        let digits = u64_to_string(m);
        s.append(digits.as_str());
        proof {
            reveal_strlit("-");
            assert("-"@ =~= seq!['-']);
            assert(s@ =~= int_digits(n as int));
        }
        s
    }
}

fn op_str(op: Op) -> (r: &'static str)
    ensures
        r@ == seq![op_symbol(op)],
{
    match op {
        Op::Add => {
            proof {
                reveal_strlit("+");
                assert("+"@ =~= seq!['+']);
            }
            "+"
        },
        Op::Sub => {
            proof {
                reveal_strlit("-");
                assert("-"@ =~= seq!['-']);
            }
            "-"
        },
        Op::Mul => {
            proof {
                reveal_strlit("*");
                assert("*"@ =~= seq!['*']);
            }
            "*"
        },
        Op::Div => {
            proof {
                reveal_strlit("/");
                assert("/"@ =~= seq!['/']);
            }
            "/"
        },
    }
}

fn render_step_string(s: Step) -> (r: String)
    requires
        wf_step(s),
    ensures
        r@ == render_step(s),
{
    let mut out = String::from_str(" ");
    out.append(op_str(s.operator));
    out.append(" ");
    let num = u64_to_string(s.operand as u64);
    out.append(num.as_str());
    proof {
        reveal_strlit(" ");
        assert(" "@ =~= seq![' ']);
        assert(out@ =~= render_step(s));
    }
    out
}

impl Puzzle {
    /// Render the puzzle as text: the seed's numeral, then each step as
    /// `" <symbol> <operand>"`.
    pub fn render(&self) -> (r: String)
        requires
            self.wf(),
        ensures
            r@ == render_spec(self.seed as int, self.steps@),
    {
        let mut out = u64_to_string(self.seed as u64);
        let mut i: usize = 0;
        while i < self.steps.len()
            invariant
                self.wf(),
                0 <= i <= self.steps@.len(),
                out@ == render_spec(self.seed as int, self.steps@.take(i as int)),
            decreases self.steps@.len() - i,
        {
            let step = self.steps[i];
            let chunk = render_step_string(step);
            out.append(chunk.as_str());
            proof {
                let pre = self.steps@.take(i as int);
                let post = self.steps@.take(i as int + 1);
                lemma_render_steps_snoc(pre, step);
                assert(pre.push(step) =~= post);
                assert(out@ =~= render_spec(self.seed as int, post));
            }
            i += 1;
        }
        proof {
            assert(self.steps@.take(self.steps@.len() as int) =~= self.steps@);
        }
        out
    }
}

} // verus!
