//! Parsing: the inverse of rendering.  The grammar is the seed's
//! numeral followed by zero or more `" <sym> <operand>"` groups; every
//! numeral must fit in `i64`.  Rendering a well-formed puzzle and
//! parsing the text back yields the same puzzle (proved below).

use vstd::arithmetic::div_mod::lemma_fundamental_div_mod;
use vstd::prelude::*;

use crate::puzzle::wf_step;
use crate::puzzle::Op;
use crate::puzzle::Puzzle;
use crate::puzzle::Step;
use crate::render::dec_digits;
use crate::render::digit_char;
use crate::render::op_symbol;
use crate::render::render_spec;
use crate::render::render_step;
use crate::render::render_steps;

verus! {

/// Is `c` a decimal digit?
pub open spec fn is_digit(c: char) -> bool {
    c == '0' || c == '1' || c == '2' || c == '3' || c == '4' || c == '5' || c == '6' || c == '7'
        || c == '8' || c == '9'
}

/// The value of a digit character.
pub open spec fn digit_val(c: char) -> nat
    recommends
        is_digit(c),
{
    if c == '0' {
        0
    } else if c == '1' {
        1
    } else if c == '2' {
        2
    } else if c == '3' {
        3
    } else if c == '4' {
        4
    } else if c == '5' {
        5
    } else if c == '6' {
        6
    } else if c == '7' {
        7
    } else if c == '8' {
        8
    } else {
        9
    }
}

/// The length of the digit run at the front of `s`.
pub open spec fn digit_run(s: Seq<char>) -> nat
    decreases s.len(),
{
    if s.len() == 0 || !is_digit(s[0]) {
        0
    } else {
        digit_run(s.drop_first()) + 1
    }
}

proof fn lemma_digit_run_le(s: Seq<char>)
    ensures
        digit_run(s) <= s.len(),
    decreases s.len(),
{
    if s.len() > 0 && is_digit(s[0]) {
        lemma_digit_run_le(s.drop_first());
    }
}

/// The number a digit sequence denotes, accumulated left to right
/// onto `acc`.
pub open spec fn num_scan(acc: int, ds: Seq<char>) -> int
    decreases ds.len(),
{
    if ds.len() == 0 {
        acc
    } else {
        num_scan(acc * 10 + digit_val(ds[0]), ds.drop_first())
    }
}

/// The number a digit sequence denotes.
pub open spec fn num_of(ds: Seq<char>) -> int {
    num_scan(0, ds)
}

/// The operator a symbol denotes, if any.
pub open spec fn op_of_char(c: char) -> Option<Op> {
    if c == '+' {
        Some(Op::Add)
    } else if c == '-' {
        Some(Op::Sub)
    } else if c == '*' {
        Some(Op::Mul)
    } else if c == '/' {
        Some(Op::Div)
    } else {
        None
    }
}

/// The steps a step-list text denotes: zero or more groups of a space,
/// an operator symbol, a space, and an operand numeral that fits `i64`.
pub open spec fn parse_steps(s: Seq<char>) -> Option<Seq<Step>>
    decreases s.len(),
    via parse_steps_dec
{
    if s.len() == 0 {
        Some(Seq::empty())
    } else if s.len() >= 4 && s[0] == ' ' && op_of_char(s[1]) is Some && s[2] == ' ' && is_digit(
        s[3],
    ) {
        let tail = s.skip(3);
        let k = digit_run(tail) as int;
        let v = num_of(tail.take(k));
        if v > i64::MAX {
            None
        } else {
            match parse_steps(tail.skip(k)) {
                Some(rest) => Some(
                    seq![
                        Step { operator: op_of_char(s[1]).unwrap(), operand: v as i64 },
                    ] + rest,
                ),
                None => None,
            }
        }
    } else {
        None
    }
}

#[via_fn]
proof fn parse_steps_dec(s: Seq<char>) {
    if s.len() != 0 && s.len() >= 4 && s[0] == ' ' && op_of_char(s[1]) is Some && s[2] == ' '
        && is_digit(s[3]) {
        let tail = s.skip(3);
        assert(tail[0] == s[3]);
        assert(digit_run(tail) >= 1);
        lemma_digit_run_le(tail);
    }
}

/// The seed and steps a full text denotes, if the text lies in the
/// grammar.
pub open spec fn parse_spec(s: Seq<char>) -> Option<(int, Seq<Step>)> {
    if s.len() == 0 || !is_digit(s[0]) {
        None
    } else {
        let k = digit_run(s) as int;
        let seed = num_of(s.take(k));
        if seed > i64::MAX {
            None
        } else {
            match parse_steps(s.skip(k)) {
                Some(steps) => Some((seed, steps)),
                None => None,
            }
        }
    }
}

proof fn lemma_digit_char_val(d: nat)
    requires
        d < 10,
    ensures
        is_digit(digit_char(d)),
        digit_val(digit_char(d)) == d,
{
}

proof fn lemma_dec_digits_all_digits(n: nat)
    ensures
        dec_digits(n).len() >= 1,
        forall|i: int| 0 <= i < dec_digits(n).len() ==> is_digit(#[trigger] dec_digits(n)[i]),
    decreases n,
{
    if n < 10 {
        lemma_digit_char_val(n);
    } else {
        lemma_dec_digits_all_digits(n / 10);
        lemma_digit_char_val(n % 10);
        let prefix = dec_digits(n / 10);
        assert forall|i: int| 0 <= i < dec_digits(n).len() implies is_digit(
            #[trigger] dec_digits(n)[i],
        ) by {
            if i < prefix.len() {
                assert(dec_digits(n)[i] == prefix[i]);
            } else {
                assert(dec_digits(n)[i] == digit_char(n % 10));
            }
        }
    }
}

proof fn lemma_digit_run_concat(ds: Seq<char>, rest: Seq<char>)
    requires
        forall|i: int| 0 <= i < ds.len() ==> is_digit(#[trigger] ds[i]),
        rest.len() == 0 || !is_digit(rest[0]),
    ensures
        digit_run(ds + rest) == ds.len(),
    decreases ds.len(),
{
    if ds.len() == 0 {
        assert(ds + rest =~= rest);
    } else {
        assert((ds + rest)[0] == ds[0]);
        assert((ds + rest).drop_first() =~= ds.drop_first() + rest);
        assert(forall|i: int|
            0 <= i < ds.drop_first().len() ==> is_digit(#[trigger] ds.drop_first()[i]));
        lemma_digit_run_concat(ds.drop_first(), rest);
    }
}

proof fn lemma_num_scan_snoc(acc: int, ds: Seq<char>, c: char)
    ensures
        num_scan(acc, ds.push(c)) == num_scan(acc, ds) * 10 + digit_val(c),
    decreases ds.len(),
{
    if ds.len() == 0 {
        assert(ds.push(c).drop_first() =~= Seq::<char>::empty());
        assert(ds.push(c)[0] == c);
        assert(num_scan(acc * 10 + digit_val(c), Seq::<char>::empty()) == acc * 10 + digit_val(
            c,
        ));
        assert(num_scan(acc, ds) == acc);
    } else {
        assert(ds.push(c).drop_first() =~= ds.drop_first().push(c));
        assert(ds.push(c)[0] == ds[0]);
        lemma_num_scan_snoc(acc * 10 + digit_val(ds[0]), ds.drop_first(), c);
    }
}

proof fn lemma_num_of_dec_digits(n: nat)
    ensures
        num_of(dec_digits(n)) == n,
    decreases n,
{
    if n < 10 {
        lemma_digit_char_val(n);
        assert(dec_digits(n) == seq![digit_char(n)]);
        assert(seq![digit_char(n)].drop_first() =~= Seq::<char>::empty());
        assert(num_scan(0 * 10 + digit_val(digit_char(n)) as int, Seq::<char>::empty())
            == digit_val(digit_char(n)));
    } else {
        lemma_num_of_dec_digits(n / 10);
        lemma_digit_char_val(n % 10);
        assert(dec_digits(n) =~= dec_digits(n / 10).push(digit_char(n % 10)));
        lemma_num_scan_snoc(0, dec_digits(n / 10), digit_char(n % 10));
        assert((n as int) / 10 * 10 + (n as int) % 10 == n) by {
            lemma_fundamental_div_mod(n as int, 10);
        }
    }
}

proof fn lemma_render_steps_starts_space(steps: Seq<Step>)
    requires
        steps.len() > 0,
    ensures
        render_steps(steps).len() >= 4,
        render_steps(steps)[0] == ' ',
{
    let chunk = render_step(steps[0]);
    assert(dec_digits(steps[0].operand as nat).len() >= 1);
    assert(chunk.len() >= 4);
    assert(chunk[0] == ' ');
    assert(render_steps(steps)[0] == chunk[0]);
}

proof fn lemma_op_char_round(op: Op)
    ensures
        op_of_char(op_symbol(op)) == Some(op),
{
}

proof fn lemma_parse_steps_render(steps: Seq<Step>)
    requires
        forall|i: int| 0 <= i < steps.len() ==> wf_step(#[trigger] steps[i]),
    ensures
        parse_steps(render_steps(steps)) == Some(steps),
    decreases steps.len(),
{
    if steps.len() == 0 {
        assert(steps =~= Seq::<Step>::empty());
    } else {
        let s0 = steps[0];
        let rest = steps.drop_first();
        assert(wf_step(s0));
        assert(forall|i: int| 0 <= i < rest.len() ==> wf_step(#[trigger] rest[i]));
        lemma_parse_steps_render(rest);
        let r = render_steps(steps);
        let chunk = render_step(s0);
        let rr = render_steps(rest);
        let dd = dec_digits(s0.operand as nat);
        lemma_dec_digits_all_digits(s0.operand as nat);
        assert(r == chunk + rr);
        assert(chunk =~= seq![' ', op_symbol(s0.operator), ' '] + dd);
        assert(r.len() >= 4);
        assert(r[0] == ' ');
        assert(r[1] == op_symbol(s0.operator));
        lemma_op_char_round(s0.operator);
        assert(r[2] == ' ');
        assert(r[3] == dd[0]);
        assert(is_digit(r[3]));
        let tail = r.skip(3);
        assert(tail =~= dd + rr);
        if rest.len() > 0 {
            lemma_render_steps_starts_space(rest);
        }
        assert(rr.len() == 0 || !is_digit(rr[0]));
        lemma_digit_run_concat(dd, rr);
        assert(digit_run(tail) == dd.len());
        let k = digit_run(tail) as int;
        assert(tail.take(k) =~= dd);
        lemma_num_of_dec_digits(s0.operand as nat);
        assert(num_of(tail.take(k)) == s0.operand);
        assert(tail.skip(k) =~= rr);
        assert(parse_steps(rr) == Some(rest));
        assert(op_of_char(r[1]).unwrap() == s0.operator);
        assert((Step { operator: s0.operator, operand: s0.operand }) == s0);
        assert(seq![s0] + rest =~= steps);
        assert(parse_steps(r) == Some(steps));
    }
}

fn is_digit_x(c: char) -> (r: bool)
    ensures
        r == is_digit(c),
{
    c == '0' || c == '1' || c == '2' || c == '3' || c == '4' || c == '5' || c == '6' || c == '7'
        || c == '8' || c == '9'
}

fn digit_of(c: char) -> (d: u8)
    requires
        is_digit(c),
    ensures
        d as nat == digit_val(c),
{
    if c == '0' {
        0
    } else if c == '1' {
        1
    } else if c == '2' {
        2
    } else if c == '3' {
        3
    } else if c == '4' {
        4
    } else if c == '5' {
        5
    } else if c == '6' {
        6
    } else if c == '7' {
        7
    } else if c == '8' {
        8
    } else {
        9
    }
}

fn op_from_char(c: char) -> (r: Option<Op>)
    ensures
        r == op_of_char(c),
{
    if c == '+' {
        Some(Op::Add)
    } else if c == '-' {
        Some(Op::Sub)
    } else if c == '*' {
        Some(Op::Mul)
    } else if c == '/' {
        Some(Op::Div)
    } else {
        None
    }
}

proof fn lemma_num_scan_lower(acc: int, ds: Seq<char>)
    requires
        acc >= 0,
    ensures
        num_scan(acc, ds) >= acc,
    decreases ds.len(),
{
    if ds.len() > 0 {
        lemma_num_scan_lower(acc * 10 + digit_val(ds[0]), ds.drop_first());
    }
}

proof fn lemma_digit_run_at(s: Seq<char>, from: int, end: int)
    requires
        0 <= from <= end <= s.len(),
        forall|i: int| from <= i < end ==> is_digit(#[trigger] s[i]),
        end < s.len() ==> !is_digit(s[end]),
    ensures
        digit_run(s.skip(from)) == end - from,
    decreases end - from,
{
    if from == end {
        if from < s.len() {
            assert(s.skip(from)[0] == s[from]);
        }
    } else {
        assert(s.skip(from)[0] == s[from]);
        assert(is_digit(s[from]));
        assert(s.skip(from).drop_first() =~= s.skip(from + 1));
        lemma_digit_run_at(s, from + 1, end);
    }
}

/// The first index at or after `from` that does not hold a digit.
fn scan_digits(s: &str, from: usize) -> (end: usize)
    requires
        from <= s@.len(),
    ensures
        from <= end <= s@.len(),
        forall|i: int| from <= i < end ==> is_digit(#[trigger] s@[i]),
        end < s@.len() ==> !is_digit(s@[end as int]),
{
    let len = s.unicode_len();
    let mut end = from;
    while end < len
        invariant
            from <= end <= len,
            len == s@.len(),
            forall|i: int| from <= i < end ==> is_digit(#[trigger] s@[i]),
        decreases len - end,
    {
        let c = s.get_char(end);
        if !is_digit_x(c) {
            return end;
        }
        end += 1;
    }
    end
}

/// The value of the digits at `from..to`, if it fits in `i64`.
fn digits_value(s: &str, from: usize, to: usize) -> (r: Option<i64>)
    requires
        from <= to <= s@.len(),
        forall|i: int| from <= i < to ==> is_digit(#[trigger] s@[i]),
    ensures
        match r {
            Some(v) => v >= 0 && v as int == num_of(s@.subrange(from as int, to as int)),
            None => num_of(s@.subrange(from as int, to as int)) > i64::MAX,
        },
{
    let ghost ds = s@.subrange(from as int, to as int);
    proof {
        assert(ds.skip(0) =~= ds);
    }
    let mut acc: u128 = 0;
    let mut i: usize = from;
    while i < to
        invariant
            from <= i <= to <= s@.len(),
            forall|j: int| from <= j < to ==> is_digit(#[trigger] s@[j]),
            ds == s@.subrange(from as int, to as int),
            acc <= i64::MAX,
            num_of(ds) == num_scan(acc as int, ds.skip(i - from)),
        decreases to - i,
    {
        let c = s.get_char(i);
        proof {
            assert(ds[i - from] == s@[i as int]);
            assert(ds.skip(i - from)[0] == ds[i - from]);
            assert(ds.skip(i - from).drop_first() =~= ds.skip(i - from + 1));
        }
        let d = digit_of(c);
        acc = acc * 10 + (d as u128);
        if acc > i64::MAX as u128 {
            proof {
                lemma_num_scan_lower(acc as int, ds.skip(i - from + 1));
            }
            return None;
        }
        i += 1;
    }
    proof {
        assert(ds.skip(i - from) =~= Seq::<char>::empty());
    }
    Some(acc as i64)
}

/// Parse a puzzle from its rendered text: the seed's numeral, then
/// zero or more `" <sym> <operand>"` groups.  Returns `None` exactly
/// when the text lies outside the grammar (which includes any numeral
/// beyond `i64`).
pub fn parse_puzzle(s: &str) -> (r: Option<Puzzle>)
    ensures
        r is Some <==> parse_spec(s@) is Some,
        r matches Some(p) ==> parse_spec(s@) == Some((p.seed as int, p.steps@)),
{
    let len = s.unicode_len();
    let end0 = scan_digits(s, 0);
    proof {
        assert(s@.skip(0) =~= s@);
        lemma_digit_run_at(s@, 0, end0 as int);
    }
    if end0 == 0 {
        return None;
    }
    assert(is_digit(s@[0]));
    let seed_v = match digits_value(s, 0, end0) {
        Some(v) => v,
        None => {
            proof {
                assert(s@.subrange(0, end0 as int) =~= s@.take(digit_run(s@) as int));
            }
            return None;
        },
    };
    proof {
        assert(s@.subrange(0, end0 as int) =~= s@.take(digit_run(s@) as int));
    }
    let ghost seedv: int = seed_v as int;
    let mut steps: Vec<Step> = Vec::new();
    let mut pos: usize = end0;
    proof {
        if parse_steps(s@.skip(pos as int)) is Some {
            let tail = parse_steps(s@.skip(pos as int)).unwrap();
            assert(steps@ + tail =~= tail);
        }
    }
    while pos < len
        invariant
            pos <= len,
            len == s@.len(),
            seed_v as int == seedv,
            (match parse_steps(s@.skip(pos as int)) {
                Some(tail) => parse_spec(s@) == Some((seedv, steps@ + tail)),
                None => parse_spec(s@) is None,
            }),
        decreases len - pos,
    {
        let ghost suffix = s@.skip(pos as int);
        assert(suffix.len() == len - pos);
        if len - pos < 4 {
            proof {
                assert(parse_steps(suffix) is None);
            }
            return None;
        }
        let c0 = s.get_char(pos);
        proof {
            assert(suffix[0] == s@[pos as int]);
            assert(suffix[1] == s@[pos as int + 1]);
            assert(suffix[2] == s@[pos as int + 2]);
            assert(suffix[3] == s@[pos as int + 3]);
        }
        if c0 != ' ' {
            proof {
                assert(parse_steps(suffix) is None);
            }
            return None;
        }
        let c1 = s.get_char(pos + 1);
        let op = match op_from_char(c1) {
            Some(op) => op,
            None => {
                proof {
                    assert(parse_steps(suffix) is None);
                }
                return None;
            },
        };
        let c2 = s.get_char(pos + 2);
        if c2 != ' ' {
            proof {
                assert(parse_steps(suffix) is None);
            }
            return None;
        }
        let c3 = s.get_char(pos + 3);
        if !is_digit_x(c3) {
            proof {
                assert(parse_steps(suffix) is None);
            }
            return None;
        }
        let end = scan_digits(s, pos + 3);
        assert(end > pos + 3);
        proof {
            lemma_digit_run_at(s@, pos as int + 3, end as int);
            assert(suffix.skip(3) =~= s@.skip(pos as int + 3));
            assert(digit_run(suffix.skip(3)) == end - (pos + 3));
            assert(suffix.skip(3).take(end - (pos + 3)) =~= s@.subrange(
                pos as int + 3,
                end as int,
            ));
            assert(suffix.skip(3).skip(end - (pos + 3)) =~= s@.skip(end as int));
        }
        let v = match digits_value(s, pos + 3, end) {
            Some(v) => v,
            None => {
                proof {
                    assert(parse_steps(suffix) is None);
                }
                return None;
            },
        };
        let step = Step { operator: op, operand: v };
        proof {
            assert(op_of_char(suffix[1]) == Some(op));
            match parse_steps(s@.skip(end as int)) {
                Some(t2) => {
                    assert(parse_steps(suffix) == Some(seq![step] + t2));
                    assert(steps@ + (seq![step] + t2) =~= steps@.push(step) + t2);
                },
                None => {
                    assert(parse_steps(suffix) is None);
                },
            }
        }
        steps.push(step);
        pos = end;
    }
    proof {
        assert(s@.skip(pos as int) =~= Seq::<char>::empty());
        assert(parse_steps(s@.skip(pos as int)) == Some(Seq::<Step>::empty()));
        assert(steps@ + Seq::<Step>::empty() =~= steps@);
    }
    Some(Puzzle { seed: seed_v, steps })
}

/// Law: rendering is lossless for the grammar — the text of a
/// well-formed puzzle parses back to exactly its seed and steps.
pub proof fn lemma_render_parse_round_trip(p: Puzzle)
    requires
        p.wf(),
    ensures
        parse_spec(render_spec(p.seed as int, p.steps@)) == Some((p.seed as int, p.steps@)),
{
    let r = render_spec(p.seed as int, p.steps@);
    let dd = dec_digits(p.seed as nat);
    let rs = render_steps(p.steps@);
    lemma_dec_digits_all_digits(p.seed as nat);
    assert(r == dd + rs);
    assert(r[0] == dd[0]);
    assert(is_digit(r[0]));
    if p.steps@.len() > 0 {
        lemma_render_steps_starts_space(p.steps@);
    }
    assert(rs.len() == 0 || !is_digit(rs[0]));
    lemma_digit_run_concat(dd, rs);
    assert(digit_run(r) == dd.len());
    let k = digit_run(r) as int;
    assert(r.take(k) =~= dd);
    lemma_num_of_dec_digits(p.seed as nat);
    assert(num_of(r.take(k)) == p.seed);
    assert(r.skip(k) =~= rs);
    lemma_parse_steps_render(p.steps@);
    assert(parse_steps(rs) == Some(p.steps@));
    assert(parse_spec(r) == Some((p.seed as int, p.steps@)));
}

} // verus!
