use decazzle::check_answer;
use decazzle::parse_puzzle;
use decazzle::random_op;
use decazzle::solve_puzzle;
use decazzle::Op;
use decazzle::Puzzle;
use decazzle::Step;
use decazzle::STEPS_PER_PUZZLE;

#[test]
fn it_solves_puzzles() {
    let puzzle = Puzzle::default();
    let solved_puzzle = 10 + STEPS_PER_PUZZLE as i64;

    assert_eq!(solve_puzzle(&puzzle), solved_puzzle);
}

#[test]
fn it_prints_puzzles() {
    let puzzle = Puzzle::default();
    let steps = " + 1".repeat(STEPS_PER_PUZZLE);
    let puzzle_output = format!("10{}", steps);

    assert_eq!(puzzle.render(), puzzle_output);
}

#[test]
fn it_generates_puzzles() {
    let seed: i64 = 10;
    let step = Step {
        operator: Op::Add,
        operand: 1,
    };
    let steps: Vec<Step> = vec![step; STEPS_PER_PUZZLE];

    let puzzle = Puzzle { seed, steps };
    assert_eq!(Puzzle::default(), puzzle);
}

#[test]
fn it_generates_random_operations() {
    let random: Op = random_op();
    assert!([Op::Add, Op::Sub, Op::Mul, Op::Div].contains(&random));
}

#[test]
fn ten_add_one_steps_solve_to_twenty() {
    let step = Step {
        operator: Op::Add,
        operand: 1,
    };
    let puzzle = Puzzle {
        seed: 10,
        steps: vec![step; 10],
    };
    assert_eq!(solve_puzzle(&puzzle), 20);
    assert_eq!(
        puzzle.render(),
        "10 + 1 + 1 + 1 + 1 + 1 + 1 + 1 + 1 + 1 + 1"
    );
}

#[test]
fn every_operator_renders_as_its_symbol() {
    let puzzle = Puzzle {
        seed: 5,
        steps: vec![
            Step {
                operator: Op::Add,
                operand: 2,
            },
            Step {
                operator: Op::Sub,
                operand: 3,
            },
            Step {
                operator: Op::Mul,
                operand: 4,
            },
            Step {
                operator: Op::Div,
                operand: 5,
            },
        ],
    };
    assert_eq!(puzzle.render(), "5 + 2 - 3 * 4 / 5");
    assert_eq!(solve_puzzle(&puzzle), 3);
}

#[test]
fn division_truncates_toward_zero() {
    let puzzle = Puzzle {
        seed: 7,
        steps: vec![
            Step {
                operator: Op::Sub,
                operand: 10,
            },
            Step {
                operator: Op::Div,
                operand: 2,
            },
        ],
    };
    assert_eq!(solve_puzzle(&puzzle), -1);
}

#[test]
fn generated_puzzles_are_well_formed() {
    let puzzle = Puzzle::new();
    assert!(puzzle.is_wf());
    assert_eq!(puzzle.steps.len(), STEPS_PER_PUZZLE);
    assert!(1 <= puzzle.seed && puzzle.seed < 100);
}

#[test]
fn generated_operands_use_the_operator_range() {
    let puzzle = Puzzle::new();
    for step in &puzzle.steps {
        match step.operator {
            Op::Add | Op::Sub => assert!(1 <= step.operand && step.operand < 100),
            Op::Mul | Op::Div => assert!(1 <= step.operand && step.operand < 10),
        }
    }
}

#[test]
fn rendering_then_parsing_reconstructs_the_puzzle() {
    let fixed = Puzzle {
        seed: 99,
        steps: vec![
            Step {
                operator: Op::Mul,
                operand: 9,
            },
            Step {
                operator: Op::Div,
                operand: 3,
            },
        ],
    };
    let reparsed = parse_puzzle(&fixed.render()).unwrap();
    assert_eq!(reparsed, fixed);

    let random = Puzzle::new();
    let reparsed_random = parse_puzzle(&random.render()).unwrap();
    assert_eq!(reparsed_random, random);
}

#[test]
fn parsing_rejects_text_outside_the_grammar() {
    assert!(parse_puzzle("").is_none());
    assert!(parse_puzzle("abc").is_none());
    assert!(parse_puzzle("10 +").is_none());
    assert!(parse_puzzle("10 % 3").is_none());
    assert!(parse_puzzle("10 + x").is_none());
    assert!(parse_puzzle(" 10 + 1").is_none());
    assert!(parse_puzzle("99999999999999999999").is_none());
}

#[test]
fn parsing_a_bare_seed_yields_a_puzzle_with_no_steps() {
    let puzzle = parse_puzzle("12").unwrap();
    assert_eq!(puzzle.seed, 12);
    assert!(puzzle.steps.is_empty());
}

#[test]
fn the_exact_answer_is_correct() {
    let puzzle = Puzzle::default();
    let solution = solve_puzzle(&puzzle);
    assert_eq!(check_answer(solution, solution), "correct");
}

#[test]
fn a_wrong_answer_reports_the_solution() {
    let puzzle = Puzzle::default();
    let solution = solve_puzzle(&puzzle);
    assert_eq!(
        check_answer(solution + 1, solution),
        format!("Incorrect.\nThe correct answer is: {}", solution)
    );
}

#[test]
fn a_negative_solution_is_reported_with_its_sign() {
    assert_eq!(
        check_answer(0, -49),
        "Incorrect.\nThe correct answer is: -49"
    );
}
