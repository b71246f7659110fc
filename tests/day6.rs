use aoc25::day6::{self, Op, Problem};
use aoc25::error::InputError;

const INPUT_A: &str = "123 328  51 64 ";
const INPUT_B: &str = " 45 64  387 23 ";
const INPUT_C: &str = "  6 98  215 314";
const INPUT_D: &str = "*   +   *   +  ";

// Spaces are actually important to the problem.
fn input() -> String {
    [INPUT_A, INPUT_B, INPUT_C, INPUT_D].join("\n")
}

#[test]
fn day6() {
    assert_eq!(day6::part_one(&input()), Ok(4277556));
    assert_eq!(day6::part_two(&input()), Ok(3263827));
}

#[test]
fn day6_columns_read_down() {
    // one digit per row: part two reads each column top to bottom as one number
    let text = "1 2\n3 4\n* +";
    assert_eq!(day6::part_one(text), Ok(9));
    assert_eq!(day6::part_two(text), Ok(13 * 1 + 24));
    let text = "1 2\n* +";
    assert_eq!(day6::part_one(text), day6::part_two(text));
}

#[test]
fn day6_solve_problems() {
    let ps = vec![
        Problem { numbers: vec![2, 3, 4], op: Op::Mul },
        Problem { numbers: vec![2, 3, 4], op: Op::Add },
        Problem { numbers: vec![], op: Op::Mul },
    ];
    assert_eq!(day6::solve_problems(&ps), Ok(24 + 9 + 1));
    let big = vec![Problem { numbers: vec![u64::MAX, 2], op: Op::Mul }];
    assert_eq!(day6::solve_problems(&big), Err(InputError::Overflow));
}

#[test]
fn day6_errors() {
    assert_eq!(day6::part_one("1 2\n3\n* +"), Err(InputError::Malformed { line: 1 }));
    assert_eq!(day6::part_one("1 2\n3 4\n* -"), Err(InputError::Malformed { line: 2 }));
    assert_eq!(day6::part_one("1 2\n3 4\n*"), Err(InputError::Malformed { line: 2 }));
    assert_eq!(day6::part_one("1 2"), Err(InputError::Missing));
    assert_eq!(day6::part_one("1 2\n+ * +"), Err(InputError::Malformed { line: 1 }));
    assert_eq!(day6::part_two("1 2\n+ * +"), Err(InputError::Malformed { line: 1 }));
    assert_eq!(day6::part_two("1 2\n+"), Err(InputError::BadColumn { column: 0 }));
    assert_eq!(day6::part_two("1 x\n3 4\n* +"), Err(InputError::BadColumn { column: 1 }));
}

#[test]
fn day6_single_column_starts_at_zero() {
    assert_eq!(day6::part_two("12\n34\n+"), Ok(13 + 24));
    assert_eq!(day6::part_one("12\n34\n+"), Ok(46));
}

#[test]
fn day6_words_split_on_any_whitespace() {
    assert_eq!(day6::part_one("1\t2\n3  4\n*\t+"), Ok(3 + 6));
    assert_eq!(day6::part_one("1 2\r\n3 4\r\n* +\r\n"), Ok(3 + 6));
}
