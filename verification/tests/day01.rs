use aoc25::dial::{Instruction, Mode, Operation, State};
use aoc25::dial::{parse, parse_count, parse_instruction, parse_op};
use aoc25::error::AocError;

fn test_instruction_lines() -> Vec<&'static str> {
    vec!["L68", "L30", "R48", "L5", "R60", "L55", "L1", "L99", "R14", "L82"]
}

fn test_instructions() -> Vec<Instruction> {
    test_instruction_lines()
        .into_iter()
        .map(|line| parse(line).expect("Failed to parse test instruction"))
        .collect()
}

#[test]
fn day01_test_parse_op() {
    let (o, _remainder) = parse_op("L").expect("parser");
    assert_eq!(o, Operation::Left);
}

#[test]
fn day01_test_parse_count() {
    let (count, _remainder) = parse_count("123").expect("parser");
    assert_eq!(count, 123);
}

#[test]
fn day01_test_parse_instruction() {
    let (ell, consumed) = parse_instruction("L8").expect("parser");
    assert_eq!(consumed, "L8".len());
    assert_eq!(ell, (Operation::Left, 8));
}

#[test]
fn day01_test_parse_instructions() {
    let instructions = test_instructions();
    assert_eq!(instructions.len(), 10);
}

#[test]
fn day01_test_apply_instruction() {
    let mut state = State::new();
    state.apply(
        Instruction {
            operation: Operation::Left,
            argument: 68,
        },
        Mode::CountZerosAfterRotation,
        false,
    );
    assert_eq!(state, State { num: 82 });
}

#[test]
fn day01_test_apply_test_data() {
    let mut state = State::new();
    let instructions = test_instructions();
    let zero_count = state.apply_multiple(instructions, Mode::CountZerosAfterRotation, false);
    assert_eq!(zero_count, 3);
}

#[test]
fn test_apply_instruction_count_during() {
    let mut state = State::new();
    let zero_count = state.apply(
        Instruction {
            operation: Operation::Left,
            argument: 68,
        },
        Mode::CountZerosAfterRotation,
        false,
    );
    assert_eq!(zero_count, 1);
}

#[test]
fn test_apply_test_data_count_during() {
    let mut state = State::new();
    let instructions = test_instructions();
    let zero_count = state.apply_multiple(instructions, Mode::CountZerosDuringRotation, false);
    assert_eq!(zero_count, 6);
}

#[test]
fn test_big_rotation() {
    let mut state = State::new();
    let zero_count = state.apply(
        Instruction {
            operation: Operation::Right,
            argument: 1000,
        },
        Mode::CountZerosAfterRotation,
        false,
    );
    assert_eq!(state.num, 50);
    assert_eq!(zero_count, 10);
}

#[test]
fn test_fiddly_bits() {
    let cases = vec![
        (Operation::Left, 5, 5, 0, 0),
        (Operation::Right, 5, 95, 0, 0),
        (Operation::Left, 5, 0, 95, 0),
        (Operation::Right, 5, 95, 0, 0),
        (Operation::Right, 5, 0, 5, 0),
        (Operation::Left, 100, 5, 5, 1),
        (Operation::Right, 100, 5, 5, 1),
    ];
    let mut state = State::new();
    let mode = Mode::CountZerosAfterRotation;
    for (op, arg, num, expected_num, expected_zeros) in cases {
        state.num = num;
        let zero_count = state.apply(
            Instruction {
                operation: op,
                argument: arg,
            },
            mode,
            false,
        );
        assert_eq!(state.num, expected_num);
        assert_eq!(zero_count, expected_zeros);
    }
}

#[test]
fn test_dial_mode_from_str() {
    assert_eq!(Mode::from("after"), Mode::CountZerosAfterRotation);
    assert_eq!(Mode::from("during"), Mode::CountZerosDuringRotation);
    assert_eq!(Mode::from("sideways"), Mode::CountZerosAfterRotation);
}

#[test]
fn test_operation_from_str_rejects_unknown() {
    assert_eq!(Operation::from_str("L"), Some(Operation::Left));
    assert_eq!(Operation::from_str("R"), Some(Operation::Right));
    assert_eq!(Operation::from_str("X"), None);
    assert_eq!(Operation::from_str("LL"), None);
}

#[test]
fn test_parse_rejects_bad_line() {
    let line = "Q17";
    match parse(line) {
        Err(AocError::NomError(m)) => assert_eq!(m, line),
        other => panic!("expected a grammar error, got {:?}", other),
    }
}

#[test]
fn test_parse_count_overflow_is_rejected() {
    assert!(parse_count("99999999999999999999").is_none());
    assert!(parse_count("4294967295").is_some());
    assert!(parse_count("4294967296").is_none());
}
