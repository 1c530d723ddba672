use aoc25::dial_basic::{parse, AocError, Instruction, Operation, State};

fn basic_test_instructions() -> Vec<Instruction> {
    vec!["L68", "L30", "R48", "L5", "R60", "L55", "L1", "L99", "R14", "L82"]
        .into_iter()
        .map(|line| parse(line).expect("Error parsing test input"))
        .collect()
}

#[test]
fn main_test_apply_instruction() {
    let mut state = State { num: 50 };
    state.apply(Instruction {
        operation: Operation::Left,
        argument: 68,
    });
    assert_eq!(state, State { num: 82 });
}

#[test]
fn main_test_parse_instructions() {
    let instructions = basic_test_instructions();
    assert_eq!(instructions.len(), 10);
}

#[test]
fn main_test_apply_test_data() {
    let mut state = State { num: 50 };
    let instructions = basic_test_instructions();
    let zero_count = state.apply_multiple(instructions);
    assert_eq!(zero_count, 3);
}

#[test]
fn test_basic_operation_from_str() {
    assert_eq!(Operation::from_str("L"), Some(Operation::Left));
    assert_eq!(Operation::from_str("R"), Some(Operation::Right));
    assert_eq!(Operation::from_str("B"), None);
}

#[test]
fn test_basic_parse_rejects_bad_line() {
    match parse("7L") {
        Err(AocError::NomError(m)) => assert_eq!(m, "7L"),
        other => panic!("expected a grammar error, got {:?}", other),
    }
}

#[test]
fn test_basic_big_left_rotation() {
    let mut state = State { num: 50 };
    state.apply(Instruction {
        operation: Operation::Left,
        argument: 1234,
    });
    assert_eq!(state, State { num: 16 });
}
