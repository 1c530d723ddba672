use aoc25::batteries::{calc_total_jolt, parse_battery_line, BatteryLine, Mode};
use aoc25::error::AocError;

fn test_batteries() -> Vec<BatteryLine> {
    vec![
        "987654321111111",
        "811111111111119",
        "234234234234278",
        "818181911112111",
    ]
    .into_iter()
    .map(|line| parse_battery_line(line).expect("Failed to parse battery line"))
    .collect()
}

#[test]
fn day03_test_example() {
    let line = BatteryLine {
        line: "123456".to_string(),
    };
    let jolt = line.largest_number(2).expect("largest number");
    assert_eq!(jolt, 56);
}

#[test]
fn test_test_input() {
    let batteries = test_batteries();
    let total_jolt = calc_total_jolt(&batteries, Mode::Two);
    assert_eq!(total_jolt, 357);
}

#[test]
fn test_example_12() {
    let batteries = test_batteries();
    let total_jolt = calc_total_jolt(&batteries, Mode::Twelve);
    assert_eq!(total_jolt, 3121910778619);
}

#[test]
fn test_largest_number_prefers_early_high_digits() {
    let line = BatteryLine {
        line: "818181911112111".to_string(),
    };
    assert_eq!(line.largest_number(2).expect("largest number"), 92);
    let line = BatteryLine {
        line: "234234234234278".to_string(),
    };
    assert_eq!(line.largest_number(2).expect("largest number"), 78);
}

#[test]
fn test_largest_number_rejects_non_digits() {
    let line = BatteryLine {
        line: "1z".to_string(),
    };
    match line.largest_number(2) {
        Err(AocError::ParseError(_)) => {}
        other => panic!("expected a parse error, got {:?}", other),
    }
}

#[test]
fn test_batteries_mode_from_str() {
    assert_eq!(Mode::from("two"), Mode::Two);
    assert_eq!(Mode::from("twelve"), Mode::Twelve);
    assert_eq!(Mode::from("eleven"), Mode::Two);
}

#[test]
fn test_parse_battery_line_keeps_text() {
    let battery = parse_battery_line("4455").expect("parse");
    assert_eq!(battery.line, "4455");
}
