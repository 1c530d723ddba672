use aoc25::ids::{
    calc_count_sum, count_sum_invalid_ids_in_range, id_is_valid, invalid_ids_in_range,
    parse_id_range, parse_id_range_sequence, IdRange, Mode,
};

fn test_input() -> &'static str {
    "11-22,95-115,998-1012,1188511880-1188511890,222220-222224,1698522-1698528,\
     446443-446449,38593856-38593862,565653-565659,824824821-824824827,\
     2121212118-2121212124"
}

fn parse_test_input() -> Vec<IdRange> {
    let (ranges, _consumed) =
        parse_id_range_sequence(test_input()).expect("Failed to parse test input");
    ranges
}

#[test]
fn day02_test_example() {
    assert_eq!(2 + 2, 4);
}

#[test]
fn test_parse_id_range() {
    let input = "123-456";
    let (range, _remainder) = parse_id_range(input).expect("parser");
    assert_eq!(range.start, 123);
    assert_eq!(range.end, 456);
}

#[test]
fn test_parse_id_range_sequence() {
    let input = "11-22,95-115,998-1012";
    let (ranges, _remainder) = parse_id_range_sequence(input).expect("parser");
    assert_eq!(ranges.len(), 3);
    assert_eq!(ranges[0], IdRange { start: 11, end: 22 });
    assert_eq!(ranges[1], IdRange { start: 95, end: 115 });
    assert_eq!(ranges[2], IdRange { start: 998, end: 1012 });
}

#[test]
fn test_parse_test_input() {
    let ranges = parse_test_input();
    assert_eq!(ranges.len(), 11);
}

#[test]
fn test_id_is_valid() {
    let fixtures = vec![(55, false), (6464, false), (123123, false), (101, true)];
    for (id, expected) in fixtures {
        let result = id_is_valid(id, Mode::Two);
        assert_eq!(
            result, expected,
            "id_is_valid({}) returned {}, expected {}",
            id, result, expected
        );
    }
}

#[test]
fn test_id_is_valid_multiple_mode() {
    let fixtures = vec![
        (55, false),
        (6464, false),
        (123123, false),
        (123123123, false),
        (1212121212, false),
        (1111111, false),
        (101, true),
    ];
    for (id, expected) in fixtures {
        let result = id_is_valid(id, Mode::Multiple);
        assert_eq!(
            result, expected,
            "id_is_valid({}) returned {}, expected {}",
            id, result, expected
        );
    }
}

#[test]
fn test_count_sum_invalid_ids_in_range() {
    let range = IdRange { start: 11, end: 22 };
    let (count, sum) = count_sum_invalid_ids_in_range(&range, Mode::Two);
    assert_eq!(count, 2);
    assert_eq!(sum, 11 + 22);

    let range = IdRange { start: 95, end: 115 };
    let (count, sum) = count_sum_invalid_ids_in_range(&range, Mode::Two);
    assert_eq!(count, 1);
    assert_eq!(sum, 99);
}

#[test]
fn test_count_sum_invalid_ids_in_test_input() {
    let ranges = parse_test_input();
    let expected = (8, 1227775554);
    let (total_count, total_sum) = calc_count_sum(&ranges[..], Mode::Two);
    assert_eq!((total_count, total_sum), expected);
}

#[test]
fn test_coun_sum_invalid_ids_multiple_mode_in_test_input() {
    let ranges = parse_test_input();
    let expected = (13, 4174379265);
    let (total_count, total_sum) = calc_count_sum(&ranges[..], Mode::Multiple);
    assert_eq!((total_count, total_sum), expected);
}

#[test]
fn test_boundary_ids() {
    assert!(id_is_valid(0, Mode::Two));
    assert!(id_is_valid(0, Mode::Multiple));
    assert!(!id_is_valid(11, Mode::Two));
    assert!(id_is_valid(101, Mode::Two));
}

#[test]
fn test_prime_digit_counts_are_valid_in_two_mode() {
    // Digit counts 3, 5 and 7 are prime, so the two-halves check never
    // applies, whatever the digits are.
    for id in [111, 999, 11111, 12121, 1111111] {
        assert!(id_is_valid(id, Mode::Two), "{} should be valid", id);
    }
    // Digit count 2 is the prime exception.
    assert!(!id_is_valid(44, Mode::Two));
}

#[test]
fn test_two_mode_invalid_implies_multiple_mode_invalid() {
    for id in 0..30000u64 {
        if !id_is_valid(id, Mode::Two) {
            assert!(!id_is_valid(id, Mode::Multiple), "{} disagrees", id);
        }
    }
}

#[test]
fn test_single_element_ranges() {
    let range = IdRange { start: 55, end: 55 };
    assert_eq!(count_sum_invalid_ids_in_range(&range, Mode::Two), (1, 55));
    let range = IdRange { start: 101, end: 101 };
    assert_eq!(count_sum_invalid_ids_in_range(&range, Mode::Two), (0, 0));
}

#[test]
fn test_invalid_ids_in_range_lists_them() {
    let range = IdRange { start: 11, end: 22 };
    assert_eq!(invalid_ids_in_range(&range, Mode::Two), vec![11, 22]);
    let range = IdRange { start: 95, end: 115 };
    assert_eq!(invalid_ids_in_range(&range, Mode::Two), vec![99]);
}

#[test]
fn test_reversed_range_is_empty() {
    let range = IdRange { start: 22, end: 11 };
    assert_eq!(count_sum_invalid_ids_in_range(&range, Mode::Two), (0, 0));
    assert_eq!(invalid_ids_in_range(&range, Mode::Two), Vec::<u64>::new());
}

#[test]
fn test_aggregation_merges_by_addition() {
    let first = IdRange { start: 11, end: 22 };
    let second = IdRange { start: 95, end: 115 };
    let (c1, s1) = count_sum_invalid_ids_in_range(&first, Mode::Two);
    let (c2, s2) = count_sum_invalid_ids_in_range(&second, Mode::Two);
    let (total_count, total_sum) = calc_count_sum(&[first, second], Mode::Two);
    assert_eq!((total_count, total_sum), (c1 + c2, s1 + s2));
}

#[test]
fn test_range_can_be_split_anywhere() {
    let whole = IdRange { start: 11, end: 22 };
    let left = IdRange { start: 11, end: 16 };
    let right = IdRange { start: 17, end: 22 };
    let (cw, sw) = count_sum_invalid_ids_in_range(&whole, Mode::Two);
    let (cl, sl) = count_sum_invalid_ids_in_range(&left, Mode::Two);
    let (cr, sr) = count_sum_invalid_ids_in_range(&right, Mode::Two);
    assert_eq!((cw, sw), (cl + cr, sl + sr));
}

#[test]
fn test_ids_mode_from_str() {
    assert_eq!(Mode::from("two"), Mode::Two);
    assert_eq!(Mode::from("multiple"), Mode::Multiple);
    assert_eq!(Mode::from("anything else"), Mode::Two);
}

#[test]
fn test_parse_id_range_rejects_bad_text() {
    assert!(parse_id_range("").is_none());
    assert!(parse_id_range("123").is_none());
    assert!(parse_id_range("123-").is_none());
    assert!(parse_id_range("-456").is_none());
    assert!(parse_id_range("99999999999999999999-1").is_none());
    assert!(parse_id_range_sequence("x").is_none());
}

#[test]
fn test_parse_id_range_sequence_stops_at_bad_tail() {
    // The list keeps what parses and stops before the broken tail,
    // reporting how much it consumed.
    let (ranges, consumed) = parse_id_range_sequence("1-2,3-x").expect("parser");
    assert_eq!(ranges, vec![IdRange { start: 1, end: 2 }]);
    assert_eq!(consumed, 3);
}

#[test]
fn test_parse_id_range_sequence_allows_space_after_comma() {
    let (ranges, _consumed) = parse_id_range_sequence("1-2, \t 3-4").expect("parser");
    assert_eq!(
        ranges,
        vec![
            IdRange { start: 1, end: 2 },
            IdRange { start: 3, end: 4 }
        ]
    );
}
