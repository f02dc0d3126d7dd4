use advent2024::day02_part1;
use advent2024::day02_part2::{self, levels_ok, levels_ok_with_dampening, ReportError};

#[test]
fn test_process() {
    let input = r#"
      7 6 4 2 1
      1 2 7 8 9
      9 7 6 2 1
      1 3 2 4 5
      8 6 4 4 1
      1 3 6 7 9
    "#;
    assert_eq!("2", day02_part1::process(input).unwrap());
}

#[test]
fn day02_part2_test_process() {
    let input = r#"
      7 6 4 2 1
      1 2 7 8 9
      9 7 6 2 1
      1 3 2 4 5
      8 6 4 4 1
      1 3 6 7 9
      89 91 94 96 97 99 98 98
    "#;
    assert_eq!("4", day02_part2::process(input).unwrap());
}

#[test]
fn test_simple() {
    let cases: [(&[i32], bool); 7] = [
        (&[7, 6, 4, 2, 1], true),
        (&[1, 2, 7, 8, 9], false),
        (&[9, 7, 6, 2, 1], false),
        (&[1, 3, 2, 4, 5], true),
        (&[8, 6, 4, 4, 1], true),
        (&[1, 3, 6, 7, 9], true),
        (&[89, 91, 94, 96, 97, 99, 98, 98], false),
    ];
    for (levels, expected) in cases {
        assert_eq!(levels_ok_with_dampening(levels), expected);
    }
}

#[test]
fn short_reports_are_safe() {
    assert!(levels_ok(&[]));
    assert!(levels_ok(&[4]));
    assert!(!levels_ok(&[4, 4]));
    assert!(!levels_ok(&[1, 5]));
    assert!(levels_ok(&[i32::MAX - 2, i32::MAX]));
    assert!(!levels_ok(&[i32::MIN, i32::MAX]));
}

#[test]
fn bad_level_is_refused() {
    assert_eq!(day02_part1::process("1 2 x\n").unwrap_err(), ReportError::BadNumber);
    assert_eq!(day02_part2::process("1 2\n3 99999999999\n").unwrap_err(), ReportError::BadNumber);
}
