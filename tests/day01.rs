use advent2024::day01_part1::{self, sort, PairError};
use advent2024::day01_part2::{self, ScoreError};

#[test]
fn part1_test_process() {
    let input = r#"
      3   4
      4   3
      2   5
      1   3
      3   9
      3   3
    "#;
    assert_eq!("11", day01_part1::process(input).unwrap());
}

#[test]
fn part2_test_process() {
    let input = r#"
      3   4
      4   3
      2   5
      1   3
      3   9
      3   3
    "#;
    assert_eq!("31", day01_part2::process(input).unwrap());
}

#[test]
fn distance_of_extreme_values() {
    let input = "-9223372036854775808 9223372036854775807\n";
    assert_eq!("18446744073709551615", day01_part1::process(input).unwrap());
}

#[test]
fn lines_with_one_word_are_skipped() {
    assert_eq!("3", day01_part1::process("5\n1 4\n7\n").unwrap());
    assert_eq!("0", day01_part1::process("").unwrap());
}

#[test]
fn bad_numbers_are_refused() {
    assert_eq!(day01_part1::process("1 x\n").unwrap_err(), PairError::BadNumber);
    assert_eq!(day01_part2::process("y 2\n").unwrap_err(), ScoreError::BadNumber);
}

#[test]
fn negative_similarity() {
    assert_eq!("-6", day01_part2::process("-3 -3\n1 -3\n").unwrap());
}

#[test]
fn similarity_beyond_i64() {
    let mut input = String::new();
    for _ in 0..3 {
        input.push_str("9223372036854775807 9223372036854775807\n");
    }
    assert_eq!(9223372036854775807i128 * 9, 83010348331692982263);
    assert_eq!("83010348331692982263", day01_part2::process(&input).unwrap());
}

#[test]
fn sort_orders_numbers() {
    let mut v = vec![5, -1, 3, 3, 0];
    sort(&mut v);
    assert_eq!(v, vec![-1, 0, 3, 3, 5]);
}
