use advent2024::{day03_part1, day03_part2};

const CASES: [(&str, i32); 7] = [
    ("mul(44,46)", 2024),
    ("mul(123,4)", 492),
    ("mul(4*", 0),
    ("mul(6,9!", 0),
    ("?(12,34)", 0),
    ("mul ( 2 , 4 )", 0),
    ("xmul(2,4)%&mul[3,7]!@^do_not_mul(5,5)+mul(32,64]then(mul(11,8)mul(8,5))", 161),
];

#[test]
fn day03_part1_test_process() {
    for (expr, result) in CASES {
        assert_eq!(result.to_string(), day03_part1::process(expr));
    }
}

#[test]
fn day03_part2_test_process() {
    for (expr, result) in CASES {
        assert_eq!(result.to_string(), day03_part2::process(expr));
    }
}

#[test]
fn four_digit_factors_are_no_mul() {
    assert_eq!("0", day03_part1::process("mul(1234,5)"));
    assert_eq!("4995", day03_part1::process("mul(999,5)"));
    assert_eq!("0", day03_part1::process("mul(,5)"));
    assert_eq!("0", day03_part1::process(""));
}

#[test]
fn dont_turns_products_off() {
    let text = "xmul(2,4)&mul[3,7]!^don't()_mul(5,5)+mul(32,64](mul(11,8)undo()?mul(8,5))";
    assert_eq!("48", day03_part2::process(text));
    assert_eq!("161", day03_part1::process(text));
}
