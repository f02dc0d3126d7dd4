use advent2024::day05_part1::{correctly_ordered, parse_input, process, PageOrderingRule, ParseError};

const INPUT: &str = "47|53
97|13
97|61
97|47
75|29
61|13
75|53
29|13
97|29
53|29
61|53
97|53
61|29
47|13
75|47
97|75
47|61
75|61
47|29
75|13
53|13

75,47,61,53,29
97,61,53,29,13
75,29,13
75,97,47,61,53
61,13,29
97,13,75,29,47";

#[test]
fn day05_part1_test_process() {
    assert_eq!("143", process(INPUT).unwrap());
}

#[test]
fn test_parse_ordering_rule() {
    let (rules, _) = parse_input(INPUT).unwrap();
    assert_eq!(rules.len(), 21);
    assert_eq!(rules[0], PageOrderingRule { a: 47, b: 53 });
    assert_eq!(rules[1], PageOrderingRule { a: 97, b: 13 });
    assert_eq!(rules[20], PageOrderingRule { a: 53, b: 13 });
}

#[test]
fn test_parse_page_list() {
    let (_, lists) = parse_input(INPUT).unwrap();
    assert_eq!(lists.len(), 6);
    assert_eq!(lists[0], vec![75, 47, 61, 53, 29]);
    assert_eq!(lists[2], vec![75, 29, 13]);
    assert_eq!(lists[5], vec![97, 13, 75, 29, 47]);
}

#[test]
fn test_rule_application() {
    let (rules, _) = parse_input(INPUT).unwrap();
    let cases: [(&[u32], bool); 6] = [
        (&[75, 47, 61, 53, 29], true),
        (&[97, 61, 53, 29, 13], true),
        (&[75, 29, 13], true),
        (&[75, 97, 47, 61, 53], false),
        (&[61, 13, 29], false),
        (&[97, 13, 75, 29, 47], false),
    ];
    for (pages, expected) in cases {
        assert_eq!(expected, correctly_ordered(&rules, pages));
    }
}

#[test]
fn malformed_input_is_refused() {
    assert_eq!(process("47|53\n75,47").unwrap_err(), ParseError::Malformed);
    assert_eq!(process("").unwrap_err(), ParseError::Malformed);
    assert_eq!(process("47|x\n\n1,2").unwrap_err(), ParseError::Malformed);
    assert_eq!(process("1|2\n\n99999999999").unwrap_err(), ParseError::Malformed);
}

#[test]
fn trailing_text_is_ignored() {
    assert_eq!("2", process("1|2\n\n1,2,3\n").unwrap());
    assert_eq!("0", process("3|1\n\n1,2,3\nfoo").unwrap());
}
