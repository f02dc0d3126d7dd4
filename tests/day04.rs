use advent2024::day04_part1::read_grid;
use advent2024::{day04_part1, day04_part2};

const EXAMPLE: &str = r#"MMMSXXMASM
MSAMXMSMSA
AMXSXMAAMM
MSAMASMSMX
XMASAMXAMM
XXAMMXXAMA
SMSMSASXSS
SAXAMASAAA
MAMMMXMMMM
MXMXAXMASX"#;

#[test]
fn day04_part1_test_process() {
    assert_eq!("18", day04_part1::process(EXAMPLE).unwrap());
}

#[test]
fn day04_part2_test_process() {
    assert_eq!("9", day04_part2::process(EXAMPLE).unwrap());
}

#[test]
fn xmas_in_every_direction() {
    assert_eq!("2", day04_part1::process("XMASAMX").unwrap());
    assert_eq!("1", day04_part1::process("X\nM\nA\nS").unwrap());
    assert_eq!("1", day04_part1::process("S...\n.A..\n..M.\n...X").unwrap());
    assert_eq!("0", day04_part1::process("").unwrap());
}

#[test]
fn crossing_needs_both_diagonals() {
    assert_eq!("1", day04_part2::process("M.S\n.A.\nM.S").unwrap());
    assert_eq!("0", day04_part2::process("M.M\n.A.\nM.S").unwrap());
    assert_eq!("1", day04_part2::process("S.S\n.A.\nM.M").unwrap());
}

#[test]
fn part2_reads_within_each_row() {
    let g = read_grid("X\nMA");
    assert_eq!(day04_part2::index(&g, 1, 1), Some('A'));
    assert_eq!(day04_part2::index(&g, 0, 1), None);
    let h = read_grid("M\nSA");
    assert!(day04_part2::check_match(&h, [(0, 0), (1, 1), (1, 0)]));
    let k = read_grid(".\nM.S\n.A.\nM.S");
    assert!(day04_part2::adj_search(&k, 2, 1));
    assert_eq!("1", day04_part2::process(".\nM.S\n.A.\nM.S").unwrap());
}
