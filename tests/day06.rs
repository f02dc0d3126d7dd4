use advent2024::day06::{load_map, search, Cell, Direction, ExitReason, LoadError};
use advent2024::day06_part2::{self as obstruction, count_loop_placements, count_loop_placements_exhaustive};
use advent2024::{day06_part1, day06_part2};

const EXAMPLE: &str = "....#.....
.........#
..........
..#.......
.......#..
..........
.#..^.....
........#.
#.........
......#...";

#[test]
fn part1_test_load_map() {
    let scene = load_map(EXAMPLE).unwrap();
    assert_eq!(scene.width, 10);
    assert_eq!(scene.height, 10);
    assert_eq!(scene.cells.len(), 100);
    assert_eq!((scene.guard.x, scene.guard.y), (4, 6));
    assert_eq!(scene.guard.direction, Direction::North);
}

#[test]
fn part2_test_load_map() {
    let scene = load_map(EXAMPLE).unwrap();
    assert!(scene.at(4, 0).contains(16));
    assert!(scene.at(9, 1).contains(16));
    assert!(!scene.at(0, 0).contains(16));
    assert!(scene.at(4, 6).contains(1));
}

#[test]
fn day06_part1_test_process() {
    assert_eq!("41", day06_part1::process(EXAMPLE).unwrap());
}

#[test]
fn day06_part2_test_process() {
    assert_eq!("6", day06_part2::process(EXAMPLE).unwrap());
}

#[test]
fn example_walk_leaves_the_grid() {
    let mut scene = load_map(EXAMPLE).unwrap();
    assert_eq!(search(&mut scene), ExitReason::LeftScene);
    assert_eq!(scene.visited_cells(), 41);
}

#[test]
fn restricted_search_matches_exhaustive_search() {
    let scene = load_map(EXAMPLE).unwrap();
    assert_eq!(count_loop_placements(&scene), 6);
    assert_eq!(count_loop_placements_exhaustive(&scene), 6);
    let small = load_map("..#..\n....#\n.^...\n.....\n...#.\n").unwrap();
    assert_eq!(count_loop_placements(&small), count_loop_placements_exhaustive(&small));
    let other = load_map(".#....\n.....#\n......\n#.....\n..^.#.\n").unwrap();
    assert_eq!(count_loop_placements(&other), count_loop_placements_exhaustive(&other));
}

#[test]
fn looping_walk_keeps_looping_with_obstacles_off_its_path() {
    let scene = load_map(".#...\n....#\n#....\n.^.#.\n").unwrap();
    let mut walk = load_map(".#...\n....#\n#....\n.^.#.\n").unwrap();
    assert_eq!(search(&mut walk), ExitReason::Loop);
    assert_eq!(count_loop_placements(&scene), 0);
    assert_eq!(count_loop_placements_exhaustive(&scene), 9);
}

#[test]
fn loading_twice_walks_alike() {
    let mut a = load_map(EXAMPLE).unwrap();
    let mut b = load_map(EXAMPLE).unwrap();
    assert_eq!(a.cells, b.cells);
    assert_eq!(search(&mut a), search(&mut b));
    assert_eq!(a.cells, b.cells);
    assert_eq!(a.guard, b.guard);
}

#[test]
fn flags_are_never_cleared() {
    let before = load_map(EXAMPLE).unwrap();
    let mut after = load_map(EXAMPLE).unwrap();
    search(&mut after);
    for i in 0..before.cells.len() {
        assert_eq!(after.cells[i].bits | before.cells[i].bits, after.cells[i].bits);
    }
}

#[test]
fn single_row_facing_north_exits_at_once() {
    assert_eq!("1", day06_part1::process("^....").unwrap());
    assert_eq!("0", day06_part2::process("^....").unwrap());
}

#[test]
fn single_row_facing_east_walks_the_row() {
    assert_eq!("5", day06_part1::process(">....").unwrap());
    assert_eq!("0", day06_part2::process(">....").unwrap());
}

#[test]
fn turn_in_place_adds_no_visit() {
    assert_eq!("2", day06_part1::process(".#.\n.^.\n...\n").unwrap());
}

#[test]
fn boxed_in_guard_loops() {
    let mut scene = load_map(".#.\n#^#\n.#.").unwrap();
    assert_eq!(search(&mut scene), ExitReason::Loop);
    assert_eq!(scene.visited_cells(), 1);
}

#[test]
fn walk_into_loop() {
    let mut scene = load_map(".#..\n...#\n#^..\n..#.").unwrap();
    assert_eq!(search(&mut scene), ExitReason::Loop);
}

#[test]
fn load_errors() {
    assert_eq!(load_map("..x\n.^.").unwrap_err(), LoadError::UnknownCharacter);
    assert_eq!(load_map("...\n.^").unwrap_err(), LoadError::Ragged);
    assert_eq!(load_map("").unwrap_err(), LoadError::Ragged);
    assert_eq!(load_map("...\n\n.^.").unwrap_err(), LoadError::Ragged);
    assert_eq!(load_map("...\n...").unwrap_err(), LoadError::NoGuard);
    assert_eq!(load_map("^..\n..>").unwrap_err(), LoadError::SeveralGuards);
    assert_eq!(day06_part1::process("..").unwrap_err(), LoadError::NoGuard);
}

#[test]
fn trailing_line_break_is_accepted() {
    let scene = load_map("..\n^.\n").unwrap();
    assert_eq!((scene.width, scene.height), (2, 2));
    assert_eq!((scene.guard.x, scene.guard.y), (0, 1));
}

#[test]
fn guard_marker_sets_heading() {
    let scene = load_map("...\n.v.\n...").unwrap();
    assert_eq!(scene.guard.direction, Direction::South);
    assert_eq!(scene.at(1, 1).bits, 4);
}

#[test]
fn grid_is_drawn_with_its_marks() {
    let mut scene = load_map(".#.\n.^.\n...").unwrap();
    assert_eq!(scene.render().unwrap(), ".#.\n.^.\n...\n");
    search(&mut scene);
    assert_eq!(scene.render().unwrap(), ".#.\n.+>\n...\n");
    let mut corridor = load_map("v\n.\n.").unwrap();
    search(&mut corridor);
    assert_eq!(corridor.render().unwrap(), "v\nv\nv\n");
}

#[test]
fn cells_are_drawn_by_their_flags() {
    assert_eq!(Cell { bits: 5 }.symbol_text(), Some("|"));
    assert_eq!(Cell { bits: 10 }.symbol_text(), Some("-"));
    assert_eq!(Cell { bits: 3 }.symbol_text(), Some("+"));
    assert_eq!(Cell { bits: 16 }.symbol_text(), Some("#"));
    assert_eq!(Cell { bits: 17 }.symbol_text(), None);
}

#[test]
fn obstacle_off_the_path_changes_nothing() {
    let mut plain = load_map(EXAMPLE).unwrap();
    search(&mut plain);
    assert_eq!(plain.at(9, 9).bits, 0);
    let mut blocked = load_map(EXAMPLE).unwrap();
    assert_eq!(obstruction::search(&mut blocked, 9, 9), ExitReason::LeftScene);
    assert_eq!(blocked.visited_cells(), 41);
}

#[test]
fn one_candidate_trial() {
    let scene = load_map(EXAMPLE).unwrap();
    let preds = obstruction::candidates(&scene);
    // The cell left of the start, at (3, 6), makes the guard loop.
    let i = 6 * 10 + 3;
    let g = preds[i].unwrap();
    assert!(obstruction::try_candidate(&scene, i, g));
    let looping = preds
        .iter()
        .enumerate()
        .filter(|(i, g)| g.map_or(false, |g| obstruction::try_candidate(&scene, *i, g)))
        .count();
    assert_eq!(looping, 6);
}

#[test]
fn walked_example_renders() {
    let mut scene = load_map(EXAMPLE).unwrap();
    search(&mut scene);
    let text = scene.render().unwrap();
    assert_eq!(text.lines().count(), 10);
    assert_eq!(text.lines().next(), Some("....#....."));
    assert_eq!(text.matches('#').count(), 8);
}
