use puzzles::puzzle11::{solve, solve_part1, solve_part2, solve_part3};

const PLANTS: &[u8] = b"  XX   00\nXX 00 00   00 00 XX\n\n01 XX\n00 00 01 XX 01 XX\n";

#[test]
fn plants_grown_alone() {
    assert_eq!(solve_part1(PLANTS), 730);
}

#[test]
fn plants_grown_side_by_side() {
    assert_eq!(solve_part2(PLANTS), 549);
}

#[test]
fn plants_replanted_twice() {
    assert_eq!(solve_part3(PLANTS), 1830);
}

#[test]
fn plants_all_parts() {
    assert_eq!(solve(PLANTS), (730, 549, 1830));
}

#[test]
fn replanting_takes_the_highest_sprout_of_each_column_in_order() {
    let input = b"00 XX 01\n00 00 00 00 01 02 02 02 00\n\nXX 02 01\n01 00 02 00 01 01 02 02 XX\n";
    assert_eq!(solve(input), (2080, 1183, 4888));
}
