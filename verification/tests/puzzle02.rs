use puzzles::puzzle02::{solve, solve_part1, solve_part2, solve_part3};

#[test]
fn busiest_cell_weighed_by_its_place() {
    assert_eq!(solve_part1(b"  >>><<>>>>\n"), 9);
}

#[test]
fn walking_back_from_zero_wraps_to_ninety_nine() {
    assert_eq!(solve_part1(b"<<<>\n"), 198);
}

#[test]
fn walkers_meet() {
    assert_eq!(solve_part2(b"  >>><<>>>>\n"), 7);
    assert_eq!(solve_part2(b"<<<>\n"), 1);
}

#[test]
fn mirrored_walker() {
    assert_eq!(solve_part3(b"  >>><<>>>>\n"), 7);
    assert_eq!(solve_part3(b"<<<>\n"), 297);
}

#[test]
fn ring_all_parts() {
    assert_eq!(solve(b"<<<>\n"), (198, 1, 297));
}

#[test]
fn palindromic_moves_meet_at_every_step() {
    assert_eq!(solve_part2(b">><<>>\n"), 6);
    assert_eq!(solve_part2(b">>>>"), 4);
}

#[test]
fn mirrored_palindrome_keeps_the_walker_home() {
    assert_eq!(solve_part3(b">><<>>\n"), 6);
    assert_eq!(solve_part3(b"<>><"), 4);
    assert_eq!(solve(b">><<>>\n"), (6, 6, 6));
}
