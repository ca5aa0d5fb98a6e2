use puzzles::puzzle08::{solve, solve_part1, solve_part2, solve_part3};

const RULES: &[u8] = b"A:B,C\nB:C,A\nC:A,B\n";

#[test]
fn stoats_after_seven_generations() {
    assert_eq!(solve_part1(RULES), 256);
}

#[test]
fn pair_chains_after_seven_generations() {
    assert_eq!(solve_part2(RULES), 129);
}

#[test]
fn pair_chains_after_twenty_one_generations() {
    assert_eq!(solve_part3(RULES), 2097153);
}

#[test]
fn stoats_all_parts() {
    assert_eq!(solve(RULES), (256, 129, 2097153));
}
