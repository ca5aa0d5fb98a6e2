use puzzles::puzzle01::{solve, solve_part1, solve_part2, solve_part3};

#[test]
fn temperatures_below_sixty_are_summed() {
    assert_eq!(solve_part1(b"10\n70\n60\n55\n"), 55);
}

#[test]
fn adjustments_weigh_heat_five_times() {
    assert_eq!(solve_part2(b"10\n70\n60\n55\n"), 105);
    assert_eq!(solve_part2(b"61\n"), 5);
}

#[test]
fn first_half_is_matched_with_second_half() {
    assert_eq!(solve_part3(b"10\n70\n60\n55\n"), 125);
    assert_eq!(solve_part3(b"10\n70\n60\n"), 60);
}

#[test]
fn carriage_returns_and_all_parts() {
    assert_eq!(solve(b"10\r\n70\r\n60\r\n55"), (55, 105, 125));
}

#[test]
fn heat_costs_more_than_it_counts() {
    let input = b"70\n50\n61\n";
    assert_eq!(solve(input), (10, 65, 100));
    assert!(solve_part1(input) <= solve_part2(input));
}
