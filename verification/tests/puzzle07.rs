use puzzles::puzzle07::{solve, solve_part1, solve_part2, solve_part3};

const BITE: &[u8] = b">^><><<\n\n1,0\n1,1\n2,1\n1,1\n29,29\n";
const GROW: &[u8] = b">>>^<v<<\n\n1,0\n2,0\n3,0\n9,9\n";

#[test]
fn sushi_reached_in_first_half() {
    assert_eq!(solve_part1(BITE), 3);
    assert_eq!(solve_part1(GROW), 3);
}

#[test]
fn snake_stops_on_itself() {
    assert_eq!(solve_part2(BITE), 5);
    assert_eq!(solve_part2(GROW), 5);
}

#[test]
fn snake_bites_its_tail_end() {
    assert_eq!(solve_part3(BITE), 1);
    assert_eq!(solve_part3(GROW), 0);
}

#[test]
fn snake_all_parts() {
    assert_eq!(solve(BITE), (3, 5, 1));
}

#[test]
fn sushi_lines_after_the_last_one_needed_are_never_read() {
    let input = b">\n\n1,0\nfoo\n";
    assert_eq!(solve(input), (0, 3, 0));
}
