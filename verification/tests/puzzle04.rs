use puzzles::puzzle04::{solve, solve_part1, solve_part2, solve_part3};

#[test]
fn petals_after_the_first_four_hundred() {
    let mut input = b"o-|\n|-o\n".to_vec();
    for _ in 0..400 {
        input.extend_from_slice(b"|\n");
    }
    input.extend_from_slice(b"o-|\n");
    assert_eq!(solve_part1(&input), 2);
    assert_eq!(solve_part2(&input), 2);
    assert_eq!(solve_part3(&input), 1);
}

#[test]
fn short_stem_has_no_petals_after_four_hundred() {
    assert_eq!(solve_part1(b"|\no-|\n|-o\n |-o \n|\nxx\no-|\n"), 0);
}

#[test]
fn side_changes_between_petals() {
    assert_eq!(solve_part2(b"|-o\n|-o\no-|\n|-o\n|-o\n"), 2);
}

#[test]
fn rounds_until_bare() {
    assert_eq!(solve_part3(b"|-o\n|-o\no-|\n|-o\n|-o\n"), 3);
    assert_eq!(solve_part3(b"|\n"), 0);
}

#[test]
fn stem_all_parts() {
    assert_eq!(solve(b"|\no-|\n|-o\n |-o \n|\nxx\no-|\n"), (0, 2, 2));
}

#[test]
fn petals_on_one_side_fall_one_by_one() {
    assert_eq!(solve(b"|-o\n|-o\n|\n|-o\n"), (0, 0, 3));
    assert_eq!(solve(b"o-|\no-|\n"), (0, 0, 2));
}
