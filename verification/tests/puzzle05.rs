use puzzles::puzzle05::{solve, solve_part1, solve_part2, solve_part3};

fn arrow_map() -> Vec<u8> {
    let rows = [
        "v>>>>v>>v>>v<>v<v<<<\n",
        ">>v^<v>^v^<>v>v^<>>^\n",
        "v<>v^>^^>>^v<vv><^v<\n",
        "v^v<^<>vv^^>>v>>v^^^\n",
        "v^<>>^>vv<<<<v<>>><^\n",
        "vv^<^v<<>v>>^<v^^>v^\n",
        "v<^>^>v^>vv<<>^v<>v^\n",
        ">v>^v<v^v<v<^v<v^<v^\n",
        ">>^v<<<^<^v^^v^>v^<^\n",
        "^v<v>>>>>v>v^<^<<>>^\n",
        "vvv<>^<v<<vv^v<v<^v<\n",
        "^<>>>>^vv<<vv>^^v^<^\n",
        "v<<v<<<<<^>>>v^<<<>^\n",
        "^^v<^>>>vv<<<v>>v^>^\n",
        "^<v>v^<v<>>v^<^^>^>^\n",
        "^^>^>^^v>^^>>>>^>>>^\n",
        "v<v<<<v<>>v>vv>v^<<v\n",
        "v^<^<^<<^<v<<>v^>v^^\n",
        "v<>>>>v>^^v>^^v>^v^<\n",
        ">>>>^>>>>^>>>^>^<>>^\n",
    ];
    rows.concat().into_bytes()
}

#[test]
fn solutions_match_expected_answers() {
    let input = arrow_map();
    assert_eq!(format!("{}", solve_part1(&input)), "210");
    assert_eq!(format!("{}", solve_part2(&input)), "261");
    assert_eq!(format!("{}", solve_part3(&input)), "301");
}

#[test]
fn small_loop_without_changes() {
    let input = b">v\n^<\n";
    assert_eq!(solve_part1(input), 4);
    assert_eq!(solve(input), (4, 4, 4));
}

#[test]
fn changes_and_turns_never_shorten_the_walk() {
    let input = arrow_map();
    let (a, b, c) = solve(&input);
    assert!(a <= b);
    assert!(a <= c);
    assert!(b <= c);
    assert!(c <= 400);
}
