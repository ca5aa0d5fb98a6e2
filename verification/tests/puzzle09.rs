use puzzles::puzzle09::{solve_part1, solve_part2};

const MAZE: &[u8] = b"#######\n#S..#.#\n#.#...#\n#...#E#\n#######\n";

#[test]
fn steps_between_neighbours() {
    assert_eq!(solve_part1(MAZE), 6);
}

#[test]
fn steps_with_slides() {
    assert_eq!(solve_part2(MAZE), 4);
}

#[test]
fn unreachable_end_gives_zero() {
    let maze = b"#####\n#S#E#\n#####\n";
    assert_eq!(solve_part1(maze), 0);
    assert_eq!(solve_part2(maze), 0);
}

#[test]
fn cheapest_with_priced_slides() {
    assert_eq!(puzzles::puzzle09::solve_part3(MAZE), 6);
    assert_eq!(puzzles::puzzle09::solve(MAZE), (6, 4, 6));
}

#[test]
fn slides_beside_walls_are_cheaper_than_walking() {
    let maze = b"########\n#...S..#\n##...###\n####.#.#\n#E.....#\n########\n";
    assert_eq!(puzzles::puzzle09::solve(maze), (6, 2, 5));
}

#[test]
fn slides_never_lengthen_the_way() {
    for maze in [MAZE, &b"########\n#...S..#\n##...###\n####.#.#\n#E.....#\n########\n"[..]] {
        let (a, b, c) = puzzles::puzzle09::solve(maze);
        assert!(b <= a);
        assert!(c <= a);
    }
}
