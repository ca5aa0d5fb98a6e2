use puzzles::puzzle06::{prime, solve, solve_part1, solve_part2, solve_part3};

const LAMPS: &[u8] = b"#########\n#S##*#.a#\n#.#..3..#\n#*#A##*.#\n#########\n";

#[test]
fn lamps_through_hashes() {
    assert_eq!(solve_part1(LAMPS), 2);
}

#[test]
fn lamps_through_wires_and_letters() {
    assert_eq!(solve_part2(LAMPS), 2);
}

#[test]
fn lamps_after_removals() {
    assert_eq!(solve_part3(LAMPS), 2);
    assert_eq!(solve(LAMPS), (2, 2, 2));
}

#[test]
fn primes_by_trial_division() {
    assert!(prime(0));
    assert!(prime(1));
    assert!(prime(2));
    assert!(prime(3));
    assert!(!prime(4));
    assert!(!prime(9));
    assert!(prime(11));
    assert!(!prime(25));
    assert!(!prime(49));
    assert!(prime(97));
}
