use puzzles::puzzle03::{solve, solve_part1, solve_part2, solve_part3, ColorState, State};

#[test]
fn longest_line_with_most_classes() {
    assert_eq!(solve_part1(b"abc\nAAAbc7\ngreen1\nhello\n"), b"AAAbc7".to_vec());
}

#[test]
fn ties_pick_the_last_line() {
    assert_eq!(solve_part1(b"ab\ncd\n"), b"cd".to_vec());
}

#[test]
fn best_value_line() {
    assert_eq!(solve_part2(b"abc\nAAAbc7\ngreen1\nhello\n"), b"AAAbc7".to_vec());
    assert_eq!(solve_part2(b"aaa\nbbbb\n"), b"bbbb".to_vec());
}

#[test]
fn best_appended_byte() {
    assert_eq!(solve_part3(b"abc\nAAAbc7\ngreen1\nhello\n"), 265);
    assert_eq!(solve_part3(b"aaa\nbbbb\n"), 197);
}

#[test]
fn colour_words_triple_the_value() {
    let s = State::from_line(b"green");
    assert_eq!(s.value(), 5 * 1 * 3);
    let r = State::from_line(b"gred");
    assert_eq!(r.value(), 4 * 1 * 3);
    let plain = State::from_line(b"gren");
    assert_eq!(plain.value(), 4);
    assert_eq!(ColorState::Idle.push(b'b').push(b'l').push(b'u').push(b'e').multiplier(), 3);
}

#[test]
fn runs_and_lone_sevens() {
    let s = State::from_line(b"777");
    assert_eq!(s.value(), 3 * (1 + 7 + 9));
    assert_eq!(s.value_after_push(b'7'), 4 * (1 + 7 + 16));
}

#[test]
fn passwords_all_parts() {
    assert_eq!(solve(b"aaa\nbbbb\n"), (b"bbbb".to_vec(), b"bbbb".to_vec(), 197));
}

#[test]
fn value_after_push_matches_the_longer_line() {
    for (line, c) in [(&b"aab"[..], b'b'), (&b"xx"[..], b'x'), (&b"gre"[..], b'd'), (&b"Ab7"[..], b'7')] {
        let mut longer = line.to_vec();
        longer.push(c);
        assert_eq!(State::from_line(line).value_after_push(c), State::from_line(&longer).value());
    }
    assert_eq!(State::from_line(b"aab").value_after_push(b'b'), 4);
    assert_eq!(State::from_line(b"xx").value_after_push(b'x'), 30);
    assert_eq!(State::from_line(b"gre").value_after_push(b'd'), 12);
    assert_eq!(State::from_line(b"Ab7").value_after_push(b'7'), 40);
}

#[test]
fn finished_colour_words_stay() {
    for word in [&b"green"[..], b"red", b"blue", b"gred"] {
        let mut s = ColorState::Idle;
        for &c in word {
            s = s.push(c);
        }
        assert_eq!(s.multiplier(), 3);
        assert_eq!(s.push(b'x').push(b'g').multiplier(), 3);
    }
    assert_eq!(State::from_line(b"xxgreenxx").value() % 3, 0);
    assert_eq!(State::from_line(b"grexn").value(), 5);
}
