//! A snake on a 30 by 30 board. The input holds moves (`>`, `<`, `^`, `v`), a
//! blank line, and the sushi positions `x,y` in the order the snake meets them.
//!
//! Part 1 walks a point through the first half of the moves and counts the sushi it
//! reaches, one after the other. Part 2 moves a snake that grows on sushi and stops
//! when it runs into itself. Part 3 lets the snake bite off its tail end instead.
use std::collections::VecDeque;
use vstd::prelude::*;
use crate::text::{leading_number, line_ranges, lines, ranges_in, ranges_view, usize_from_radix_10_checked};

verus! {

/// The side of the board.
pub const SIDE: usize = 30;

/// The first index `i` from `j` on with `s[i]` and `s[i + 1]` both `'\n'`, or -1.
pub open spec fn blank_from(s: Seq<u8>, j: int) -> int
    decreases s.len() - j,
{
    if j < 0 || j + 1 >= s.len() {
        -1
    } else if s[j] == 10 && s[j + 1] == 10 {
        j
    } else {
        blank_from(s, j + 1)
    }
}

/// Where the moves end: the first `"\n\n"`, or -1 if there is none.
pub open spec fn blank(s: Seq<u8>) -> int {
    blank_from(s, 0)
}

/// The moves: the bytes before the first blank line.
pub open spec fn moves_of(s: Seq<u8>) -> Seq<u8> {
    s.take(blank(s))
}

/// The index of the first `','` from `j` on, or -1.
pub open spec fn comma_from(l: Seq<u8>, j: int) -> int
    decreases l.len() - j,
{
    if j < 0 || j >= l.len() {
        -1
    } else if l[j] == 44 {
        j
    } else {
        comma_from(l, j + 1)
    }
}

/// A sushi line `x,y` read as its two numbers.
pub open spec fn sushi_at(l: Seq<u8>) -> (nat, nat) {
    let c = comma_from(l, 0);
    (leading_number(l.take(c)), leading_number(l.skip(c + 1)))
}

/// The sushi lines: those after the first blank line.
pub open spec fn sushi_lines(s: Seq<u8>) -> Seq<Seq<u8>> {
    lines(s.skip(blank(s) + 2))
}

/// A sushi line can be read: it has a comma, and both numbers fit in a `usize`.
pub open spec fn line_readable(l: Seq<u8>) -> bool {
    &&& comma_from(l, 0) >= 0
    &&& sushi_at(l).0 <= usize::MAX
    &&& sushi_at(l).1 <= usize::MAX
}

/// The index of the first line from `i` on that cannot be read, or the number of
/// lines if there is none.
pub open spec fn readable_from(ls: Seq<Seq<u8>>, i: int) -> int
    decreases ls.len() - i,
{
    if i < 0 || i >= ls.len() || !line_readable(ls[i]) {
        i
    } else {
        readable_from(ls, i + 1)
    }
}

/// The sushi positions, in order: those of the sushi lines before the first line
/// that cannot be read. The snake compares against a sushi line only when it
/// needs that sushi, so lines after an unreadable one never matter, and needing the
/// unreadable one is a failed move, as needing one past the last line is.
pub open spec fn sushi_of(s: Seq<u8>) -> Seq<(nat, nat)> {
    let ls = sushi_lines(s);
    ls.take(readable_from(ls, 0)).map_values(|l: Seq<u8>| sushi_at(l))
}

/// The input can be read: it has a blank line after the moves.
pub open spec fn input_ok(s: Seq<u8>) -> bool {
    blank(s) >= 0
}

proof fn lemma_readable_from(ls: Seq<Seq<u8>>, i: int)
    requires
        0 <= i <= ls.len(),
    ensures
        i <= readable_from(ls, i) <= ls.len(),
        forall|k: int| i <= k < readable_from(ls, i) ==> #[trigger] line_readable(ls[k]),
        readable_from(ls, i) < ls.len() ==> !line_readable(ls[readable_from(ls, i)]),
    decreases ls.len() - i,
{
    if i < ls.len() && line_readable(ls[i]) {
        lemma_readable_from(ls, i + 1);
    }
}

proof fn lemma_blank_from(s: Seq<u8>, j: int)
    requires
        j >= 0,
    ensures
        blank_from(s, j) == -1 || (j <= blank_from(s, j) && blank_from(s, j) + 1 < s.len()),
    decreases s.len() - j,
{
    if j + 1 < s.len() && !(s[j] == 10 && s[j + 1] == 10) {
        lemma_blank_from(s, j + 1);
    }
}

proof fn lemma_comma_from(l: Seq<u8>, j: int)
    requires
        j >= 0,
    ensures
        comma_from(l, j) == -1 || (j <= comma_from(l, j) && comma_from(l, j) < l.len()),
    decreases l.len() - j,
{
    if j < l.len() && l[j] != 44 {
        lemma_comma_from(l, j + 1);
    }
}

/// Whether the input has a blank line after the moves, as the solvers need.
pub fn has_blank_line(input: &[u8]) -> (r: bool)
    ensures
        r == input_ok(input@),
{
    let n: usize = input.len();
    let mut j: usize = 0;
    while n > 0 && j < n - 1
        invariant
            n == input@.len(),
            blank_from(input@, j as int) == blank(input@),
        decreases input@.len() - j,
    {
        if input[j] == 10 && input[j + 1] == 10 {
            proof {
                lemma_blank_from(input@, 0);
            }
            return true;
        }
        j = j + 1;
    }
    false
}

fn find_blank(s: &[u8]) -> (r: usize)
    requires
        blank(s@) >= 0,
    ensures
        r == blank(s@),
        r + 1 < s@.len(),
{
    proof {
        lemma_blank_from(s@, 0);
    }
    let n: usize = s.len();
    let mut j: usize = 0;
    while j + 1 < s.len() && !(s[j] == 10 && s[j + 1] == 10)
        invariant
            0 <= j,
            blank_from(s@, j as int) == blank(s@),
            blank(s@) >= 0,
            j <= blank(s@),
            blank(s@) + 1 < s@.len(),
            n == s@.len(),
        decreases s@.len() - j,
    {
        proof {
            lemma_blank_from(s@, j + 1);
        }
        j = j + 1;
    }
    j
}

fn find_comma(l: &[u8]) -> (r: Option<usize>)
    ensures
        r matches Some(c) ==> c == comma_from(l@, 0) && c < l@.len(),
        r is None ==> comma_from(l@, 0) < 0,
{
    let mut j: usize = 0;
    while j < l.len() && l[j] != 44
        invariant
            j <= l@.len(),
            comma_from(l@, j as int) == comma_from(l@, 0),
        decreases l@.len() - j,
    {
        j = j + 1;
    }
    if j < l.len() {
        Some(j)
    } else {
        None
    }
}

/// Reads the moves and the sushi positions, up to the first sushi line that cannot
/// be read.
fn parse(input: &[u8]) -> (r: (Vec<u8>, Vec<(usize, usize)>))
    requires
        input_ok(input@),
    ensures
        r.0@ == moves_of(input@),
        r.1@.len() == sushi_of(input@).len(),
        forall|i: int| 0 <= i < r.1@.len() ==> (#[trigger] r.1@[i]).0 == sushi_of(input@)[i].0 && r.1@[i].1 == sushi_of(input@)[i].1,
{
    let n: usize = input.len();
    let b: usize = find_blank(input);
    let moves = vstd::slice::slice_to_vec(vstd::slice::slice_subrange(input, 0, b));
    let rest = vstd::slice::slice_subrange(input, b + 2, input.len());
    proof {
        assert(moves@ =~= moves_of(input@));
        assert(rest@ =~= input@.skip(blank(input@) + 2));
    }
    let ranges = line_ranges(rest);
    let ghost ls = lines(rest@);
    proof {
        lemma_readable_from(ls, 0);
    }
    let ghost stop = readable_from(ls, 0);
    let mut sushi: Vec<(usize, usize)> = Vec::new();
    let mut i: usize = 0;
    while i < ranges.len()
        invariant_except_break
            i <= stop,
        invariant
            i <= ranges@.len() == ls.len(),
            ls == lines(rest@),
            ls == sushi_lines(input@),
            stop == readable_from(ls, 0),
            stop <= ls.len(),
            forall|k: int| 0 <= k < stop ==> #[trigger] line_readable(ls[k]),
            stop < ls.len() ==> !line_readable(ls[stop]),
            ranges_in(ranges@, rest@.len()),
            ranges_view(rest@, ranges@) == ls,
            sushi@.len() == i,
            forall|k: int| 0 <= k < i ==> (#[trigger] sushi@[k]).0 == sushi_at(ls[k]).0 && sushi@[k].1 == sushi_at(ls[k]).1,
        ensures
            i == stop,
        decreases ranges@.len() - i,
    {
        let (a, e) = ranges[i];
        proof {
            assert(ranges@[i as int].0 <= ranges@[i as int].1);
        }
        let line = vstd::slice::slice_subrange(rest, a, e);
        let ghost l = line@;
        proof {
            assert(l == ls[i as int]);
            lemma_comma_from(l, 0);
        }
        let c: usize = match find_comma(line) {
            Some(c) => c,
            None => {
                proof {
                    assert(!line_readable(ls[i as int]));
                }
                break;
            },
        };
        let xs = vstd::slice::slice_subrange(line, 0, c);
        let ys = vstd::slice::slice_subrange(line, c + 1, line.len());
        proof {
            assert(xs@ =~= l.take(c as int));
            assert(ys@ =~= l.skip(c + 1));
            assert(sushi_at(l) == (leading_number(xs@), leading_number(ys@)));
        }
        let (xo, _used_x) = usize_from_radix_10_checked(xs);
        let (yo, _used_y) = usize_from_radix_10_checked(ys);
        let (x, y) = match (xo, yo) {
            (Some(x), Some(y)) => (x, y),
            _ => {
                proof {
                    assert(!line_readable(ls[i as int]));
                }
                break;
            },
        };
        proof {
            assert(line_readable(l));
            if (i as int) == stop {
                assert(!line_readable(ls[stop]));
            }
        }
        let ghost before = sushi@;
        sushi.push((x, y));
        proof {
            assert forall|k: int| 0 <= k < i + 1 implies (#[trigger] sushi@[k]).0 == sushi_at(ls[k]).0 && sushi@[k].1 == sushi_at(ls[k]).1 by {
                if k < i {
                    assert(sushi@[k] == before[k]);
                }
            }
        }
        i = i + 1;
    }
    proof {
        let so = sushi_of(input@);
        assert(so.len() == stop);
        assert forall|k: int| 0 <= k < sushi@.len() implies (#[trigger] sushi@[k]).0 == so[k].0 && sushi@[k].1 == so[k].1 by {
            assert(so[k] == sushi_at(ls[k]));
        }
    }
    (moves, sushi)
}


/// A point after a move; `None` for a byte that is not a move.
pub open spec fn step_xy(b: u8, x: int, y: int) -> Option<(int, int)> {
    if b == 62 {
        Some((x + 1, y))
    } else if b == 60 {
        Some((x - 1, y))
    } else if b == 94 {
        Some((x, y + 1))
    } else if b == 118 {
        Some((x, y - 1))
    } else {
        None
    }
}

/// Part 1 after `i` moves: the point and how many sushi it has reached. `None`
/// once a move fails: a byte that is not a move, a coordinate that leaves the
/// range of `usize`, or no readable sushi line left to compare with.
pub open spec fn chase(m: Seq<u8>, su: Seq<(nat, nat)>, i: int) -> Option<(int, int, nat)>
    decreases i,
{
    if i <= 0 {
        Some((0, 0, 0))
    } else {
        match chase(m, su, i - 1) {
            None => None,
            Some((x, y, k)) => match step_xy(m[i - 1], x, y) {
                None => None,
                Some((nx, ny)) => if nx < 0 || ny < 0 || nx > usize::MAX || ny > usize::MAX || k >= su.len() {
                    None
                } else if nx == su[k as int].0 && ny == su[k as int].1 {
                    Some((nx, ny, k + 1))
                } else {
                    Some((nx, ny, k))
                },
            },
        }
    }
}

/// Part 1's count: the sushi reached in the first half of the moves.
pub open spec fn part1_result(s: Seq<u8>) -> Option<(int, int, nat)> {
    chase(moves_of(s), sushi_of(s), (moves_of(s).len() / 2) as int)
}

/// Counts the sushi reached in the first half of the moves.
pub fn solve_part1(input: &[u8]) -> (r: usize)
    requires
        input_ok(input@),
        part1_result(input@) is Some,
    ensures
        part1_result(input@) matches Some((_x, _y, k)) && k == r,
{
    let (instrs, sushi) = parse(input);
    let ghost m = instrs@;
    let ghost su = sushi_of(input@);
    let half: usize = instrs.len() / 2;
    let ns: usize = sushi.len();
    let mut x: usize = 0;
    let mut y: usize = 0;
    let mut total: usize = 0;
    let mut i: usize = 0;
    proof {
        lemma_chase_prefix(m, su, half as int);
    }
    while i < half
        invariant
            m == instrs@,
            su == sushi_of(input@),
            sushi@.len() == su.len(),
            ns == sushi@.len(),
            forall|k: int| 0 <= k < sushi@.len() ==> (#[trigger] sushi@[k]).0 == su[k].0 && sushi@[k].1 == su[k].1,
            half == m.len() / 2,
            i <= half,
            chase(m, su, half as int) is Some,
            forall|j: int| 0 <= j <= half ==> #[trigger] chase(m, su, j) is Some,
            chase(m, su, i as int) == Some((x as int, y as int, total as nat)),
        decreases half - i,
    {
        let b: u8 = instrs[i];
        proof {
            assert(chase(m, su, i + 1) is Some);
        }
        if b == 62 {
            x = x + 1;
        } else if b == 60 {
            x = x - 1;
        } else if b == 94 {
            y = y + 1;
        } else {
            y = y - 1;
        }
        if x == sushi[total].0 && y == sushi[total].1 {
            total = total + 1;
        }
        i = i + 1;
    }
    total
}

/// A defined state stays defined backwards: if `chase` succeeds after `i` moves
/// it succeeded after every earlier number of moves.
proof fn lemma_chase_prefix(m: Seq<u8>, su: Seq<(nat, nat)>, i: int)
    requires
        chase(m, su, i) is Some,
    ensures
        forall|j: int| 0 <= j <= i ==> #[trigger] chase(m, su, j) is Some,
    decreases i,
{
    if i > 0 {
        lemma_chase_prefix(m, su, i - 1);
    }
}


/// The board cell after a move from cell `p` (cells are `30 * y + x`); `None` for a
/// byte that is not a move.
pub open spec fn move_cell(b: u8, p: int) -> Option<int> {
    if b == 62 {
        Some(p + 1)
    } else if b == 60 {
        Some(p - 1)
    } else if b == 94 {
        Some(p + 30)
    } else if b == 118 {
        Some(p - 30)
    } else {
        None
    }
}

/// The cell of sushi `k`, `30 * y + x`.
pub open spec fn sushi_cell(su: Seq<(nat, nat)>, k: int) -> int {
    (su[k].1 * 30 + su[k].0) as int
}

/// The next cell of a move, or `None` where the move cannot be made: a
/// byte that is not a move, a cell below 0, no readable sushi line left to compare with, a sushi
/// cell beyond `usize`, or a cell off the board.
pub open spec fn next_cell(b: u8, head: int, su: Seq<(nat, nat)>, k: nat) -> Option<int> {
    match move_cell(b, head) {
        None => None,
        Some(p) => if p < 0 || k >= su.len() || sushi_cell(su, k as int) > usize::MAX || p >= 900 {
            None
        } else {
            Some(p)
        },
    }
}

/// Part 2 after `i` moves: the snake's cells from tail to head, the sushi eaten,
/// and whether it has stopped. On a sushi cell the snake grows; otherwise its tail
/// moves up. It stops when its head would enter one of its own cells.
pub open spec fn crawl(m: Seq<u8>, su: Seq<(nat, nat)>, i: int) -> Option<(Seq<int>, nat, bool)>
    decreases i,
{
    if i <= 0 {
        Some((seq![0int], 0, false))
    } else {
        match crawl(m, su, i - 1) {
            None => None,
            Some((segs, k, stopped)) => if stopped {
                Some((segs, k, true))
            } else {
                match next_cell(m[i - 1], segs.last(), su, k) {
                    None => None,
                    Some(p) => {
                        let eat = p == sushi_cell(su, k as int);
                        let body = if eat { segs } else { segs.drop_first() };
                        let k1 = if eat { k + 1 } else { k };
                        if body.contains(p) {
                            Some((body, k1, true))
                        } else {
                            Some((body.push(p), k1, false))
                        }
                    },
                }
            },
        }
    }
}

/// Part 2's run over all the moves.
pub open spec fn part2_result(s: Seq<u8>) -> Option<(Seq<int>, nat, bool)> {
    crawl(moves_of(s), sushi_of(s), moves_of(s).len() as int)
}

proof fn lemma_crawl_prefix(m: Seq<u8>, su: Seq<(nat, nat)>, i: int)
    requires
        crawl(m, su, i) is Some,
    ensures
        forall|j: int| 0 <= j <= i ==> #[trigger] crawl(m, su, j) is Some,
    decreases i,
{
    if i > 0 {
        lemma_crawl_prefix(m, su, i - 1);
    }
}

/// The snake of part 2 is one cell for its head plus one for each sushi it ate
/// (one fewer once it has stopped, as the tail moved up but the head could not),
/// and it never covers a cell twice.
pub proof fn law_snake_grows_by_sushi(m: Seq<u8>, su: Seq<(nat, nat)>, i: int)
    requires
        crawl(m, su, i) is Some,
    ensures
        ({
            let (segs, k, stopped) = crawl(m, su, i)->0;
            &&& segs.len() == if stopped { k } else { k + 1 }
            &&& segs.no_duplicates()
        }),
    decreases i,
{
    if i > 0 {
        law_snake_grows_by_sushi(m, su, i - 1);
        let (segs, k, stopped) = crawl(m, su, i - 1)->0;
        if !stopped {
            let p = next_cell(m[i - 1], segs.last(), su, k)->0;
            let eat = p == sushi_cell(su, k as int);
            let body = if eat { segs } else { segs.drop_first() };
            assert(body.no_duplicates()) by {
                if !eat {
                    assert forall|a: int, b: int| 0 <= a < body.len() && 0 <= b < body.len() && a != b implies body[a] != body[b] by {
                        assert(body[a] == segs[a + 1] && body[b] == segs[b + 1]);
                    }
                }
            }
            if !body.contains(p) {
                let nb = body.push(p);
                assert forall|a: int, b: int| 0 <= a < nb.len() && 0 <= b < nb.len() && a != b implies nb[a] != nb[b] by {
                    if a == body.len() {
                        assert(nb[b] == body[b]);
                    } else if b == body.len() {
                        assert(nb[a] == body[a]);
                    }
                }
            }
        }
    }
}

/// The snake's length plus one when it stops or the moves run out.
pub fn solve_part2(input: &[u8]) -> (r: usize)
    requires
        input_ok(input@),
        part2_result(input@) is Some,
    ensures
        part2_result(input@) matches Some((segs, _k, _stopped)) && r == segs.len() + 1,
{
    let (instrs, sushi) = parse(input);
    let ghost m = instrs@;
    let ghost su = sushi_of(input@);
    let n: usize = instrs.len();
    let ns: usize = sushi.len();
    let il: usize = input.len();
    proof {
        lemma_blank_from(input@, 0);
    }
    let mut segments: VecDeque<usize> = VecDeque::new();
    segments.push_back(0);
    let mut occupied: Vec<bool> = Vec::new();
    let mut q: usize = 0;
    while q < SIDE * SIDE
        invariant
            q <= 900,
            occupied@.len() == q,
            forall|j: int| 0 <= j < q ==> occupied@[j] == (j == 0),
        decreases 900 - q,
    {
        occupied.push(q == 0);
        q = q + 1;
    }
    let mut k: usize = 0;
    let mut i: usize = 0;
    proof {
        lemma_crawl_prefix(m, su, n as int);
        assert(segments@.map_values(|c: usize| c as int) =~= seq![0int]);
        assert(seq![0int][0] == 0);
        assert(seq![0int].contains(0));
    }
    while i < n
        invariant
            m == instrs@,
            n == m.len(),
            su == sushi_of(input@),
            ns == sushi@.len() == su.len(),
            forall|j: int| 0 <= j < sushi@.len() ==> (#[trigger] sushi@[j]).0 == su[j].0 && sushi@[j].1 == su[j].1,
            i <= n,
            forall|j: int| 0 <= j <= n ==> #[trigger] crawl(m, su, j) is Some,
            crawl(m, su, i as int) == Some((segments@.map_values(|c: usize| c as int), k as nat, false)),
            segments@.len() >= 1,
            segments@.len() <= i + 1,
            n + 2 <= input@.len(),
            il == input@.len(),
            m == moves_of(input@),
            segments@.map_values(|c: usize| c as int).no_duplicates(),
            occupied@.len() == 900,
            forall|j: int| 0 <= j < segments@.len() ==> #[trigger] segments@[j] < 900,
            forall|c: int| 0 <= c < 900 ==> #[trigger] occupied@[c] == segments@.map_values(|c: usize| c as int).contains(c),
        decreases n - i,
    {
        let ghost segs = segments@.map_values(|c: usize| c as int);
        proof {
            assert(crawl(m, su, i + 1) is Some);
            assert(segs.last() == segments@[segments@.len() - 1] as int);
        }
        let mut position: usize = segments[segments.len() - 1];
        let b: u8 = instrs[i];
        if b == 62 {
            position = position + 1;
        } else if b == 60 {
            position = position - 1;
        } else if b == 94 {
            position = position + SIDE;
        } else {
            position = position - SIDE;
        }
        let ghost k0 = k;
        let (sx, sy) = sushi[k];
        let target: usize = sy * SIDE + sx;
        if position == target {
            k = k + 1;
        } else {
            let tail: usize = match segments.pop_front() {
                Some(t) => t,
                None => 0,
            };
            proof {
                let after = segments@.map_values(|c: usize| c as int);
                assert(after =~= segs.drop_first());
                assert(segs[0] == tail as int);
                assert(!after.contains(tail as int)) by {
                    if after.contains(tail as int) {
                        let w = choose|w: int| 0 <= w < after.len() && after[w] == tail as int;
                        assert(segs[w + 1] == segs[0]);
                    }
                }
                if !after.contains(tail as int) {
                    assert forall|c: int| 0 <= c < 900 && c != tail implies #[trigger] occupied@[c] == after.contains(c) by {
                        if segs.contains(c) {
                            let w = choose|w: int| 0 <= w < segs.len() && segs[w] == c;
                            assert(w != 0);
                            assert(after[w - 1] == c);
                        }
                        if after.contains(c) {
                            let w = choose|w: int| 0 <= w < after.len() && after[w] == c;
                            assert(segs[w + 1] == c);
                        }
                    }
                }
            }
            occupied.set(tail, false);
        }
        let ghost body = segments@.map_values(|c: usize| c as int);
        if occupied[position] {
            proof {
                assert(body.contains(position as int));
                assert(next_cell(m[i as int], segs.last(), su, k0 as nat) == Some(position as int));
                assert(crawl(m, su, i + 1) == Some((body, k as nat, true)));
                lemma_crawl_stopped(m, su, i + 1, n as int);
            }
            return segments.len() + 1;
        }
        segments.push_back(position);
        occupied.set(position, true);
        proof {
            let now = segments@.map_values(|c: usize| c as int);
            assert(now =~= body.push(position as int));
            assert(!body.contains(position as int));

            assert forall|c: int| 0 <= c < 900 implies #[trigger] occupied@[c] == now.contains(c) by {
                if c == position {
                    assert(now[now.len() - 1] == c);
                } else if now.contains(c) {
                    let w = choose|w: int| 0 <= w < now.len() && now[w] == c;
                    assert(body[w] == c);
                } else if body.contains(c) {
                    let w = choose|w: int| 0 <= w < body.len() && body[w] == c;
                    assert(now[w] == c);
                }
            }
        }
        i = i + 1;
    }
    segments.len() + 1
}

/// Once stopped, the snake stays as it is.
proof fn lemma_crawl_stopped(m: Seq<u8>, su: Seq<(nat, nat)>, i: int, j: int)
    requires
        0 <= i <= j,
        crawl(m, su, i) matches Some((_s, _k, stopped)) && stopped,
    ensures
        crawl(m, su, j) == crawl(m, su, i),
    decreases j - i,
{
    if j > i {
        lemma_crawl_stopped(m, su, i, j - 1);
    }
}


/// The snake bites: cells leave from the tail up to and including the first cell
/// equal to `target`; each one leaves the occupied set. `None` if the snake runs
/// out of cells first.
pub open spec fn bite(pos: Seq<int>, tail: int, occ: Set<int>, target: int, fuel: nat) -> Option<(int, Set<int>)>
    decreases fuel,
{
    if fuel == 0 || tail < 0 || tail >= pos.len() {
        None
    } else {
        let old = pos[tail];
        let occ1 = occ.remove(old);
        if old == target {
            Some((tail + 1, occ1))
        } else {
            bite(pos, tail + 1, occ1, target, (fuel - 1) as nat)
        }
    }
}

/// Whether the snake bites: its head moves onto an occupied cell that is not
/// its tail.
pub open spec fn bites(pos: Seq<int>, tail: int, occ: Set<int>, p: int) -> bool {
    occ.contains(p) && pos[tail] != p
}

/// Part 3 after `i` moves: every cell the head has visited (the snake is
/// `pos[tail..]`), the occupied cells, the sushi eaten and the bites. On a sushi
/// cell the snake grows; otherwise, after a bite if there is one, its tail moves up.
pub open spec fn feast(m: Seq<u8>, su: Seq<(nat, nat)>, i: int) -> Option<(Seq<int>, int, Set<int>, nat, nat)>
    decreases i,
{
    if i <= 0 {
        Some((seq![0int], 0, set![0int], 0, 0))
    } else {
        match feast(m, su, i - 1) {
            None => None,
            Some((pos, tail, occ, k, noms)) => match next_cell(m[i - 1], pos.last(), su, k) {
                None => None,
                Some(p) => if p == sushi_cell(su, k as int) {
                    Some((pos.push(p), tail, occ.insert(p), k + 1, noms))
                } else if tail < 0 || tail >= pos.len() {
                    None
                } else {
                    let bitten = if bites(pos, tail, occ, p) {
                        bite(pos, tail, occ, p, pos.len())
                    } else {
                        Some((tail, occ))
                    };
                    match bitten {
                        None => None,
                        Some((t1, o1)) => if t1 >= pos.len() {
                            None
                        } else {
                            let noms1 = if bites(pos, tail, occ, p) { noms + 1 } else { noms };
                            Some((pos.push(p), t1 + 1, o1.remove(pos[t1]).insert(p), k, noms1))
                        },
                    }
                },
            },
        }
    }
}

/// Part 3's run over all the moves.
pub open spec fn part3_result(s: Seq<u8>) -> Option<(Seq<int>, int, Set<int>, nat, nat)> {
    feast(moves_of(s), sushi_of(s), moves_of(s).len() as int)
}

/// Part 3's answer: the snake's final length times the number of bites.
pub open spec fn part3_answer(s: Seq<u8>) -> int {
    match part3_result(s) {
        Some((pos, tail, _occ, _k, noms)) => (pos.len() - tail) * noms,
        None => 0,
    }
}

proof fn lemma_feast_prefix(m: Seq<u8>, su: Seq<(nat, nat)>, i: int)
    requires
        feast(m, su, i) is Some,
    ensures
        forall|j: int| 0 <= j <= i ==> #[trigger] feast(m, su, j) is Some,
    decreases i,
{
    if i > 0 {
        lemma_feast_prefix(m, su, i - 1);
    }
}

/// Removes cells from the tail through the first cell equal to `position`.
fn bite_tail(positions: &Vec<usize>, tail: usize, occupied: &mut Vec<bool>, position: usize, Ghost(occ): Ghost<Set<int>>) -> (r: (usize, Ghost<Set<int>>))
    requires
        bite(positions@.map_values(|c: usize| c as int), tail as int, occ, position as int, positions@.len()) is Some,
        old(occupied)@.len() == 900,
        forall|j: int| 0 <= j < positions@.len() ==> #[trigger] positions@[j] < 900,
        forall|c: int| #[trigger] occ.contains(c) ==> 0 <= c < 900,
        forall|c: int| 0 <= c < 900 ==> #[trigger] old(occupied)@[c] == occ.contains(c),
    ensures
        bite(positions@.map_values(|c: usize| c as int), tail as int, occ, position as int, positions@.len()) == Some((r.0 as int, r.1@)),
        final(occupied)@.len() == 900,
        forall|c: int| #[trigger] r.1@.contains(c) ==> 0 <= c < 900,
        forall|c: int| 0 <= c < 900 ==> #[trigger] final(occupied)@[c] == r.1@.contains(c),
{
    let ghost pos = positions@.map_values(|c: usize| c as int);
    let ghost goal = bite(pos, tail as int, occ, position as int, pos.len());
    let ghost mut fuel: nat = pos.len();
    let ghost mut o: Set<int> = occ;
    let len: usize = positions.len();
    let mut t: usize = tail;
    loop
        invariant_except_break
            bite(pos, t as int, o, position as int, fuel) == goal,
        invariant
            pos == positions@.map_values(|c: usize| c as int),
            len == positions@.len(),
            goal is Some,
            goal == bite(pos, tail as int, occ, position as int, pos.len()),
            occupied@.len() == 900,
            forall|j: int| 0 <= j < positions@.len() ==> #[trigger] positions@[j] < 900,
            forall|c: int| #[trigger] o.contains(c) ==> 0 <= c < 900,
            forall|c: int| 0 <= c < 900 ==> #[trigger] occupied@[c] == o.contains(c),
        ensures
            goal == Some((t as int, o)),
        decreases fuel,
    {
        let old_tail: usize = positions[t];
        t = t + 1;
        occupied.set(old_tail, false);
        proof {
            o = o.remove(old_tail as int);
            fuel = (fuel - 1) as nat;
        }
        if old_tail == position {
            break;
        }
    }
    (t, Ghost(o))
}

/// The snake's final length times the number of times it bit itself.
pub fn solve_part3(input: &[u8]) -> (r: usize)
    requires
        input_ok(input@),
        part3_result(input@) is Some,
        part3_answer(input@) <= usize::MAX,
    ensures
        r == part3_answer(input@),
{
    let (instrs, sushi) = parse(input);
    let ghost m = instrs@;
    let ghost su = sushi_of(input@);
    let n: usize = instrs.len();
    let il: usize = input.len();
    let ns: usize = sushi.len();
    proof {
        lemma_blank_from(input@, 0);
        lemma_feast_prefix(m, su, n as int);
    }
    let mut positions: Vec<usize> = Vec::new();
    positions.push(0);
    let mut tail: usize = 0;
    let mut occupied: Vec<bool> = Vec::new();
    let mut q: usize = 0;
    while q < SIDE * SIDE
        invariant
            q <= 900,
            occupied@.len() == q,
            forall|j: int| 0 <= j < q ==> occupied@[j] == (j == 0),
        decreases 900 - q,
    {
        occupied.push(q == 0);
        q = q + 1;
    }
    let ghost mut occ: Set<int> = set![0int];
    let mut noms: usize = 0;
    let mut k: usize = 0;
    let mut i: usize = 0;
    proof {
        assert(positions@.map_values(|c: usize| c as int) =~= seq![0int]);
    }
    while i < n
        invariant
            m == instrs@,
            m == moves_of(input@),
            n == m.len(),
            n + 2 <= input@.len(),
            il == input@.len(),
            su == sushi_of(input@),
            sushi@.len() == su.len(),
            forall|j: int| 0 <= j < sushi@.len() ==> (#[trigger] sushi@[j]).0 == su[j].0 && sushi@[j].1 == su[j].1,
            i <= n,
            forall|j: int| 0 <= j <= n ==> #[trigger] feast(m, su, j) is Some,
            feast(m, su, i as int) == Some((positions@.map_values(|c: usize| c as int), tail as int, occ, k as nat, noms as nat)),
            positions@.len() == i + 1,
            tail < positions@.len(),
            noms <= i,
            occupied@.len() == 900,
            forall|j: int| 0 <= j < positions@.len() ==> #[trigger] positions@[j] < 900,
            forall|c: int| #[trigger] occ.contains(c) ==> 0 <= c < 900,
            forall|c: int| 0 <= c < 900 ==> #[trigger] occupied@[c] == occ.contains(c),
            ns == sushi@.len(),
        decreases n - i,
    {
        let ghost pos = positions@.map_values(|c: usize| c as int);
        proof {
            assert(feast(m, su, i + 1) is Some);
            assert(pos.last() == positions@[positions@.len() - 1] as int);
        }
        let mut position: usize = positions[positions.len() - 1];
        let b: u8 = instrs[i];
        if b == 62 {
            position = position + 1;
        } else if b == 60 {
            position = position - 1;
        } else if b == 94 {
            position = position + SIDE;
        } else {
            position = position - SIDE;
        }
        let (sx, sy) = sushi[k];
        let target: usize = sy * SIDE + sx;
        if position == target {
            k = k + 1;
            positions.push(position);
            occupied.set(position, true);
            proof {
                occ = occ.insert(position as int);
                assert(positions@.map_values(|c: usize| c as int) =~= pos.push(position as int));
            }
            i = i + 1;
            continue;
        }
        let does_bite: bool = occupied[position] && positions[tail] != position;
        proof {
            assert(does_bite == bites(pos, tail as int, occ, position as int));
        }
        if does_bite {
            let (t1, Ghost(o1)) = bite_tail(&positions, tail, &mut occupied, position, Ghost(occ));
            tail = t1;
            proof {
                occ = o1;
            }
            noms = noms + 1;
        }
        let t: usize = positions[tail];
        occupied.set(t, false);
        tail = tail + 1;
        positions.push(position);
        occupied.set(position, true);
        proof {
            occ = occ.remove(t as int).insert(position as int);
            assert(positions@.map_values(|c: usize| c as int) =~= pos.push(position as int));
        }
        i = i + 1;
    }
    (positions.len() - tail) * noms
}

/// The three answers.
pub fn solve(input: &[u8]) -> (r: (usize, usize, usize))
    requires
        input_ok(input@),
        part1_result(input@) is Some,
        part2_result(input@) is Some,
        part3_result(input@) is Some,
        part3_answer(input@) <= usize::MAX,
    ensures
        part1_result(input@) matches Some((_x, _y, k)) && k == r.0,
        part2_result(input@) matches Some((segs, _k, _stopped)) && r.1 == segs.len() + 1,
        r.2 == part3_answer(input@),
{
    (solve_part1(input), solve_part2(input), solve_part3(input))
}

} // verus!
