//! A walker on a ring of 100 cells. Each `>` moves it one cell on, any other byte
//! one cell back. Part 1 counts the visits of each cell and weighs the most
//! visited one by its place; part 2 counts the steps at which a second walker,
//! reading the moves backwards, stands on the same cell; part 3 lets one walker
//! take each forward move and then the backward move read in reverse.
use vstd::prelude::*;
use crate::text::{trim, trim_range};

verus! {

/// The number of cells on the ring.
pub const N: u8 = 100;

/// A move: `>` goes one cell on, anything else one cell back.
pub open spec fn step(p: int, b: u8) -> int {
    if b == 62 {
        (p + 1) % 100
    } else if p == 0 {
        99
    } else {
        p - 1
    }
}

/// A mirrored move: `<` goes one cell on, anything else one cell back.
pub open spec fn step_rev(p: int, b: u8) -> int {
    if b == 60 {
        (p + 1) % 100
    } else if p == 0 {
        99
    } else {
        p - 1
    }
}

/// Applies a move to the walker's cell.
fn exec(p: &mut u8, b: u8)
    requires
        *old(p) < N,
    ensures
        *final(p) == step(*old(p) as int, b),
        *final(p) < N,
{
    if b == 62 {
        *p = (*p + 1) % N;
    } else {
        *p = match p.checked_sub(1) {
            Some(q) => q,
            None => N - 1,
        };
    }
}

/// Applies a mirrored move to the walker's cell.
fn exec_rev(p: &mut u8, b: u8)
    requires
        *old(p) < N,
    ensures
        *final(p) == step_rev(*old(p) as int, b),
        *final(p) < N,
{
    if b == 60 {
        *p = (*p + 1) % N;
    } else {
        *p = match p.checked_sub(1) {
            Some(q) => q,
            None => N - 1,
        };
    }
}

/// The moves: the input without leading and trailing white space.
pub open spec fn moves(s: Seq<u8>) -> Seq<u8> {
    trim(s)
}

/// The walker's cell after the first `k` moves, from cell 0.
pub open spec fn walk(m: Seq<u8>, k: int) -> int
    decreases k,
{
    if k <= 0 {
        0
    } else {
        step(walk(m, k - 1), m[k - 1])
    }
}

/// The second walker's cell after `k` moves read from the end.
pub open spec fn walk_back(m: Seq<u8>, k: int) -> int
    decreases k,
{
    if k <= 0 {
        0
    } else {
        step(walk_back(m, k - 1), m[m.len() - k])
    }
}

/// Part 3's walker after `k` rounds: move `k` forwards, then move `k` from the end
/// mirrored.
pub open spec fn walk_both(m: Seq<u8>, k: int) -> int
    decreases k,
{
    if k <= 0 {
        0
    } else {
        step_rev(step(walk_both(m, k - 1), m[k - 1]), m[m.len() - k])
    }
}

/// How often a walk stands on cell `p` after its moves `1..=k`.
pub open spec fn visits(m: Seq<u8>, p: int, k: int, both: bool) -> nat
    decreases k,
{
    if k <= 0 {
        0
    } else {
        let q = if both {
            walk_both(m, k)
        } else {
            walk(m, k)
        };
        visits(m, p, k - 1, both) + if q == p {
            1nat
        } else {
            0nat
        }
    }
}

/// The most visited cell; on a tie, the lowest. Scans the cells below `k`.
pub open spec fn busiest(m: Seq<u8>, k: int, both: bool) -> int
    decreases k,
{
    if k <= 1 {
        0
    } else {
        let b = busiest(m, k - 1, both);
        if visits(m, k - 1, m.len() as int, both) > visits(m, b, m.len() as int, both) {
            k - 1
        } else {
            b
        }
    }
}

/// The answer of parts 1 and 3: the visits of the busiest cell times its place.
pub open spec fn weighted(s: Seq<u8>, both: bool) -> int {
    let m = moves(s);
    let b = busiest(m, 100, both);
    visits(m, b, m.len() as int, both) * (b + 1)
}

/// How many of the first `k` steps leave the two walkers on the same cell.
pub open spec fn meetings(m: Seq<u8>, k: int) -> nat
    decreases k,
{
    if k <= 0 {
        0
    } else {
        meetings(m, k - 1) + if walk(m, k) == walk_back(m, k) {
            1nat
        } else {
            0nat
        }
    }
}

proof fn lemma_walk_range(m: Seq<u8>, k: int)
    ensures
        0 <= walk(m, k) < 100,
        0 <= walk_back(m, k) < 100,
        0 <= walk_both(m, k) < 100,
    decreases k,
{
    if k > 0 {
        lemma_walk_range(m, k - 1);
    }
}

proof fn lemma_visits_le(m: Seq<u8>, p: int, k: int, both: bool)
    ensures
        visits(m, p, k, both) <= if k < 0 {
            0
        } else {
            k
        },
    decreases k,
{
    if k > 0 {
        lemma_visits_le(m, p, k - 1, both);
    }
}

/// The visits of every cell, counted in one pass over the moves.
fn count_visits(m: &[u8], both: bool) -> (walls: Vec<usize>)
    ensures
        walls@.len() == 100,
        forall|p: int| 0 <= p < 100 ==> #[trigger] walls@[p] == visits(m@, p, m@.len() as int, both),
{
    let mut walls: Vec<usize> = Vec::new();
    let mut q: usize = 0;
    while q < 100
        invariant
            q <= 100,
            walls@.len() == q,
            forall|p: int| 0 <= p < q ==> walls@[p] == 0,
        decreases 100 - q,
    {
        walls.push(0);
        q = q + 1;
    }
    let n: usize = m.len();
    let mut pos: u8 = 0;
    let mut k: usize = 0;
    while k < n
        invariant
            n == m@.len(),
            k <= n,
            walls@.len() == 100,
            pos < 100,
            pos == if both {
                walk_both(m@, k as int)
            } else {
                walk(m@, k as int)
            },
            forall|p: int| 0 <= p < 100 ==> #[trigger] walls@[p] == visits(m@, p, k as int, both),
        decreases n - k,
    {
        exec(&mut pos, m[k]);
        if both {
            exec_rev(&mut pos, m[n - 1 - k]);
        }
        proof {
            lemma_visits_le(m@, pos as int, k as int, both);
        }
        let c: usize = walls[pos as usize];
        walls.set(pos as usize, c + 1);
        k = k + 1;
    }
    walls
}

/// The busiest cell among the counts and its visits.
fn busiest_of(walls: &Vec<usize>, Ghost(m): Ghost<Seq<u8>>, Ghost(both): Ghost<bool>) -> (r: (usize, usize))
    requires
        walls@.len() == 100,
        forall|p: int| 0 <= p < 100 ==> #[trigger] walls@[p] == visits(m, p, m.len() as int, both),
    ensures
        r.0 == busiest(m, 100, both),
        r.1 == visits(m, r.0 as int, m.len() as int, both),
        r.0 < 100,
{
    let mut best: usize = 0;
    let mut p: usize = 1;
    while p < 100
        invariant
            1 <= p <= 100,
            best < p,
            walls@.len() == 100,
            forall|p: int| 0 <= p < 100 ==> #[trigger] walls@[p] == visits(m, p, m.len() as int, both),
            best == busiest(m, p as int, both),
        decreases 100 - p,
    {
        if walls[p] > walls[best] {
            best = p;
        }
        p = p + 1;
    }
    (best, walls[best])
}

/// The visits of the busiest cell times its place, 1 to 100.
pub fn solve_part1(input: &[u8]) -> (r: usize)
    requires
        weighted(input@, false) <= usize::MAX,
    ensures
        r == weighted(input@, false),
{
    let (lo, hi) = trim_range(input, 0, input.len());
    let m = vstd::slice::slice_subrange(input, lo, hi);
    proof {
        assert(input@.subrange(0, input@.len() as int) =~= input@);
    }
    let walls = count_visits(m, false);
    let (p, t) = busiest_of(&walls, Ghost(m@), Ghost(false));
    t * (p + 1)
}

/// How many steps leave the two walkers on the same cell.
pub fn solve_part2(input: &[u8]) -> (r: u16)
    requires
        meetings(moves(input@), moves(input@).len() as int) <= u16::MAX,
    ensures
        r == meetings(moves(input@), moves(input@).len() as int),
{
    let (lo, hi) = trim_range(input, 0, input.len());
    let instrs = vstd::slice::slice_subrange(input, lo, hi);
    proof {
        assert(input@.subrange(0, input@.len() as int) =~= input@);
    }
    let ghost m = instrs@;
    let n: usize = instrs.len();
    let mut pos: u8 = 0;
    let mut pos2: u8 = 0;
    let mut temp2: u16 = 0;
    let mut k: usize = 0;
    while k < n
        invariant
            n == m.len(),
            m == instrs@,
            m == moves(input@),
            k <= n,
            pos < 100,
            pos2 < 100,
            pos == walk(m, k as int),
            pos2 == walk_back(m, k as int),
            temp2 == meetings(m, k as int),
            meetings(m, n as int) <= u16::MAX,
        decreases n - k,
    {
        exec(&mut pos, instrs[k]);
        exec(&mut pos2, instrs[n - 1 - k]);
        proof {
            lemma_meetings_monotone(m, k + 1, n as int);
        }
        if pos == pos2 {
            temp2 = temp2 + 1;
        }
        k = k + 1;
    }
    temp2
}

proof fn lemma_meetings_monotone(m: Seq<u8>, a: int, b: int)
    requires
        a <= b,
    ensures
        meetings(m, a) <= meetings(m, b),
    decreases b - a,
{
    if a < b {
        lemma_meetings_monotone(m, a, b - 1);
    }
}

/// The same weighing as part 1 for a walker that takes each move and then the
/// move from the other end, mirrored.
pub fn solve_part3(input: &[u8]) -> (r: u16)
    requires
        forall|p: int| 0 <= p < 100 ==> visits(moves(input@), p, moves(input@).len() as int, true) <= u16::MAX,
        weighted(input@, true) <= u16::MAX,
    ensures
        r == weighted(input@, true),
{
    let (lo, hi) = trim_range(input, 0, input.len());
    let m = vstd::slice::slice_subrange(input, lo, hi);
    proof {
        assert(input@.subrange(0, input@.len() as int) =~= input@);
    }
    let walls = count_visits(m, true);
    let (p, t) = busiest_of(&walls, Ghost(m@), Ghost(true));
    proof {
        assert(walls@[p as int] == visits(m@, p as int, m@.len() as int, true));
    }
    let t16: u16 = t as u16;
    t16 * (p as u16 + 1)
}

/// The three answers.
pub fn solve(input: &[u8]) -> (r: (usize, u16, u16))
    requires
        weighted(input@, false) <= usize::MAX,
        meetings(moves(input@), moves(input@).len() as int) <= u16::MAX,
        forall|p: int| 0 <= p < 100 ==> visits(moves(input@), p, moves(input@).len() as int, true) <= u16::MAX,
        weighted(input@, true) <= u16::MAX,
    ensures
        r.0 == weighted(input@, false),
        r.1 == meetings(moves(input@), moves(input@).len() as int),
        r.2 == weighted(input@, true),
{
    (solve_part1(input), solve_part2(input), solve_part3(input))
}


/// The moves read the same backwards.
pub open spec fn palindrome(m: Seq<u8>) -> bool {
    forall|i: int| 0 <= i < m.len() ==> #[trigger] m[i] == m[m.len() - 1 - i]
}

/// On moves that read the same backwards, the two walkers of part 2 take the
/// same steps, so they meet after every move and part 2 counts all the moves.
pub proof fn law_palindrome_walkers_always_meet(m: Seq<u8>)
    requires
        palindrome(m),
    ensures
        meetings(m, m.len() as int) == m.len(),
{
    assert forall|k: int| 0 <= k <= m.len() implies #[trigger] walk(m, k) == walk_back(m, k) by {
        lemma_palindrome_walks(m, k);
    }
    lemma_meetings_all(m, m.len() as int);
}

proof fn lemma_palindrome_walks(m: Seq<u8>, k: int)
    requires
        palindrome(m),
        0 <= k <= m.len(),
    ensures
        walk(m, k) == walk_back(m, k),
    decreases k,
{
    if k > 0 {
        lemma_palindrome_walks(m, k - 1);
        assert(m[k - 1] == m[m.len() - 1 - (k - 1)]);
    }
}

proof fn lemma_meetings_all(m: Seq<u8>, k: int)
    requires
        0 <= k <= m.len(),
        forall|j: int| 0 <= j <= m.len() ==> #[trigger] walk(m, j) == walk_back(m, j),
    ensures
        meetings(m, k) == k,
    decreases k,
{
    if k > 0 {
        lemma_meetings_all(m, k - 1);
        assert(walk(m, k) == walk_back(m, k));
    }
}

/// Moves made only of `<` and `>`.
pub open spec fn arrows_only(m: Seq<u8>) -> bool {
    forall|i: int| 0 <= i < m.len() ==> #[trigger] m[i] == 60 || m[i] == 62
}

/// A mirrored move undoes the same plain move: `<` and `>` each take the walker
/// one way and their mirrors bring it back.
pub proof fn law_mirrored_move_undoes_move(p: int, b: u8)
    requires
        0 <= p < 100,
        b == 60 || b == 62,
    ensures
        step_rev(step(p, b), b) == p,
{
}

/// On moves of `<` and `>` that read the same backwards, part 3's walker is back on
/// cell 0 after every round, so part 3 answers the number of moves.
pub proof fn law_mirrored_palindrome_stays_home(s: Seq<u8>)
    requires
        palindrome(moves(s)),
        arrows_only(moves(s)),
    ensures
        weighted(s, true) == moves(s).len(),
{
    let m = moves(s);
    let n = m.len() as int;
    assert forall|k: int| 0 <= k <= n implies #[trigger] walk_both(m, k) == 0 by {
        lemma_mirrored_home(m, k);
    }
    assert forall|p: int| 0 <= p < 100 implies #[trigger] visits(m, p, n, true) == (if p == 0 { n } else { 0 }) by {
        lemma_home_visits(m, p, n);
    }
    lemma_home_busiest(m, 100);
    assert(busiest(m, 100, true) == 0);
    assert(visits(m, 0, n, true) == n);
}

proof fn lemma_mirrored_home(m: Seq<u8>, k: int)
    requires
        palindrome(m),
        arrows_only(m),
        0 <= k <= m.len(),
    ensures
        walk_both(m, k) == 0,
    decreases k,
{
    if k > 0 {
        lemma_mirrored_home(m, k - 1);
        assert(m[k - 1] == m[m.len() - 1 - (k - 1)]);
        assert(m[k - 1] == 60 || m[k - 1] == 62);
        law_mirrored_move_undoes_move(0, m[k - 1]);
    }
}

proof fn lemma_home_visits(m: Seq<u8>, p: int, k: int)
    requires
        0 <= k <= m.len(),
        forall|j: int| 0 <= j <= m.len() ==> #[trigger] walk_both(m, j) == 0,
    ensures
        visits(m, p, k, true) == (if p == 0 { k } else { 0 }),
    decreases k,
{
    if k > 0 {
        lemma_home_visits(m, p, k - 1);
        assert(walk_both(m, k) == 0);
    }
}

proof fn lemma_home_busiest(m: Seq<u8>, k: int)
    requires
        1 <= k <= 100,
        forall|p: int| 0 <= p < 100 ==> #[trigger] visits(m, p, m.len() as int, true) == (if p == 0 { m.len() as int } else { 0 }),
    ensures
        busiest(m, k, true) == 0,
    decreases k,
{
    if k > 1 {
        lemma_home_busiest(m, k - 1);
        assert(visits(m, k - 1, m.len() as int, true) == 0);
        assert(visits(m, 0, m.len() as int, true) == m.len());
    }
}

} // verus!
