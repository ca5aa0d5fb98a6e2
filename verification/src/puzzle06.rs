//! A map of lamps. From the start `S`, signals spread through wire cells to the
//! lamps (`*`), switching between two rotations at every step; a lamp lights when
//! the signal reaches it after an even number of steps. The answer reads the lamps
//! in index order as the bits of a number.
//!
//! In part 2 wires may also be `3`, and a lowercase letter sends the signal on to
//! the uppercase letter of the same name. In part 3 a letter pair is removed first
//! when the wire network around its uppercase letter, not counting the letter, has
//! a size that `prime` accepts.
use vstd::prelude::*;
use crate::bfs::{distances, is_distance, reach, reachable, Graph};
use crate::grid::{adjacent, find_marker, grid_neighbours, lemma_cells_len_le, line_count, line_width, load_map, map_cells, map_height, map_width, unique_at, Grid};

verus! {

/// A lamp `*`.
pub open spec fn is_star(b: u8) -> bool {
    b == 42
}

/// A lowercase ASCII letter.
pub open spec fn is_lower(b: u8) -> bool {
    97 <= b && b <= 122
}

/// A cell the part 1 signal may enter: a wire `#` or a lamp.
pub open spec fn passable1(b: u8) -> bool {
    b == 35 || b == 42
}

/// A cell the part 2 signal may enter: a wire `#` or `3`, a lamp, or a lowercase letter.
pub open spec fn passable2(b: u8) -> bool {
    b == 35 || b == 51 || b == 42 || is_lower(b)
}

/// A wire cell of the networks that part 3 measures.
pub open spec fn wire(b: u8) -> bool {
    b == 35 || b == 51
}

/// The signal's edges. Lamps pass nothing on; with `teleports`, a lowercase letter
/// passes the signal to its uppercase letter (when there is one); any other cell
/// passes it to the neighbouring cells it may enter.
pub open spec fn light_edges(c: Seq<u8>, w: int, up: Seq<usize>, teleports: bool) -> spec_fn(int, int) -> bool {
    |i: int, j: int|
        0 <= i < c.len() && 0 <= j < c.len() && !is_star(c[i]) && if teleports && is_lower(c[i]) {
            up[c[i] - 97] != usize::MAX && j == up[c[i] - 97] as int
        } else {
            adjacent(w, c.len() as int, i, j) && if teleports {
                passable2(c[j])
            } else {
                passable1(c[j])
            }
        }
}

/// The edges of the wire networks: to a neighbouring wire cell.
pub open spec fn wire_edges(c: Seq<u8>, w: int) -> spec_fn(int, int) -> bool {
    |i: int, j: int| 0 <= i < c.len() && 0 <= j < c.len() && adjacent(w, c.len() as int, i, j) && wire(c[j])
}

/// The signal graph of a map.
struct LightGraph<'a> {
    cells: &'a Vec<u8>,
    width: usize,
    upper: &'a Vec<usize>,
    teleports: bool,
}

impl<'a> LightGraph<'a> {
    #[verifier::type_invariant]
    spec fn inv(&self) -> bool {
        &&& self.width >= 1
        &&& self.cells@.len() as int % self.width as int == 0
        &&& self.cells@.len() < usize::MAX
        &&& self.upper@.len() == 26
    }

    fn new(cells: &'a Vec<u8>, width: usize, upper: &'a Vec<usize>, teleports: bool) -> (g: LightGraph<'a>)
        requires
            width >= 1,
            cells@.len() as int % width as int == 0,
            cells@.len() < usize::MAX,
            upper@.len() == 26,
        ensures
            g.size() == cells@.len(),
            g.edges() == light_edges(cells@, width as int, upper@, teleports),
    {
        LightGraph { cells, width, upper, teleports }
    }
}

impl<'a> Graph for LightGraph<'a> {
    closed spec fn size(&self) -> nat {
        self.cells@.len()
    }

    closed spec fn edges(&self) -> spec_fn(int, int) -> bool {
        light_edges(self.cells@, self.width as int, self.upper@, self.teleports)
    }

    fn node_count(&self) -> (n: usize) {
        self.cells.len()
    }

    fn neighbours(&self, i: usize) -> (r: Vec<usize>) {
        proof {
            use_type_invariant(self);
        }
        let n: usize = self.cells.len();
        let b: u8 = self.cells[i];
        let mut r: Vec<usize> = Vec::new();
        if b == 42 {
            return r;
        }
        if self.teleports && 97 <= b && b <= 122 {
            let u: usize = self.upper[(b - 97) as usize];
            if u != usize::MAX && u < n {
                r.push(u);
                proof {
                    assert(r@[0] as int == u as int);
                }
            }
            return r;
        }
        let nb = grid_neighbours(self.width, n, i);
        let mut k: usize = 0;
        while k < nb.len()
            invariant
                i < n == self.cells@.len(),
                !is_star(self.cells@[i as int]),
                !(self.teleports && is_lower(self.cells@[i as int])),
                forall|q: int| 0 <= q < nb@.len() ==> #[trigger] nb@[q] < n && adjacent(self.width as int, n as int, i as int, nb@[q] as int),
                forall|j: int| adjacent(self.width as int, n as int, i as int, j) ==> exists|q: int| 0 <= q < nb@.len() && nb@[q] as int == j,
                k <= nb@.len(),
                forall|q: int| 0 <= q < r@.len() ==> #[trigger] r@[q] < n && (self.edges())(i as int, r@[q] as int),
                forall|j: int| 0 <= j < n && (exists|q: int| 0 <= q < k && nb@[q] as int == j) && #[trigger] (self.edges())(i as int, j) ==> exists|q: int| 0 <= q < r@.len() && r@[q] as int == j,
            decreases nb@.len() - k,
        {
            let j: usize = nb[k];
            let cj: u8 = self.cells[j];
            let ok: bool = if self.teleports {
                cj == 35 || cj == 51 || cj == 42 || (97 <= cj && cj <= 122)
            } else {
                cj == 35 || cj == 42
            };
            let ghost r_before = r@;
            if ok {
                r.push(j);
            }
            proof {
                assert forall|x: int| 0 <= x < n && (exists|q: int| 0 <= q < k + 1 && nb@[q] as int == x) && #[trigger] (self.edges())(i as int, x) implies exists|q: int| 0 <= q < r@.len() && r@[q] as int == x by {
                    let q0 = choose|q: int| 0 <= q < k + 1 && nb@[q] as int == x;
                    if q0 < k {
                        let q1 = choose|q: int| 0 <= q < r_before.len() && r_before[q] as int == x;
                        assert(r@[q1] == r_before[q1]);
                    } else {
                        assert(r@[r@.len() - 1] as int == x);
                    }
                }
            }
            k = k + 1;
        }
        r
    }
}

/// The wire-network graph of a map.
struct WireGraph<'a> {
    cells: &'a Vec<u8>,
    width: usize,
}

impl<'a> WireGraph<'a> {
    #[verifier::type_invariant]
    spec fn inv(&self) -> bool {
        &&& self.width >= 1
        &&& self.cells@.len() as int % self.width as int == 0
        &&& self.cells@.len() < usize::MAX
    }

    fn new(cells: &'a Vec<u8>, width: usize) -> (g: WireGraph<'a>)
        requires
            width >= 1,
            cells@.len() as int % width as int == 0,
            cells@.len() < usize::MAX,
        ensures
            g.size() == cells@.len(),
            g.edges() == wire_edges(cells@, width as int),
    {
        WireGraph { cells, width }
    }
}

impl<'a> Graph for WireGraph<'a> {
    closed spec fn size(&self) -> nat {
        self.cells@.len()
    }

    closed spec fn edges(&self) -> spec_fn(int, int) -> bool {
        wire_edges(self.cells@, self.width as int)
    }

    fn node_count(&self) -> (n: usize) {
        self.cells.len()
    }

    fn neighbours(&self, i: usize) -> (r: Vec<usize>) {
        proof {
            use_type_invariant(self);
        }
        let n: usize = self.cells.len();
        let nb = grid_neighbours(self.width, n, i);
        let mut r: Vec<usize> = Vec::new();
        let mut k: usize = 0;
        while k < nb.len()
            invariant
                i < n == self.cells@.len(),
                forall|q: int| 0 <= q < nb@.len() ==> #[trigger] nb@[q] < n && adjacent(self.width as int, n as int, i as int, nb@[q] as int),
                forall|j: int| adjacent(self.width as int, n as int, i as int, j) ==> exists|q: int| 0 <= q < nb@.len() && nb@[q] as int == j,
                k <= nb@.len(),
                forall|q: int| 0 <= q < r@.len() ==> #[trigger] r@[q] < n && (self.edges())(i as int, r@[q] as int),
                forall|j: int| 0 <= j < n && (exists|q: int| 0 <= q < k && nb@[q] as int == j) && #[trigger] (self.edges())(i as int, j) ==> exists|q: int| 0 <= q < r@.len() && r@[q] as int == j,
            decreases nb@.len() - k,
        {
            let j: usize = nb[k];
            let cj: u8 = self.cells[j];
            let ghost r_before = r@;
            if cj == 35 || cj == 51 {
                r.push(j);
            }
            proof {
                assert forall|x: int| 0 <= x < n && (exists|q: int| 0 <= q < k + 1 && nb@[q] as int == x) && #[trigger] (self.edges())(i as int, x) implies exists|q: int| 0 <= q < r@.len() && r@[q] as int == x by {
                    let q0 = choose|q: int| 0 <= q < k + 1 && nb@[q] as int == x;
                    if q0 < k {
                        let q1 = choose|q: int| 0 <= q < r_before.len() && r_before[q] as int == x;
                        assert(r@[q1] == r_before[q1]);
                    } else {
                        assert(r@[r@.len() - 1] as int == x);
                    }
                }
            }
            k = k + 1;
        }
        r
    }
}


/// The last index below `k` that holds `b`, or `usize::MAX` if none does.
pub open spec fn last_pos(c: Seq<u8>, b: u8, k: int) -> usize
    decreases k,
{
    if k <= 0 {
        usize::MAX
    } else if c[k - 1] == b {
        (k - 1) as usize
    } else {
        last_pos(c, b, k - 1)
    }
}

/// For each letter, the last cell that holds it in uppercase and in lowercase.
fn letter_positions(cells: &Vec<u8>) -> (r: (Vec<usize>, Vec<usize>))
    requires
        cells@.len() < usize::MAX,
    ensures
        r.0@.len() == 26,
        r.1@.len() == 26,
        forall|k: int| 0 <= k < 26 ==> #[trigger] r.0@[k] == last_pos(cells@, (65 + k) as u8, cells@.len() as int),
        forall|k: int| 0 <= k < 26 ==> #[trigger] r.1@[k] == last_pos(cells@, (97 + k) as u8, cells@.len() as int),
{
    let mut upper: Vec<usize> = Vec::new();
    let mut lower: Vec<usize> = Vec::new();
    let mut k: usize = 0;
    while k < 26
        invariant
            k <= 26,
            upper@ =~= Seq::new(k as nat, |q: int| usize::MAX),
            lower@ =~= Seq::new(k as nat, |q: int| usize::MAX),
        decreases 26 - k,
    {
        upper.push(usize::MAX);
        lower.push(usize::MAX);
        k = k + 1;
    }
    let mut idx: usize = 0;
    while idx < cells.len()
        invariant
            idx <= cells@.len() < usize::MAX,
            upper@.len() == 26,
            lower@.len() == 26,
            forall|q: int| 0 <= q < 26 ==> #[trigger] upper@[q] == last_pos(cells@, (65 + q) as u8, idx as int),
            forall|q: int| 0 <= q < 26 ==> #[trigger] lower@[q] == last_pos(cells@, (97 + q) as u8, idx as int),
        decreases cells@.len() - idx,
    {
        let cell: u8 = cells[idx];
        if cell >= 65 && cell <= 90 {
            upper.set((cell - 65) as usize, idx);
        } else if cell >= 97 && cell <= 122 {
            lower.set((cell - 97) as usize, idx);
        }
        idx = idx + 1;
    }
    (upper, lower)
}

/// The length of a path: a small number (below 3) or one with no divisor other
/// than 1 and itself.
pub open spec fn prime_len(n: int) -> bool {
    n < 3 || forall|d: int| 2 <= d < n ==> #[trigger] (n % d) != 0
}

/// Whether `len` is below 3 or prime, by trial division with odd numbers up to its
/// square root.
pub fn prime(len: usize) -> (r: bool)
    ensures
        r == prime_len(len as int),
{
    if len < 3 {
        return true;
    }
    if len % 2 == 0 {
        assert((len as int) % 2 == 0);
        return false;
    }
    let mut n: usize = 3;
    while n <= len / n
        invariant
            3 <= n,
            n % 2 == 1,
            len >= 3,
            len % 2 == 1,
            forall|d: int| 2 <= d < n ==> #[trigger] ((len as int) % d) != 0,
        decreases len - n,
    {
        proof {
            assert(n * 3 <= len) by (nonlinear_arith)
                requires
                    n <= len / n,
                    n >= 3,
            {
            }
        }
        if len % n == 0 {
            proof {
                assert(2 <= n < len);
                assert((len as int) % (n as int) == 0);
            }
            return false;
        }
        proof {
            assert forall|d: int| 2 <= d < n + 2 implies #[trigger] ((len as int) % d) != 0 by {
                if d == n + 1 {
                    lemma_odd_not_even_multiple(len as int, d);
                }
            }
        }
        n = n + 2;
    }
    proof {
        assert forall|d: int| 2 <= d < len implies #[trigger] ((len as int) % d) != 0 by {
            if d >= n && (len as int) % d == 0 {
                lemma_small_cofactor(len as int, n as int, d);
            }
        }
    }
    true
}

/// An odd number has no even divisor.
proof fn lemma_odd_not_even_multiple(m: int, d: int)
    requires
        m % 2 == 1,
        d >= 2,
        d % 2 == 0,
    ensures
        m % d != 0,
{
    if m % d == 0 {
        vstd::arithmetic::div_mod::lemma_fundamental_div_mod(m, d);
        let q = m / d;
        let h = d / 2;
        assert(m == 2 * (h * q)) by (nonlinear_arith)
            requires
                m == d * q,
                d == 2 * h,
        {
        }
        assert(m % 2 == 0) by {
            vstd::arithmetic::div_mod::lemma_mod_multiples_basic(h * q, 2);
        }
    }
}

/// With `n * n > m` and no divisor of `m` below `n`, no `d` with `n <= d < m`
/// divides `m` either: its cofactor would be a smaller divisor.
proof fn lemma_small_cofactor(m: int, n: int, d: int)
    requires
        n >= 3,
        m >= 3,
        n > m / n,
        n <= d < m,
        forall|e: int| 2 <= e < n ==> #[trigger] (m % e) != 0,
    ensures
        m % d != 0,
{
    if m % d == 0 {
        vstd::arithmetic::div_mod::lemma_fundamental_div_mod(m, d);
        vstd::arithmetic::div_mod::lemma_fundamental_div_mod(m, n);
        let q = m / d;
        assert(m == d * q);
        assert(q >= 2) by (nonlinear_arith)
            requires
                m == d * q,
                d < m,
                d >= 3,
        {
        }
        assert(q < n) by (nonlinear_arith)
            requires
                m == d * q,
                d >= n,
                m == n * (m / n) + m % n,
                0 <= m % n < n,
                n > m / n,
                n >= 3,
        {
        }
        assert(m % q == 0) by {
            vstd::arithmetic::div_mod::lemma_mod_multiples_basic(d, q);
            assert(d * q == q * d) by (nonlinear_arith);
        }
        assert((m % q) != 0);
    }
}


/// The fewest edges from `start` to a reachable `j`.
pub open spec fn dist_of(n: nat, e: spec_fn(int, int) -> bool, start: int, j: int) -> nat {
    choose|d: nat| reach(n, e, start, d).contains(j) && forall|k: nat| k < d ==> !#[trigger] reach(n, e, start, k).contains(j)
}

proof fn lemma_dist_of(n: nat, e: spec_fn(int, int) -> bool, start: int, j: int, v: usize)
    requires
        is_distance(n, e, start, j, v),
        v != usize::MAX,
    ensures
        dist_of(n, e, start, j) == v,
        reachable(n, e, start, j),
{
    let d = dist_of(n, e, start, j);
    assert(reach(n, e, start, v as nat).contains(j));
    if d < v {
        assert(!reach(n, e, start, d).contains(j));
    } else if d > v {
        assert(!reach(n, e, start, v as nat).contains(j));
    }
}

/// The number the lamps below index `k` spell: in index order, one bit per lamp
/// that the signal reaches, set when it arrives after an even number of steps.
pub open spec fn lamp_bits(c: Seq<u8>, e: spec_fn(int, int) -> bool, start: int, k: int) -> u64
    decreases k,
{
    if k <= 0 {
        0
    } else {
        let acc = lamp_bits(c, e, start, k - 1);
        let j = k - 1;
        if is_star(c[j]) && reachable(c.len(), e, start, j) {
            (acc << 1u64) | if dist_of(c.len(), e, start, j) % 2 == 0 { 1u64 } else { 0u64 }
        } else {
            acc
        }
    }
}

/// One more cell read: a lamp that the signal reaches adds its bit.
proof fn lemma_lamp_step(c: Seq<u8>, e: spec_fn(int, int) -> bool, start: int, j: int, v: usize)
    requires
        0 <= j < c.len(),
        is_distance(c.len(), e, start, j, v),
    ensures
        lamp_bits(c, e, start, j + 1) == if c[j] == 42 && v != usize::MAX {
            (lamp_bits(c, e, start, j) << 1u64) | if v % 2 == 0 { 1u64 } else { 0u64 }
        } else {
            lamp_bits(c, e, start, j)
        },
{
    if v != usize::MAX {
        lemma_dist_of(c.len(), e, start, j, v);
    } else {
        assert(!reachable(c.len(), e, start, j));
    }
}

/// Spreads the signal from `start` and reads the lamps.
fn lamp_value(cells: &Vec<u8>, width: usize, upper: &Vec<usize>, teleports: bool, start: usize) -> (r: u64)
    requires
        width >= 1,
        cells@.len() as int % width as int == 0,
        cells@.len() < usize::MAX,
        upper@.len() == 26,
        start < cells@.len(),
    ensures
        r == lamp_bits(cells@, light_edges(cells@, width as int, upper@, teleports), start as int, cells@.len() as int),
{
    let g = LightGraph::new(cells, width, upper, teleports);
    let ghost e = light_edges(cells@, width as int, upper@, teleports);
    let dist = distances(&g, start);
    let n: usize = cells.len();
    let mut acc: u64 = 0;
    let mut j: usize = 0;
    while j < n
        invariant
            n == cells@.len(),
            dist@.len() == n,
            forall|q: int| 0 <= q < n ==> is_distance(n as nat, e, start as int, q, #[trigger] dist@[q]),
            j <= n,
            acc == lamp_bits(cells@, e, start as int, j as int),
        decreases n - j,
    {
        proof {
            assert(is_distance(n as nat, e, start as int, j as int, dist@[j as int]));
            lemma_lamp_step(cells@, e, start as int, j as int, dist@[j as int]);
        }
        if cells[j] == 42 && dist[j] != usize::MAX {
            let bit: u64 = if dist[j] % 2 == 0 { 1 } else { 0 };
            acc = (acc << 1u64) | bit;
        }
        j = j + 1;
    }
    acc
}

/// The positions of the uppercase letters of a map, by letter.
pub open spec fn uppers(c: Seq<u8>) -> Seq<usize> {
    Seq::new(26, |k: int| last_pos(c, (65 + k) as u8, c.len() as int))
}

/// The positions of the lowercase letters of a map, by letter.
pub open spec fn lowers(c: Seq<u8>) -> Seq<usize> {
    Seq::new(26, |k: int| last_pos(c, (97 + k) as u8, c.len() as int))
}

/// The start cell of a valid input.
pub open spec fn start_of(s: Seq<u8>) -> int {
    choose|i: int| unique_at(map_cells(s), 83, i)
}

/// What the puzzle asks of its input: a rectangular map with exactly one `S`.
pub open spec fn lamp_map_ok(s: Seq<u8>) -> bool {
    &&& map_height(s) is Some
    &&& exists|i: int| unique_at(map_cells(s), 83, i)
    &&& s.len() < usize::MAX
}

/// The signal graph of the input's map.
pub open spec fn signal(c: Seq<u8>, w: int, teleports: bool) -> spec_fn(int, int) -> bool {
    light_edges(c, w, uppers(c), teleports)
}

struct LampMap {
    grid: Grid,
    start: usize,
    upper: Vec<usize>,
    lower: Vec<usize>,
}

fn read_lamps(input: &[u8]) -> (m: LampMap)
    requires
        lamp_map_ok(input@),
    ensures
        m.grid.wf(),
        m.grid.of(input@),
        m.grid.cells@.len() < usize::MAX,
        m.start == start_of(input@),
        m.start < m.grid.cells@.len(),
        m.upper@ == uppers(m.grid.cells@),
        m.lower@ == lowers(m.grid.cells@),
{
    let width: usize = line_width(input);
    let height: usize = line_count(input);
    proof {
        lemma_cells_len_le(input@);
    }
    let grid = load_map(input, width, height);
    let start: usize = find_marker(&grid.cells, 83);
    proof {
        let c = map_cells(input@);
        let w = choose|i: int| unique_at(c, 83, i);
        assert(unique_at(c, 83, start as int));
    }
    let (upper, lower) = letter_positions(&grid.cells);
    assert(upper@ =~= uppers(grid.cells@));
    assert(lower@ =~= lowers(grid.cells@));
    LampMap { grid, start, upper, lower }
}

proof fn lemma_grid_divides(g: &Grid)
    requires
        g.wf(),
    ensures
        g.cells@.len() as int % g.width as int == 0,
{
    vstd::arithmetic::div_mod::lemma_mod_multiples_basic(g.height as int, g.width as int);
    assert(g.height * g.width == g.width * g.height) by (nonlinear_arith);
}

/// Part 1: the lamp number when the signal travels through `#` wires only.
pub open spec fn part1_answer(s: Seq<u8>) -> u64 {
    let c = map_cells(s);
    lamp_bits(c, signal(c, map_width(s) as int, false), start_of(s), c.len() as int)
}

/// Part 2: a reachable lowercase letter always has its uppercase letter.
pub open spec fn teleports_ok(c: Seq<u8>, w: int, start: int) -> bool {
    forall|j: int| #[trigger] reachable(c.len(), signal(c, w, true), start, j) && 0 <= j < c.len() && is_lower(c[j])
        ==> uppers(c)[c[j] - 97] != usize::MAX
}

/// Part 2: the lamp number with `3` wires and letter jumps.
pub open spec fn part2_answer(s: Seq<u8>) -> u64 {
    let c = map_cells(s);
    lamp_bits(c, signal(c, map_width(s) as int, true), start_of(s), c.len() as int)
}

/// The lamp number when the signal travels through `#` and `*` cells.
pub fn solve_part1(input: &[u8]) -> (r: u64)
    requires
        lamp_map_ok(input@),
    ensures
        r == part1_answer(input@),
{
    let m = read_lamps(input);
    proof {
        lemma_grid_divides(&m.grid);
    }
    lamp_value(&m.grid.cells, m.grid.width, &m.upper, false, m.start)
}

/// The lamp number with `3` wires and jumps from lowercase to uppercase letters.
pub fn solve_part2(input: &[u8]) -> (r: u64)
    requires
        lamp_map_ok(input@),
        teleports_ok(map_cells(input@), map_width(input@) as int, start_of(input@)),
    ensures
        r == part2_answer(input@),
{
    let m = read_lamps(input);
    proof {
        lemma_grid_divides(&m.grid);
    }
    do_solve(&m.grid.cells, m.grid.width, &m.upper, m.start)
}

/// The lamp number of a map with `3` wires and letter jumps; the jumps go to the
/// uppercase positions `upper`.
fn do_solve(cells: &Vec<u8>, width: usize, upper: &Vec<usize>, start: usize) -> (r: u64)
    requires
        width >= 1,
        cells@.len() as int % width as int == 0,
        cells@.len() < usize::MAX,
        upper@.len() == 26,
        start < cells@.len(),
    ensures
        r == lamp_bits(cells@, light_edges(cells@, width as int, upper@, true), start as int, cells@.len() as int),
{
    lamp_value(cells, width, upper, true, start)
}


/// The cells of the wire network around `u`, `u` included.
pub open spec fn network(c: Seq<u8>, w: int, u: int) -> Set<int> {
    Set::new(|j: int| 0 <= j < c.len() && reachable(c.len(), wire_edges(c, w), u, j))
}

/// The map after the first `k` letters were considered for removal. A letter goes
/// (its uppercase and lowercase cells become `.`) when its uppercase cell exists, is
/// not the start, and the size of its wire network, less the letter, passes `prime`.
pub open spec fn cleared(c0: Seq<u8>, w: int, k: nat) -> Seq<u8>
    decreases k,
{
    if k == 0 {
        c0
    } else {
        let prev = cleared(c0, w, (k - 1) as nat);
        let u = uppers(c0)[k - 1];
        let l = lowers(c0)[k - 1];
        if u == usize::MAX || c0[u as int] == 83 {
            prev
        } else if prime_len(network(prev, w, u as int).len() - 1) {
            prev.update(u as int, 46).update(l as int, 46)
        } else {
            prev
        }
    }
}

proof fn lemma_cleared_len(c0: Seq<u8>, w: int, k: nat)
    requires
        k <= 26,
        removals_ok(c0, w),
    ensures
        cleared(c0, w, k).len() == c0.len(),
    decreases k,
{
    if k > 0 {
        let j = (k - 1) as nat;
        lemma_cleared_len(c0, w, j);
        lemma_last_pos_bound(c0, (65 + j) as u8, c0.len() as int);
        lemma_last_pos_bound(c0, (97 + j) as u8, c0.len() as int);
        assert(uppers(c0)[j as int] == last_pos(c0, (65 + j) as u8, c0.len() as int));
        assert(lowers(c0)[j as int] == last_pos(c0, (97 + j) as u8, c0.len() as int));
    }
}

/// A letter pair is removed exactly when the wire network of its uppercase cell,
/// not counting that cell itself, has a prime number of cells or fewer than 3: the
/// network holds the letter's cell, and the letter goes when the rest passes the
/// test (so a network of 4 cells goes, one of 5 stays).
pub proof fn law_letter_removed_when_rest_is_prime(c0: Seq<u8>, w: int, k: nat)
    requires
        k < 26,
        removals_ok(c0, w),
        uppers(c0)[k as int] != usize::MAX,
        c0[uppers(c0)[k as int] as int] != 83,
    ensures
        ({
            let prev = cleared(c0, w, k);
            let u = uppers(c0)[k as int] as int;
            let l = lowers(c0)[k as int] as int;
            let rest = network(prev, w, u).remove(u);
            &&& network(prev, w, u).contains(u)
            &&& rest.finite()
            &&& rest.len() == network(prev, w, u).len() - 1
            &&& cleared(c0, w, k + 1) == if prime_len(rest.len() as int) {
                prev.update(u, 46).update(l, 46)
            } else {
                prev
            }
        }),
{
    let prev = cleared(c0, w, k);
    let u = uppers(c0)[k as int] as int;
    let net = network(prev, w, u);
    lemma_cleared_len(c0, w, k);
    lemma_last_pos_bound(c0, (65 + k) as u8, c0.len() as int);
    assert(u == last_pos(c0, (65 + k) as u8, c0.len() as int));
    assert(0 <= u < prev.len());
    assert(reach(prev.len(), wire_edges(prev, w), u, 0).contains(u));
    assert(net.contains(u));
    assert(net.subset_of(vstd::set_lib::set_int_range(0, prev.len() as int)));
    vstd::set_lib::lemma_int_range(0, prev.len() as int);
    vstd::set_lib::lemma_len_subset(net, vstd::set_lib::set_int_range(0, prev.len() as int));
    assert(net.finite());
    assert(((k + 1) as nat - 1) as nat == k);
}

/// Every letter that is removed has its lowercase cell.
pub open spec fn removals_ok(c0: Seq<u8>, w: int) -> bool {
    forall|k: nat| k < 26 && #[trigger] uppers(c0)[k as int] != usize::MAX && c0[uppers(c0)[k as int] as int] != 83
        && prime_len(network(cleared(c0, w, k), w, uppers(c0)[k as int] as int).len() - 1)
        ==> lowers(c0)[k as int] != usize::MAX
}

/// Part 3: the part 2 lamp number of the map after the removals.
pub open spec fn part3_answer(s: Seq<u8>) -> u64 {
    let c = map_cells(s);
    let w = map_width(s) as int;
    let m = cleared(c, w, 26);
    lamp_bits(m, light_edges(m, w, uppers(c), true), start_of(s), c.len() as int)
}

/// The size of the wire network around `u`.
fn network_size(cells: &Vec<u8>, width: usize, u: usize) -> (r: usize)
    requires
        width >= 1,
        cells@.len() as int % width as int == 0,
        cells@.len() < usize::MAX,
        u < cells@.len(),
    ensures
        r == network(cells@, width as int, u as int).len(),
        r >= 1,
{
    let g = WireGraph::new(cells, width);
    let ghost e = wire_edges(cells@, width as int);
    let dist = distances(&g, u);
    let n: usize = cells.len();
    let mut count: usize = 0;
    let mut j: usize = 0;
    let ghost mut found: Set<int> = Set::empty();
    while j < n
        invariant
            n == cells@.len(),
            dist@.len() == n,
            forall|q: int| 0 <= q < n ==> is_distance(n as nat, e, u as int, q, #[trigger] dist@[q]),
            j <= n,
            found == Set::new(|q: int| 0 <= q < j && dist@[q] != usize::MAX),
            found.finite(),
            count == found.len(),
            count <= j,
        decreases n - j,
    {
        if dist[j] != usize::MAX {
            proof {
                assert(Set::new(|q: int| 0 <= q < j + 1 && dist@[q] != usize::MAX) =~= found.insert(j as int));
                found = found.insert(j as int);
            }
            count = count + 1;
        } else {
            proof {
                assert(Set::new(|q: int| 0 <= q < j + 1 && dist@[q] != usize::MAX) =~= found);
            }
        }
        j = j + 1;
    }
    proof {
        assert(found =~= network(cells@, width as int, u as int)) by {
            assert forall|q: int| 0 <= q < n implies (dist@[q] != usize::MAX <==> reachable(n as nat, e, u as int, q)) by {
                assert(is_distance(n as nat, e, u as int, q, dist@[q]));
                if dist@[q] != usize::MAX {
                    lemma_dist_of(n as nat, e, u as int, q, dist@[q]);
                }
            }
        }
        assert(dist@[u as int] != usize::MAX) by {
            assert(is_distance(n as nat, e, u as int, u as int, dist@[u as int]));
            assert(reach(n as nat, e, u as int, 0).contains(u as int));
        }
        assert(found.contains(u as int));
        assert(found.len() >= 1);
    }
    count
}

/// The lamp number after removing the letter pairs whose networks pass `prime`.
pub fn solve_part3(input: &[u8]) -> (r: u64)
    requires
        lamp_map_ok(input@),
        removals_ok(map_cells(input@), map_width(input@) as int),
        teleports_ok(cleared(map_cells(input@), map_width(input@) as int, 26), map_width(input@) as int, start_of(input@)),
    ensures
        r == part3_answer(input@),
{
    let m = read_lamps(input);
    proof {
        lemma_grid_divides(&m.grid);
    }
    let ghost c0 = m.grid.cells@;
    let ghost w = m.grid.width as int;
    let mut map: Vec<u8> = m.grid.cells.clone();
    assert(map@ =~= c0);
    let mut k: usize = 0;
    while k < 26
        invariant
            k <= 26,
            map@.len() == c0.len(),
            map@ == cleared(c0, w, k as nat),
            c0 == m.grid.cells@,
            w == m.grid.width as int,
            m.grid.wf(),
            c0.len() as int % w == 0,
            c0.len() < usize::MAX,
            m.upper@ == uppers(c0),
            m.lower@ == lowers(c0),
            removals_ok(c0, w),
        decreases 26 - k,
    {
        let u: usize = m.upper[k];
        let l: usize = m.lower[k];
        proof {
            lemma_last_pos_bound(c0, (65 + k) as u8, c0.len() as int);
            lemma_last_pos_bound(c0, (97 + k) as u8, c0.len() as int);
        }
        if u == usize::MAX || m.grid.cells[u] == 83 {
        } else {
            let len: usize = network_size(&map, m.grid.width, u);
            if prime(len - 1) {
                proof {
                    assert(lowers(c0)[k as int] != usize::MAX);
                }
                map.set(u, 46);
                map.set(l, 46);
            }
        }
        k = k + 1;
    }
    do_solve(&map, m.grid.width, &m.upper, m.start)
}

proof fn lemma_last_pos_bound(c: Seq<u8>, b: u8, k: int)
    requires
        0 <= k <= c.len(),
    ensures
        last_pos(c, b, k) == usize::MAX || last_pos(c, b, k) < k,
    decreases k,
{
    if k > 0 {
        lemma_last_pos_bound(c, b, k - 1);
    }
}

/// The three answers.
pub fn solve(input: &[u8]) -> (r: (u64, u64, u64))
    requires
        lamp_map_ok(input@),
        teleports_ok(map_cells(input@), map_width(input@) as int, start_of(input@)),
        removals_ok(map_cells(input@), map_width(input@) as int),
        teleports_ok(cleared(map_cells(input@), map_width(input@) as int, 26), map_width(input@) as int, start_of(input@)),
    ensures
        r.0 == part1_answer(input@),
        r.1 == part2_answer(input@),
        r.2 == part3_answer(input@),
{
    (solve_part1(input), solve_part2(input), solve_part3(input))
}

} // verus!
