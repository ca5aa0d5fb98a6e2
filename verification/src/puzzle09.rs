//! A maze with a solid wall border, a start `S` and an end `E`. Part 1 walks
//! between neighbouring cells; part 2 may also slide to the last open cell before
//! a wall in each direction; part 3 prices such slides by whether the walker
//! arrived by one.
use vstd::prelude::*;
use crate::grid::{find_unique, lemma_cells_len_le, line_width, row_count, load_map, map_cells, map_height, map_width, unique_at, Grid};
use crate::seen::Seen;

verus! {

/// The wall byte `'#'`.
pub open spec fn is_wall(b: u8) -> bool {
    b == 35
}

/// Every cell on the border of the `w` by `h` map is a wall.
pub open spec fn walled(c: Seq<u8>, w: nat, h: nat) -> bool {
    forall|i: int| 0 <= i < w * h && (i % (w as int) == 0 || i % (w as int) == w - 1 || i / (w as int) == 0 || i / (w as int) == h - 1)
        ==> is_wall(#[trigger] c[i])
}

/// A maze read from the input.
pub struct Maze {
    pub grid: Grid,
    pub start: usize,
    pub end: usize,
}

/// What the puzzle asks of its input: a rectangular map with a wall border and
/// exactly one `S` and one `E`.
pub open spec fn maze_ok(s: Seq<u8>) -> bool {
    &&& map_height(s) is Some
    &&& walled(map_cells(s), map_width(s), map_height(s)->0)
    &&& exists|i: int| unique_at(map_cells(s), 83, i)
    &&& exists|i: int| unique_at(map_cells(s), 69, i)
}

impl Maze {
    pub open spec fn wf(&self) -> bool {
        &&& self.grid.wf()
        &&& walled(self.grid.cells@, self.grid.width as nat, self.grid.height as nat)
        &&& unique_at(self.grid.cells@, 83, self.start as int)
        &&& unique_at(self.grid.cells@, 69, self.end as int)
    }

    /// The maze is the one that the text `s` describes.
    pub open spec fn of(&self, s: Seq<u8>) -> bool {
        self.grid.of(s)
    }
}

/// Checks that every border cell is a wall.
fn check_border(g: &Grid) -> (r: bool)
    requires
        g.wf(),
    ensures
        r == walled(g.cells@, g.width as nat, g.height as nat),
{
    let n: usize = g.cells.len();
    let w: usize = g.width;
    let h: usize = g.height;
    let mut i: usize = 0;
    while i < n
        invariant
            n == g.cells@.len() == w * h,
            w == g.width,
            h == g.height,
            w >= 1,
            i <= n,
            forall|j: int| 0 <= j < i && (j % (w as int) == 0 || j % (w as int) == w - 1 || j / (w as int) == 0 || j / (w as int) == h - 1)
                ==> is_wall(#[trigger] g.cells@[j]),
        decreases n - i,
    {
        let y: usize = i / w;
        let x: usize = i % w;
        if (x == 0 || x == w - 1 || y == 0 || y == h - 1) && g.cells[i] != 35 {
            return false;
        }
        i = i + 1;
    }
    true
}

/// Reads the maze, or `None` where the input breaks a rule of `maze_ok`: whether the
/// input is a maze, and the maze.
pub fn check_maze(input: &[u8]) -> (r: Option<Maze>)
    ensures
        r is Some <==> maze_ok(input@),
        r matches Some(m) ==> m.wf() && m.of(input@),
{
    let height: usize = match row_count(input) {
        None => {
            return None;
        },
        Some(h) => h,
    };
    let width: usize = line_width(input);
    let grid = load_map(input, width, height);
    if !check_border(&grid) {
        return None;
    }
    let start: usize = match find_unique(&grid.cells, 83) {
        None => {
            return None;
        },
        Some(i) => i,
    };
    let end: usize = match find_unique(&grid.cells, 69) {
        None => {
            return None;
        },
        Some(i) => i,
    };
    Some(Maze { grid, start, end })
}

/// Reads a maze: a map with a wall border and exactly one `S` and one `E`.
pub fn parse_maze(input: &[u8]) -> (m: Maze)
    requires
        maze_ok(input@),
    ensures
        m.wf(),
        m.of(input@),
{
    match check_maze(input) {
        Some(m) => m,
        None => {
            proof {
                assert(false);
            }
            Maze { grid: Grid { cells: Vec::new(), width: 0, height: 0 }, start: 0, end: 0 }
        },
    }
}


/// A cell that exists and is not a wall.
pub open spec fn open_cell(c: Seq<u8>, j: int) -> bool {
    0 <= j < c.len() && !is_wall(c[j])
}

/// The last cell reached going right from `i` before a wall.
pub open spec fn slide_right(c: Seq<u8>, i: int) -> int
    decreases c.len() - i,
{
    if i + 1 >= c.len() || is_wall(c[i + 1]) {
        i
    } else {
        slide_right(c, i + 1)
    }
}

/// The last cell reached going left from `i` before a wall.
pub open spec fn slide_left(c: Seq<u8>, i: int) -> int
    decreases i,
{
    if i <= 0 || is_wall(c[i - 1]) {
        i
    } else {
        slide_left(c, i - 1)
    }
}

/// The last cell reached going down from `i` before a wall.
pub open spec fn slide_down(c: Seq<u8>, w: int, i: int) -> int
    decreases c.len() - i,
{
    if w <= 0 || i + w >= c.len() || is_wall(c[i + w]) {
        i
    } else {
        slide_down(c, w, i + w)
    }
}

/// The last cell reached going up from `i` before a wall.
pub open spec fn slide_up(c: Seq<u8>, w: int, i: int) -> int
    decreases i,
{
    if w <= 0 || i - w < 0 || is_wall(c[i - w]) {
        i
    } else {
        slide_up(c, w, i - w)
    }
}

/// The cells a walker at `i` may move to in one step (when they are open): the four
/// neighbours and, with `portals`, the four cells reached by sliding.
pub open spec fn moves(c: Seq<u8>, w: int, portals: bool, i: int) -> Seq<int> {
    if portals {
        seq![i - w, i + w, i - 1, i + 1, slide_right(c, i), slide_left(c, i), slide_down(c, w, i), slide_up(c, w, i)]
    } else {
        seq![i - w, i + w, i - 1, i + 1]
    }
}

/// One step leads from `i` to the open cell `j`.
pub open spec fn leads_to(c: Seq<u8>, w: int, portals: bool, i: int, j: int) -> bool {
    open_cell(c, j) && moves(c, w, portals, i).contains(j)
}

/// The cells one step away from some cell of `s`.
pub open spec fn successors(c: Seq<u8>, w: int, portals: bool, s: Set<int>) -> Set<int> {
    Set::new(|j: int| exists|i: int| s.contains(i) && #[trigger] leads_to(c, w, portals, i, j))
}

/// The cells at most `d` steps from `start`.
pub open spec fn reach(c: Seq<u8>, w: int, portals: bool, start: int, d: nat) -> Set<int>
    decreases d,
{
    if d == 0 {
        set![start]
    } else {
        let r = reach(c, w, portals, start, (d - 1) as nat);
        r.union(successors(c, w, portals, r))
    }
}

/// `r` is the length of a shortest walk from `start` to `end`, or 0 where no walk
/// reaches `end`.
pub open spec fn is_distance(c: Seq<u8>, w: int, portals: bool, start: int, end: int, r: int) -> bool {
    &&& (exists|e: nat| reach(c, w, portals, start, e).contains(end)) ==> {
        &&& r >= 0
        &&& reach(c, w, portals, start, r as nat).contains(end)
        &&& forall|e: nat| e < r ==> !reach(c, w, portals, start, e).contains(end)
    }
    &&& !(exists|e: nat| reach(c, w, portals, start, e).contains(end)) ==> r == 0
}

/// An open cell of a walled maze lies inside the border, so its four neighbours exist.
proof fn lemma_interior(c: Seq<u8>, w: int, h: int, i: int)
    requires
        w >= 1,
        h >= 0,
        c.len() == w * h,
        walled(c, w as nat, h as nat),
        open_cell(c, i),
    ensures
        w <= i,
        i + w < c.len(),
        1 <= i,
        i + 1 < c.len(),
        w >= 2,
{
    let y = i / w;
    let x = i % w;
    vstd::arithmetic::div_mod::lemma_fundamental_div_mod(i, w);
    assert(0 <= x < w);
    assert(!(x == 0 || x == w - 1 || y == 0 || y == h - 1));
    assert(y >= 0) by (nonlinear_arith)
        requires
            i == w * y + x,
            0 <= i,
            x < w,
            w >= 1,
    ;
    assert(y < h) by (nonlinear_arith)
        requires
            i == w * y + x,
            i < w * h,
            0 <= x,
            w >= 1,
    ;
    assert(w <= i) by (nonlinear_arith)
        requires
            i == w * y + x,
            y >= 1,
            x >= 0,
            w >= 1,
    ;
    assert(i + w < w * h) by (nonlinear_arith)
        requires
            i == w * y + x,
            y + 2 <= h,
            x < w,
            w >= 1,
    ;
}

/// The cells reached by sliding from each open cell, in the four directions.
pub struct Endpoints {
    pub right: Vec<usize>,
    pub left: Vec<usize>,
    pub down: Vec<usize>,
    pub up: Vec<usize>,
}

impl Endpoints {
    /// Each open cell of `c` holds its four slide targets.
    pub open spec fn of(&self, c: Seq<u8>, w: int) -> bool {
        &&& self.right@.len() == c.len()
        &&& self.left@.len() == c.len()
        &&& self.down@.len() == c.len()
        &&& self.up@.len() == c.len()
        &&& forall|i: int| #[trigger] open_cell(c, i) ==> {
            &&& self.right@[i] == slide_right(c, i)
            &&& self.left@[i] == slide_left(c, i)
            &&& self.down@[i] == slide_down(c, w, i)
            &&& self.up@[i] == slide_up(c, w, i)
        }
    }
}

/// The slide targets of every open cell; wall cells hold 0 in all four tables.
fn portal_endpoints(m: &Maze) -> (e: Endpoints)
    requires
        m.wf(),
    ensures
        e.of(m.grid.cells@, m.grid.width as int),
        forall|j: int| 0 <= j < m.grid.cells@.len() && #[trigger] is_wall(m.grid.cells@[j]) ==> {
            &&& e.right@[j] == 0
            &&& e.left@[j] == 0
            &&& e.down@[j] == 0
            &&& e.up@[j] == 0
        },
{
    let c = &m.grid.cells;
    let n: usize = c.len();
    let w: usize = m.grid.width;
    let ghost h = m.grid.height as int;
    let mut right: Vec<usize> = Vec::new();
    let mut left: Vec<usize> = Vec::new();
    let mut down: Vec<usize> = Vec::new();
    let mut up: Vec<usize> = Vec::new();
    let mut k: usize = 0;
    while k < n
        invariant
            k <= n,
            right@.len() == k,
            left@.len() == k,
            down@.len() == k,
            up@.len() == k,
            forall|j: int| 0 <= j < k ==> right@[j] == 0 && left@[j] == 0 && down@[j] == 0 && up@[j] == 0,
        decreases n - k,
    {
        right.push(0);
        left.push(0);
        down.push(0);
        up.push(0);
        k = k + 1;
    }
    // left and up: from the first cell on
    let mut i: usize = 0;
    while i < n
        invariant
            m.wf(),
            c == &m.grid.cells,
            n == c@.len(),
            w == m.grid.width,
            h == m.grid.height,
            i <= n,
            left@.len() == n,
            up@.len() == n,
            forall|j: int| 0 <= j < i && #[trigger] open_cell(c@, j) ==> left@[j] == slide_left(c@, j) && up@[j] == slide_up(c@, w as int, j),
            forall|j: int| 0 <= j < n && #[trigger] is_wall(c@[j]) ==> left@[j] == 0 && up@[j] == 0,
        decreases n - i,
    {
        if c[i] != 35 {
            proof {
                lemma_interior(c@, w as int, h, i as int);
            }
            proof {
                if !is_wall(c@[i - 1]) {
                    assert(open_cell(c@, i - 1));
                }
                if !is_wall(c@[i - w]) {
                    assert(open_cell(c@, i - w));
                }
            }
            let l: usize = if c[i - 1] == 35 { i } else { left[i - 1] };
            let u: usize = if c[i - w] == 35 { i } else { up[i - w] };
            left.set(i, l);
            up.set(i, u);
        }
        i = i + 1;
    }
    // right and down: from the last cell back
    let mut i: usize = n;
    while i > 0
        invariant
            m.wf(),
            c == &m.grid.cells,
            n == c@.len(),
            w == m.grid.width,
            h == m.grid.height,
            i <= n,
            right@.len() == n,
            down@.len() == n,
            forall|j: int| i <= j < n && #[trigger] open_cell(c@, j) ==> right@[j] == slide_right(c@, j) && down@[j] == slide_down(c@, w as int, j),
            forall|j: int| 0 <= j < n && #[trigger] is_wall(c@[j]) ==> right@[j] == 0 && down@[j] == 0,
        decreases i,
    {
        i = i - 1;
        if c[i] != 35 {
            proof {
                lemma_interior(c@, w as int, h, i as int);
            }
            proof {
                if !is_wall(c@[i + 1]) {
                    assert(open_cell(c@, i + 1));
                }
                if !is_wall(c@[i + w]) {
                    assert(open_cell(c@, i + w));
                }
            }
            let r: usize = if c[i + 1] == 35 { i } else { right[i + 1] };
            let d: usize = if c[i + w] == 35 { i } else { down[i + w] };
            right.set(i, r);
            down.set(i, d);
        }
    }
    Endpoints { right, left, down, up }
}


/// The cells a walker at the open cell `i` may try next.
fn neighbours(m: &Maze, ends: Option<&Endpoints>, i: usize) -> (nb: Vec<usize>)
    requires
        m.wf(),
        open_cell(m.grid.cells@, i as int),
        ends matches Some(e) ==> e.of(m.grid.cells@, m.grid.width as int),
    ensures
        nb@.len() == moves(m.grid.cells@, m.grid.width as int, ends is Some, i as int).len(),
        forall|k: int| 0 <= k < nb@.len() ==> nb@[k] as int == #[trigger] moves(m.grid.cells@, m.grid.width as int, ends is Some, i as int)[k],
{
    let w: usize = m.grid.width;
    let _n: usize = m.grid.cells.len();
    proof {
        lemma_interior(m.grid.cells@, w as int, m.grid.height as int, i as int);
    }
    let mut nb: Vec<usize> = Vec::new();
    nb.push(i - w);
    nb.push(i + w);
    nb.push(i - 1);
    nb.push(i + 1);
    match ends {
        Some(e) => {
            nb.push(e.right[i]);
            nb.push(e.left[i]);
            nb.push(e.down[i]);
            nb.push(e.up[i]);
        },
        None => {},
    }
    nb
}

/// The cells of `s[..t]`.
pub open spec fn prefix_set(s: Seq<usize>, t: int) -> Set<int> {
    Set::new(|x: int| exists|k: int| 0 <= k < t && s[k] as int == x)
}

/// Open cells among the first `k` entries of `nb`.
pub open spec fn open_among(c: Seq<u8>, nb: Seq<usize>, k: int) -> Set<int> {
    Set::new(|x: int| open_cell(c, x) && exists|q: int| 0 <= q < k && nb[q] as int == x)
}

proof fn lemma_successors_union(c: Seq<u8>, w: int, p: bool, a: Set<int>, b: Set<int>)
    ensures
        successors(c, w, p, a.union(b)) == successors(c, w, p, a).union(successors(c, w, p, b)),
{
    assert(successors(c, w, p, a.union(b)) =~= successors(c, w, p, a).union(successors(c, w, p, b)));
}

/// Once a step adds nothing, no later step does.
proof fn lemma_reach_stable(c: Seq<u8>, w: int, p: bool, start: int, d: nat, e: nat)
    requires
        reach(c, w, p, start, d + 1) == reach(c, w, p, start, d),
        e >= d,
    ensures
        reach(c, w, p, start, e) == reach(c, w, p, start, d),
    decreases e - d,
{
    if e > d {
        lemma_reach_stable(c, w, p, start, d, (e - 1) as nat);
    }
}

proof fn lemma_reach_mono(c: Seq<u8>, w: int, p: bool, start: int, d: nat, e: nat)
    requires
        d <= e,
    ensures
        reach(c, w, p, start, d).subset_of(reach(c, w, p, start, e)),
    decreases e - d,
{
    if d < e {
        lemma_reach_mono(c, w, p, start, d, (e - 1) as nat);
    }
}

proof fn lemma_step_with_slides(c: Seq<u8>, w: int, i: int, j: int)
    requires
        leads_to(c, w, false, i, j),
    ensures
        leads_to(c, w, true, i, j),
{
    let k = choose|k: int| 0 <= k < moves(c, w, false, i).len() && moves(c, w, false, i)[k] == j;
    assert(moves(c, w, true, i)[k] == j);
}

proof fn lemma_reach_with_slides(c: Seq<u8>, w: int, start: int, d: nat)
    ensures
        reach(c, w, false, start, d).subset_of(reach(c, w, true, start, d)),
    decreases d,
{
    if d > 0 {
        let e = (d - 1) as nat;
        lemma_reach_with_slides(c, w, start, e);
        let a = reach(c, w, false, start, e);
        let b = reach(c, w, true, start, e);
        assert forall|j: int| successors(c, w, false, a).contains(j) implies successors(c, w, true, b).contains(j) by {
            let i = choose|i: int| a.contains(i) && #[trigger] leads_to(c, w, false, i, j);
            lemma_step_with_slides(c, w, i, j);
        }
    }
}

/// Slides only add ways to move: wherever the end can be reached by steps between
/// neighbours, it can be reached with slides too, in no more steps.
pub proof fn law_slides_never_lengthen(c: Seq<u8>, w: int, start: int, end: int, r1: int, r2: int)
    requires
        is_distance(c, w, false, start, end, r1),
        is_distance(c, w, true, start, end, r2),
        exists|e: nat| reach(c, w, false, start, e).contains(end),
    ensures
        exists|e: nat| reach(c, w, true, start, e).contains(end),
        0 <= r2 <= r1,
{
    lemma_reach_with_slides(c, w, start, r1 as nat);
    assert(reach(c, w, true, start, r1 as nat).contains(end));
}

proof fn lemma_steps_within(c: Seq<u8>, w: int, start: int, d: nat)
    ensures
        forall|x: int| #[trigger] reach(c, w, false, start, d).contains(x) ==> within(c, w, 2 * start, d as int).contains(2 * x),
    decreases d,
{
    if d > 0 {
        let e = (d - 1) as nat;
        lemma_steps_within(c, w, start, e);
        let a = within(c, w, 2 * start, e as int);
        let r = reach(c, w, false, start, e);
        assert forall|x: int| #[trigger] reach(c, w, false, start, d).contains(x) implies within(c, w, 2 * start, d as int).contains(2 * x) by {
            if r.contains(x) {
                assert(a.contains(2 * x));
            } else {
                let i = choose|i: int| r.contains(i) && #[trigger] leads_to(c, w, false, i, x);
                assert(a.contains(2 * i));
                assert((2 * i) / 2 == i);
                assert((2 * x) / 2 == x);
                assert(edge(c, w, 2 * i, 2 * x, 1));
                assert(hops(c, w, a, 1).contains(2 * x));
            }
        }
    }
}

/// Priced slides never cost more than walking: wherever the end can be reached by
/// steps between neighbours, part 3's cheapest cost is at most the number of
/// those steps.
pub proof fn law_cheapest_at_most_steps(c: Seq<u8>, w: int, start: int, end: int, r1: int, r3: int)
    requires
        is_distance(c, w, false, start, end, r1),
        is_cheapest(c, w, start, end, r3),
        exists|e: nat| reach(c, w, false, start, e).contains(end),
    ensures
        r3 <= r1,
{
    lemma_steps_within(c, w, start, r1 as nat);
    assert(reach(c, w, false, start, r1 as nat).contains(end));
    assert(reaches(c, w, 2 * start, end, r1));
}

/// Breadth-first search from the start; returns the number of steps to the end, or
/// 0 where the end cannot be reached.
fn shortest_path(m: &Maze, ends: Option<&Endpoints>) -> (r: usize)
    requires
        m.wf(),
        m.grid.cells@.len() <= usize::MAX - 64,
        ends matches Some(e) ==> e.of(m.grid.cells@, m.grid.width as int),
    ensures
        is_distance(m.grid.cells@, m.grid.width as int, ends is Some, m.start as int, m.end as int, r as int),
{
    let ghost c = m.grid.cells@;
    let ghost w = m.grid.width as int;
    let ghost p = ends is Some;
    let ghost start = m.start as int;
    let ghost end = m.end as int;
    let n: usize = m.grid.cells.len();
    let mut current: Vec<usize> = Vec::new();
    current.push(m.start);
    let mut visited = Seen::new(n);
    visited.insert(m.start);
    let mut d: usize = 0;
    let ghost mut prev: Set<int> = Set::empty();
    proof {
        assert(current@[0] as int == start);
        assert(prefix_set(current@, 1) =~= set![start]);
        assert(visited@ =~= set![start]);
    }
    while current.len() > 0
        invariant
            m.wf(),
            n == c.len(),
            n <= usize::MAX - 64,
            c == m.grid.cells@,
            w == m.grid.width as int,
            p == ends is Some,
            start == m.start as int,
            end == m.end as int,
            ends matches Some(e) ==> e.of(c, w),
            visited.wf(),
            visited.capacity() >= n,
            visited@ == reach(c, w, p, start, d as nat),
            forall|x: int| #[trigger] visited@.contains(x) ==> open_cell(c, x),
            visited@ == prev.union(prefix_set(current@, current@.len() as int)),
            successors(c, w, p, prev).subset_of(visited@),
            d == 0 ==> prev == Set::<int>::empty(),
            d > 0 ==> prev == reach(c, w, p, start, (d - 1) as nat),
            forall|e: nat| e < d ==> !reach(c, w, p, start, e).contains(end),
            d <= visited@.len(),
            current@.len() > 0 ==> d + 1 <= visited@.len(),
            current@.len() <= visited@.len(),
        decreases 2 * (n - visited@.len()) + if current@.len() > 0 { 1int } else { 0int },
    {
        proof {
            visited.lemma_finite();
            vstd::set_lib::lemma_int_range(0, n as int);
            vstd::set_lib::lemma_len_subset(visited@, vstd::set_lib::set_int_range(0, n as int));
        }
        let ghost r0 = visited@;
        let ghost base_len = visited@.len();
        let mut next: Vec<usize> = Vec::new();
        let mut t: usize = 0;
        while t < current.len()
            invariant
                m.wf(),
                n == c.len(),
                c == m.grid.cells@,
                w == m.grid.width as int,
                p == ends is Some,
                end == m.end as int,
                ends matches Some(e) ==> e.of(c, w),
                visited.wf(),
                visited.capacity() >= n,
                r0 == reach(c, w, p, start, d as nat),
                r0 == prev.union(prefix_set(current@, current@.len() as int)),
                forall|x: int| #[trigger] r0.contains(x) ==> open_cell(c, x),
                t <= current@.len(),
                visited@ == r0.union(successors(c, w, p, prefix_set(current@, t as int))),
                forall|x: int| #[trigger] visited@.contains(x) ==> open_cell(c, x),
                forall|q: int| 0 <= q < next@.len() ==> #[trigger] visited@.contains(next@[q] as int) && !r0.contains(next@[q] as int),
                forall|x: int| visited@.contains(x) && !r0.contains(x) ==> exists|q: int| 0 <= q < next@.len() && next@[q] as int == x,
                visited@.len() == base_len + next@.len(),
                base_len == r0.len(),
                forall|k: int| 0 <= k < t ==> current@[k] != end,
                start == m.start as int,
                forall|e: nat| e < d ==> !reach(c, w, p, start, e).contains(end),
            decreases current@.len() - t,
        {
            let i: usize = current[t];
            proof {
                assert(current@[t as int] as int == i as int);
                assert(prefix_set(current@, current@.len() as int).contains(i as int));
                assert(r0.contains(i as int));
            }
            if i == m.end {
                proof {
                    assert(reach(c, w, p, start, d as nat).contains(end));
                    assert(exists|e: nat| reach(c, w, p, start, e).contains(end));
                }
                return d;
            }
            let nb = neighbours(m, ends, i);
            let ghost vt = visited@;
            let mut k: usize = 0;
            while k < nb.len()
                invariant
                    m.wf(),
                    n == c.len(),
                    c == m.grid.cells@,
                    visited.wf(),
                    visited.capacity() >= n,
                    k <= nb@.len(),
                    nb@.len() == moves(c, w, p, i as int).len(),
                    forall|q: int| 0 <= q < nb@.len() ==> nb@[q] as int == #[trigger] moves(c, w, p, i as int)[q],
                    visited@ == vt.union(open_among(c, nb@, k as int)),
                    forall|x: int| #[trigger] vt.contains(x) ==> open_cell(c, x),
                    forall|q: int| 0 <= q < next@.len() ==> #[trigger] visited@.contains(next@[q] as int) && !r0.contains(next@[q] as int),
                    forall|x: int| visited@.contains(x) && !r0.contains(x) ==> exists|q: int| 0 <= q < next@.len() && next@[q] as int == x,
                    visited@.len() == base_len + next@.len(),
                    r0.subset_of(vt),
                decreases nb@.len() - k,
            {
                let j: usize = nb[k];
                let ghost before = visited@;
                let ghost next_before = next@;
                if j < n && m.grid.cells[j] != 35 {
                    if visited.insert(j) {
                        next.push(j);
                    }
                }
                proof {
                    assert(before.subset_of(visited@));
                    assert(r0.subset_of(before));
                    assert forall|q: int| 0 <= q < next@.len() implies #[trigger] visited@.contains(next@[q] as int) && !r0.contains(next@[q] as int) by {
                        if q < next_before.len() {
                            assert(next@[q] == next_before[q]);
                            assert(before.contains(next_before[q] as int));
                        }
                    }
                    assert(visited@ =~= vt.union(open_among(c, nb@, k + 1))) by {
                        assert forall|x: int| #[trigger] open_among(c, nb@, k + 1).contains(x) <==> open_among(c, nb@, k as int).contains(x) || (x == j && open_cell(c, x)) by {
                            if open_among(c, nb@, k + 1).contains(x) {
                                let q = choose|q: int| 0 <= q < k + 1 && nb@[q] as int == x;
                                if q < k {
                                    assert(open_among(c, nb@, k as int).contains(x));
                                }
                            }
                            if open_among(c, nb@, k as int).contains(x) {
                                let q = choose|q: int| 0 <= q < k && nb@[q] as int == x;
                                assert(0 <= q < k + 1 && nb@[q] as int == x);
                            }
                            if x == j && open_cell(c, x) {
                                assert(0 <= k < k + 1 && nb@[k as int] as int == x);
                            }
                        }
                    }
                    assert forall|x: int| visited@.contains(x) && !r0.contains(x) implies exists|q: int| 0 <= q < next@.len() && next@[q] as int == x by {
                        if before.contains(x) {
                            let q = choose|q: int| 0 <= q < next_before.len() && next_before[q] as int == x;
                            assert(next@[q] == next_before[q]);
                        } else {
                            assert(x == j);
                            assert(next@[next@.len() - 1] as int == x);
                        }
                    }
                }
                k = k + 1;
            }
            proof {
                let pre = prefix_set(current@, t as int);
                let post = prefix_set(current@, t + 1);
                let single = Set::new(|x: int| leads_to(c, w, p, i as int, x));
                assert(open_among(c, nb@, nb@.len() as int) =~= single) by {
                    assert forall|x: int| #[trigger] single.contains(x) implies open_among(c, nb@, nb@.len() as int).contains(x) by {
                        let q = choose|q: int| 0 <= q < moves(c, w, p, i as int).len() && moves(c, w, p, i as int)[q] == x;
                        assert(nb@[q] as int == x);
                    }
                    assert forall|x: int| #[trigger] open_among(c, nb@, nb@.len() as int).contains(x) implies single.contains(x) by {
                        let q = choose|q: int| 0 <= q < nb@.len() && nb@[q] as int == x;
                        assert(moves(c, w, p, i as int)[q] == x);
                    }
                }
                assert(successors(c, w, p, post) =~= successors(c, w, p, pre).union(single)) by {
                    assert forall|x: int| #[trigger] successors(c, w, p, post).contains(x) implies successors(c, w, p, pre).union(single).contains(x) by {
                        let y = choose|y: int| post.contains(y) && leads_to(c, w, p, y, x);
                        let q = choose|q: int| 0 <= q < t + 1 && current@[q] as int == y;
                        if q < t {
                            assert(pre.contains(y));
                        }
                    }
                    assert forall|x: int| #[trigger] successors(c, w, p, pre).union(single).contains(x) implies successors(c, w, p, post).contains(x) by {
                        if successors(c, w, p, pre).contains(x) {
                            let y = choose|y: int| pre.contains(y) && leads_to(c, w, p, y, x);
                            let q = choose|q: int| 0 <= q < t && current@[q] as int == y;
                            assert(post.contains(y));
                        } else {
                            assert(post.contains(i as int));
                        }
                    }
                }
                assert(visited@ =~= r0.union(successors(c, w, p, post)));
            }
            t = t + 1;
        }
        proof {
            let cur = prefix_set(current@, current@.len() as int);
            lemma_successors_union(c, w, p, prev, cur);
            assert(visited@ =~= reach(c, w, p, start, (d + 1) as nat));
            assert(visited@ =~= r0.union(prefix_set(next@, next@.len() as int))) by {
                assert forall|x: int| #[trigger] prefix_set(next@, next@.len() as int).contains(x) implies visited@.contains(x) by {
                    let q = choose|q: int| 0 <= q < next@.len() && next@[q] as int == x;
                }
                assert forall|x: int| visited@.contains(x) && !r0.contains(x) implies #[trigger] prefix_set(next@, next@.len() as int).contains(x) by {
                    let q = choose|q: int| 0 <= q < next@.len() && next@[q] as int == x;
                }
            }
            assert forall|e: nat| e < d + 1 implies !reach(c, w, p, start, e).contains(end) by {
                if e == d {
                    if r0.contains(end) {
                        if prev.contains(end) {
                            assert(d > 0);
                            assert(reach(c, w, p, start, (d - 1) as nat).contains(end));
                        } else {
                            let q = choose|q: int| 0 <= q < current@.len() && current@[q] as int == end;
                            assert(current@[q] == end);
                        }
                    }
                }
            }
            if next@.len() == 0 {
                assert(visited@ =~= r0);
            }
            visited.lemma_finite();
            vstd::set_lib::lemma_int_range(0, n as int);
            vstd::set_lib::lemma_len_subset(visited@, vstd::set_lib::set_int_range(0, n as int));
        }
        current = next;
        d = d + 1;
        proof {
            prev = r0;
        }
    }
    proof {
        assert(d > 0) by {
            if d == 0 {
                assert(prefix_set(current@, 0) =~= Set::<int>::empty());
                assert(visited@ =~= Set::<int>::empty());
                assert(visited@.contains(start));
            }
        }
        assert(prefix_set(current@, 0) =~= Set::<int>::empty());
        assert(reach(c, w, p, start, d as nat) =~= reach(c, w, p, start, (d - 1) as nat));
        assert forall|e: nat| !reach(c, w, p, start, e).contains(end) by {
            if e >= d - 1 {
                lemma_reach_stable(c, w, p, start, (d - 1) as nat, e);
            }
        }
    }
    0
}


/// The start cell of a valid input.
pub open spec fn start_of(s: Seq<u8>) -> int {
    choose|i: int| unique_at(map_cells(s), 83, i)
}

/// The end cell of a valid input.
pub open spec fn end_of(s: Seq<u8>) -> int {
    choose|i: int| unique_at(map_cells(s), 69, i)
}

proof fn lemma_unique(c: Seq<u8>, m: u8, i: int, j: int)
    requires
        unique_at(c, m, i),
        unique_at(c, m, j),
    ensures
        i == j,
{
}

/// Reads a valid input; the maze's markers are `start_of` and `end_of`.
fn read_maze(input: &[u8]) -> (m: Maze)
    requires
        maze_ok(input@),
    ensures
        m.wf(),
        m.of(input@),
        m.start == start_of(input@),
        m.end == end_of(input@),
        m.grid.cells@.len() <= input@.len(),
{
    let m = parse_maze(input);
    proof {
        let c = map_cells(input@);
        lemma_unique(c, 83, m.start as int, start_of(input@));
        lemma_unique(c, 69, m.end as int, end_of(input@));
        lemma_cells_len_le(input@);
    }
    m
}

/// The fewest steps from `S` to `E` between neighbouring open cells, or 0 where `E`
/// cannot be reached.
pub fn solve_part1(input: &[u8]) -> (r: usize)
    requires
        maze_ok(input@),
        input@.len() <= usize::MAX - 64,
    ensures
        is_distance(map_cells(input@), map_width(input@) as int, false, start_of(input@), end_of(input@), r as int),
{
    let m = read_maze(input);
    shortest_path(&m, None)
}

/// The fewest steps from `S` to `E` when a step may also slide to the last open cell
/// before a wall, or 0 where `E` cannot be reached.
pub fn solve_part2(input: &[u8]) -> (r: usize)
    requires
        maze_ok(input@),
        input@.len() <= usize::MAX - 64,
    ensures
        is_distance(map_cells(input@), map_width(input@) as int, true, start_of(input@), end_of(input@), r as int),
{
    let m = read_maze(input);
    let ends = portal_endpoints(&m);
    shortest_path(&m, Some(&ends))
}


/// A wall is next to cell `i`: one of its four neighbours is a wall.
pub open spec fn by_wall(c: Seq<u8>, w: int, i: int) -> bool {
    is_wall(c[i - w]) || is_wall(c[i + w]) || is_wall(c[i - 1]) || is_wall(c[i + 1])
}

/// The four cells a slide from `i` reaches.
pub open spec fn slides(c: Seq<u8>, w: int, i: int) -> Seq<int> {
    seq![slide_right(c, i), slide_left(c, i), slide_down(c, w, i), slide_up(c, w, i)]
}

/// The four neighbours of `i`.
pub open spec fn around(w: int, i: int) -> Seq<int> {
    seq![i - w, i + w, i - 1, i + 1]
}

/// A move from state `s` to state `t` that costs `d`. A state is a cell and whether
/// the walker arrived there by a slide: `2 * cell + 1` after a slide, `2 * cell`
/// otherwise. A step to an open neighbour costs 1 and arrives without a slide; from
/// a cell next to a wall a slide costs 2 after a slide and 3 otherwise.
pub open spec fn edge(c: Seq<u8>, w: int, s: int, t: int, d: int) -> bool {
    let i = s / 2;
    &&& t >= 0
    &&& {
        ||| d == 1 && t % 2 == 0 && open_cell(c, t / 2) && around(w, i).contains(t / 2)
        ||| by_wall(c, w, i) && t % 2 == 1 && d == (if s % 2 == 1 { 2int } else { 3int }) && slides(c, w, i).contains(t / 2)
    }
}

/// One of the four cells beside `i` (above, below, left, right) is a wall.
pub open spec fn wall_beside(c: Seq<u8>, w: int, i: int) -> bool {
    exists|k: int| 0 <= k < 4 && #[trigger] is_wall(c[around(w, i)[k]])
}

/// A slide may start from a cell exactly when a wall stands beside it, on any of its
/// four sides: every move that arrives by a slide leaves a cell with a wall beside
/// it, and from such a cell each of its slides is a move, costing 3 or, right
/// after a slide, 2. A cell walled only on its left and right may slide.
pub proof fn law_slides_start_beside_any_wall(c: Seq<u8>, w: int, i: int, j: int)
    requires
        i >= 0,
        j >= 0,
    ensures
        forall|t: int, d: int| #[trigger] edge(c, w, 2 * i, t, d) && t % 2 == 1 ==> wall_beside(c, w, i),
        forall|t: int, d: int| #[trigger] edge(c, w, 2 * i + 1, t, d) && t % 2 == 1 ==> wall_beside(c, w, i),
        wall_beside(c, w, i) && slides(c, w, i).contains(j) ==> edge(c, w, 2 * i, 2 * j + 1, 3) && edge(c, w, 2 * i + 1, 2 * j + 1, 2),
{
    assert((2 * i) / 2 == i);
    assert((2 * i + 1) / 2 == i);
    assert((2 * i + 1) % 2 == 1);
    assert((2 * i) % 2 == 0);
    assert((2 * j + 1) / 2 == j);
    assert((2 * j + 1) % 2 == 1);
    let a = around(w, i);
    assert(a[0] == i - w && a[1] == i + w && a[2] == i - 1 && a[3] == i + 1);
    if wall_beside(c, w, i) {
        let k = choose|k: int| 0 <= k < 4 && #[trigger] is_wall(c[around(w, i)[k]]);
        assert(by_wall(c, w, i));
    }
    assert forall|t: int, d: int| #[trigger] edge(c, w, 2 * i, t, d) && t % 2 == 1 implies wall_beside(c, w, i) by {
        assert(by_wall(c, w, i));
        if is_wall(c[i - w]) {
            assert(is_wall(c[around(w, i)[0]]));
        } else if is_wall(c[i + w]) {
            assert(is_wall(c[around(w, i)[1]]));
        } else if is_wall(c[i - 1]) {
            assert(is_wall(c[around(w, i)[2]]));
        } else {
            assert(is_wall(c[around(w, i)[3]]));
        }
    }
    assert forall|t: int, d: int| #[trigger] edge(c, w, 2 * i + 1, t, d) && t % 2 == 1 implies wall_beside(c, w, i) by {
        assert(by_wall(c, w, i));
        if is_wall(c[i - w]) {
            assert(is_wall(c[around(w, i)[0]]));
        } else if is_wall(c[i + w]) {
            assert(is_wall(c[around(w, i)[1]]));
        } else if is_wall(c[i - 1]) {
            assert(is_wall(c[around(w, i)[2]]));
        } else {
            assert(is_wall(c[around(w, i)[3]]));
        }
    }
}

/// The states that moves of cost `d` lead to from the states of `from`.
pub open spec fn hops(c: Seq<u8>, w: int, from: Set<int>, d: int) -> Set<int> {
    Set::new(|t: int| exists|s: int| from.contains(s) && #[trigger] edge(c, w, s, t, d))
}

/// The states reachable from `s0` at a total cost of at most `k`.
pub open spec fn within(c: Seq<u8>, w: int, s0: int, k: int) -> Set<int>
    decreases k,
{
    if k <= 0 {
        set![s0]
    } else {
        let a = within(c, w, s0, k - 1);
        let b = if k >= 2 {
            within(c, w, s0, k - 2)
        } else {
            Set::empty()
        };
        let e = if k >= 3 {
            within(c, w, s0, k - 3)
        } else {
            Set::empty()
        };
        a.union(hops(c, w, a, 1)).union(hops(c, w, b, 2)).union(hops(c, w, e, 3))
    }
}

/// A state at cell `e` is reachable from `s0` at a cost of at most `k`.
pub open spec fn reaches(c: Seq<u8>, w: int, s0: int, e: int, k: int) -> bool {
    within(c, w, s0, k).contains(2 * e) || within(c, w, s0, k).contains(2 * e + 1)
}

/// `r` is the least cost at which the walker, starting at `start` without a slide,
/// reaches `end`.
pub open spec fn is_cheapest(c: Seq<u8>, w: int, start: int, end: int, r: int) -> bool {
    &&& r >= 0
    &&& reaches(c, w, 2 * start, end, r)
    &&& forall|k: int| 0 <= k < r ==> !#[trigger] reaches(c, w, 2 * start, end, k)
}

proof fn lemma_within_mono(c: Seq<u8>, w: int, s0: int, a: int, b: int)
    requires
        0 <= a <= b,
    ensures
        within(c, w, s0, a).subset_of(within(c, w, s0, b)),
    decreases b - a,
{
    if a < b {
        lemma_within_mono(c, w, s0, a, b - 1);
    }
}

proof fn lemma_within_step(c: Seq<u8>, w: int, s0: int, s: int, t: int, d: int, k: int)
    requires
        0 <= k,
        1 <= d <= 3,
        within(c, w, s0, k).contains(s),
        edge(c, w, s, t, d),
    ensures
        within(c, w, s0, k + d).contains(t),
{
    assert(hops(c, w, within(c, w, s0, k), d).contains(t));
}

proof fn lemma_slide_right_open(c: Seq<u8>, i: int)
    requires
        open_cell(c, i),
    ensures
        open_cell(c, slide_right(c, i)),
    decreases c.len() - i,
{
    if !(i + 1 >= c.len() || is_wall(c[i + 1])) {
        lemma_slide_right_open(c, i + 1);
    }
}

proof fn lemma_slide_left_open(c: Seq<u8>, i: int)
    requires
        open_cell(c, i),
    ensures
        open_cell(c, slide_left(c, i)),
    decreases i,
{
    if !(i <= 0 || is_wall(c[i - 1])) {
        lemma_slide_left_open(c, i - 1);
    }
}

proof fn lemma_slide_down_open(c: Seq<u8>, w: int, i: int)
    requires
        open_cell(c, i),
    ensures
        open_cell(c, slide_down(c, w, i)),
    decreases c.len() - i,
{
    if !(w <= 0 || i + w >= c.len() || is_wall(c[i + w])) {
        lemma_slide_down_open(c, w, i + w);
    }
}

proof fn lemma_slide_up_open(c: Seq<u8>, w: int, i: int)
    requires
        open_cell(c, i),
    ensures
        open_cell(c, slide_up(c, w, i)),
    decreases i,
{
    if !(w <= 0 || i - w < 0 || is_wall(c[i - w])) {
        lemma_slide_up_open(c, w, i - w);
    }
}

/// A move from a state at an open cell leads to a state at an open cell.
proof fn lemma_edge_open(c: Seq<u8>, w: int, h: int, s: int, t: int, d: int)
    requires
        w >= 1,
        h >= 0,
        c.len() == w * h,
        walled(c, w as nat, h as nat),
        s >= 0,
        open_cell(c, s / 2),
        edge(c, w, s, t, d),
    ensures
        t >= 0,
        open_cell(c, t / 2),
        1 <= d <= 3,
{
    let i = s / 2;
    lemma_interior(c, w, h, i);
    if !(d == 1 && t % 2 == 0 && open_cell(c, t / 2) && around(w, i).contains(t / 2)) {
        lemma_slide_right_open(c, i);
        lemma_slide_left_open(c, i);
        lemma_slide_down_open(c, w, i);
        lemma_slide_up_open(c, w, i);
        let j = t / 2;
        assert(slides(c, w, i).contains(j));
        let k = choose|k: int| 0 <= k < 4 && slides(c, w, i)[k] == j;
        assert(open_cell(c, slides(c, w, i)[k]));
    }
}

/// Every reachable state is at an open cell.
proof fn lemma_within_open(c: Seq<u8>, w: int, h: int, s0: int, k: int, t: int)
    requires
        w >= 1,
        h >= 0,
        c.len() == w * h,
        walled(c, w as nat, h as nat),
        s0 >= 0,
        open_cell(c, s0 / 2),
        within(c, w, s0, k).contains(t),
    ensures
        t >= 0,
        open_cell(c, t / 2),
    decreases k,
{
    if k > 0 {
        let a = within(c, w, s0, k - 1);
        if a.contains(t) {
            lemma_within_open(c, w, h, s0, k - 1, t);
        } else {
            let d: int = if hops(c, w, a, 1).contains(t) {
                1
            } else if k >= 2 && hops(c, w, within(c, w, s0, k - 2), 2).contains(t) {
                2
            } else {
                3
            };
            assert(hops(c, w, within(c, w, s0, k - d), d).contains(t));
            let s = choose|s: int| within(c, w, s0, k - d).contains(s) && #[trigger] edge(c, w, s, t, d);
            lemma_within_open(c, w, h, s0, k - d, s);
            lemma_edge_open(c, w, h, s, t, d);
        }
    }
}

/// Where `s` is reachable at cost `k` but not at `k - 1`, a cheaper state leads to it.
proof fn lemma_within_split(c: Seq<u8>, w: int, s0: int, k: int, t: int)
    requires
        k >= 1,
        within(c, w, s0, k).contains(t),
        !within(c, w, s0, k - 1).contains(t),
    ensures
        exists|s: int, d: int| 1 <= d <= 3 && d <= k && within(c, w, s0, k - d).contains(s) && #[trigger] edge(c, w, s, t, d),
{
    let a = within(c, w, s0, k - 1);
    let d: int = if hops(c, w, a, 1).contains(t) {
        1
    } else if k >= 2 && hops(c, w, within(c, w, s0, k - 2), 2).contains(t) {
        2
    } else {
        3
    };
    assert(hops(c, w, within(c, w, s0, k - d), d).contains(t));
    let s = choose|s: int| within(c, w, s0, k - d).contains(s) && #[trigger] edge(c, w, s, t, d);
    assert(edge(c, w, s, t, d));
}


/// Every move from state `s` lands within the table, at no more than `dv[s]` plus
/// its cost.
pub open spec fn relaxed(c: Seq<u8>, w: int, dv: Seq<usize>, s: int) -> bool {
    forall|t: int, d: int| #[trigger] edge(c, w, s, t, d) ==> 0 <= t < dv.len() && dv[t] <= dv[s] + d
}

/// What the bucket search keeps true while it works on cost `cost`: the recorded
/// costs are reachable costs of at most `cost + 3`; every state recorded below
/// `cost`, and every finished state `ex` but `pend`, has had its moves tried; every
/// state reachable below `cost` is recorded at no more than its cost; every state
/// recorded at `cost` to `cost + 3` sits in the bucket of its cost (or, at `cost`,
/// is finished); finished states are at cost `cost` and not at the end.
#[verifier::opaque]
pub open spec fn dial_inv(c: Seq<u8>, w: int, s0: int, e: int, dv: Seq<usize>, bk: Seq<Seq<usize>>, cost: int, ex: Set<int>, pend: int) -> bool {
    &&& bk.len() == 4
    &&& dv.len() <= usize::MAX
    &&& 0 <= s0 < dv.len()
    &&& dv[s0] == 0
    &&& forall|b: int, k: int| 0 <= b < 4 && 0 <= k < bk[b].len() ==> #[trigger] bk[b][k] < dv.len()
    &&& forall|t: int| 0 <= t < dv.len() && #[trigger] dv[t] != usize::MAX ==> within(c, w, s0, dv[t] as int).contains(t) && dv[t] <= cost + 3
    &&& forall|s: int| 0 <= s < dv.len() && (dv[s] < cost || (ex.contains(s) && s != pend)) ==> #[trigger] relaxed(c, w, dv, s)
    &&& forall|t: int, k: int| 0 <= k < cost && #[trigger] within(c, w, s0, k).contains(t) ==> 0 <= t < dv.len() && dv[t] <= k
    &&& forall|t: int| 0 <= t < dv.len() && #[trigger] dv[t] == cost ==> bk[cost % 4].contains(t as usize) || ex.contains(t)
    &&& forall|t: int| 0 <= t < dv.len() && cost < #[trigger] dv[t] <= cost + 3 ==> bk[(dv[t] % 4) as int].contains(t as usize)
    &&& forall|s: int| #[trigger] ex.contains(s) ==> 0 <= s < dv.len() && dv[s] == cost && s / 2 != e
}

/// A cell next to a wall, for every open cell of the maze (the others are false).
fn adjacent_to_wall(m: &Maze) -> (adj: Vec<bool>)
    requires
        m.wf(),
    ensures
        adj@.len() == m.grid.cells@.len(),
        forall|i: int| #[trigger] open_cell(m.grid.cells@, i) ==> adj@[i] == by_wall(m.grid.cells@, m.grid.width as int, i),
{
    let c = &m.grid.cells;
    let w: usize = m.grid.width;
    let n: usize = c.len();
    let mut adj: Vec<bool> = Vec::new();
    let mut i: usize = 0;
    while i < n
        invariant
            i <= n,
            n == c@.len(),
            c == &m.grid.cells,
            w == m.grid.width,
            m.wf(),
            adj@.len() == i,
            forall|j: int| 0 <= j < i && #[trigger] open_cell(c@, j) ==> adj@[j] == by_wall(c@, w as int, j),
        decreases n - i,
    {
        if c[i] == 35 {
            adj.push(false);
        } else {
            proof {
                lemma_interior(c@, w as int, m.grid.height as int, i as int);
            }
            adj.push(c[i - w] == 35 || c[i + w] == 35 || c[i - 1] == 35 || c[i + 1] == 35);
        }
        i = i + 1;
    }
    adj
}

/// Lowers the recorded cost of state `t` to `nc` if that is less, and then files
/// `t` in the bucket of `nc`.
fn relax(dist: &mut Vec<usize>, buckets: &mut Vec<Vec<usize>>, t: usize, nc: usize)
    requires
        t < old(dist)@.len(),
        old(buckets)@.len() == 4,
    ensures
        final(dist)@ == (if nc < old(dist)@[t as int] {
            old(dist)@.update(t as int, nc)
        } else {
            old(dist)@
        }),
        final(buckets)@.len() == 4,
        forall|b: int| 0 <= b < 4 ==> #[trigger] final(buckets)@[b]@ == (if nc < old(dist)@[t as int] && b == nc % 4 {
            old(buckets)@[b]@.push(t)
        } else {
            old(buckets)@[b]@
        }),
{
    if nc < dist[t] {
        dist.set(t, nc);
        let b: usize = nc % 4;
        let mut v: Vec<usize> = Vec::new();
        buckets.set_and_swap(b, &mut v);
        v.push(t);
        buckets.set_and_swap(b, &mut v);
    }
}

/// Takes the last state out of bucket `b`.
fn pop_bucket(buckets: &mut Vec<Vec<usize>>, b: usize) -> (x: usize)
    requires
        b < 4,
        old(buckets)@.len() == 4,
        old(buckets)@[b as int]@.len() > 0,
    ensures
        final(buckets)@.len() == 4,
        x == old(buckets)@[b as int]@.last(),
        final(buckets)@[b as int]@ == old(buckets)@[b as int]@.drop_last(),
        forall|q: int| 0 <= q < 4 && q != b ==> #[trigger] final(buckets)@[q] == old(buckets)@[q],
{
    let mut v: Vec<usize> = Vec::new();
    buckets.set_and_swap(b, &mut v);
    let x = v.pop().unwrap();
    buckets.set_and_swap(b, &mut v);
    x
}

proof fn lemma_relax(
    c: Seq<u8>,
    w: int,
    s0: int,
    e: int,
    dv: Seq<usize>,
    bk: Seq<Seq<usize>>,
    cost: int,
    ex: Set<int>,
    pend: int,
    t: int,
    d: int,
    dv2: Seq<usize>,
    bk2: Seq<Seq<usize>>,
)
    requires
        dial_inv(c, w, s0, e, dv, bk, cost, ex, pend),
        0 <= pend < dv.len(),
        dv[pend] == cost,
        ex.contains(pend),
        edge(c, w, pend, t, d),
        0 <= t < dv.len(),
        1 <= d <= 3,
        cost + d < usize::MAX,
        dv2 == (if cost + d < dv[t] {
            dv.update(t, (cost + d) as usize)
        } else {
            dv
        }),
        bk2.len() == 4,
        forall|b: int| 0 <= b < 4 ==> #[trigger] bk2[b] == (if cost + d < dv[t] && b == (cost + d) % 4 {
            bk[b].push(t as usize)
        } else {
            bk[b]
        }),
    ensures
        dial_inv(c, w, s0, e, dv2, bk2, cost, ex, pend),
        dv2[t] <= cost + d,
        dv2.len() == dv.len(),
        forall|x: int| 0 <= x < dv.len() ==> #[trigger] dv2[x] <= dv[x],
{
    reveal(dial_inv);
    let nc = cost + d;
    if nc < dv[t] {
        assert(within(c, w, s0, cost).contains(pend));
        lemma_within_step(c, w, s0, pend, t, d, cost);
        assert forall|b: int, k: int| 0 <= b < 4 && 0 <= k < bk2[b].len() implies #[trigger] bk2[b][k] < dv2.len() by {
            if b == nc % 4 && k == bk[b].len() {
            } else {
                assert(bk2[b][k] == bk[b][k]);
            }
        }
        assert forall|s: int| 0 <= s < dv2.len() && (dv2[s] < cost || (ex.contains(s) && s != pend)) implies #[trigger] relaxed(c, w, dv2, s) by {
            assert(s != t);
            assert(dv2[s] == dv[s]);
            assert(relaxed(c, w, dv, s));
            assert forall|t2: int, d2: int| #[trigger] edge(c, w, s, t2, d2) implies 0 <= t2 < dv2.len() && dv2[t2] <= dv2[s] + d2 by {
                assert(0 <= t2 < dv.len() && dv[t2] <= dv[s] + d2);
            }
        }
        assert forall|t2: int| 0 <= t2 < dv2.len() && cost < #[trigger] dv2[t2] <= cost + 3 implies bk2[(dv2[t2] % 4) as int].contains(t2 as usize) by {
            if t2 == t {
                assert(bk2[nc % 4][bk[nc % 4].len() as int] == t as usize);
            } else {
                assert(dv2[t2] == dv[t2]);
                let q = (dv[t2] % 4) as int;
                assert(bk[q].contains(t2 as usize));
                let k = choose|k: int| 0 <= k < bk[q].len() && #[trigger] bk[q][k] == t2 as usize;
                assert(bk2[q][k] == t2 as usize);
            }
        }
        assert forall|t2: int| 0 <= t2 < dv2.len() && #[trigger] dv2[t2] == cost implies bk2[cost % 4].contains(t2 as usize) || ex.contains(t2) by {
            assert(t2 != t);
            assert(dv2[t2] == dv[t2]);
            let q = cost % 4;
            if bk[q].contains(t2 as usize) {
                let k = choose|k: int| 0 <= k < bk[q].len() && #[trigger] bk[q][k] == t2 as usize;
                assert(bk2[q][k] == t2 as usize);
            }
        }
        assert forall|t2: int, k: int| 0 <= k < cost && #[trigger] within(c, w, s0, k).contains(t2) implies 0 <= t2 < dv2.len() && dv2[t2] <= k by {
            assert(dv[t2] <= k);
        }
    } else {
        assert(bk2 =~= bk);
    }
}


/// The contents of the buckets.
pub open spec fn views(bk: Seq<Vec<usize>>) -> Seq<Seq<usize>> {
    bk.map_values(|v: Vec<usize>| v@)
}

proof fn lemma_pop(c: Seq<u8>, w: int, s0: int, e: int, dv: Seq<usize>, bk: Seq<Seq<usize>>, cost: int, ex: Set<int>, x: int)
    requires
        dial_inv(c, w, s0, e, dv, bk, cost, ex, -1),
        cost >= 0,
        cost + 3 < usize::MAX,
        bk[cost % 4].len() > 0,
        x == bk[cost % 4].last(),
    ensures
        0 <= x < dv.len(),
        dv.len() <= usize::MAX,
        dv[x] == cost ==> within(c, w, s0, cost).contains(x),
        dv[x] != cost ==> dial_inv(c, w, s0, e, dv, bk.update(cost % 4, bk[cost % 4].drop_last()), cost, ex, -1),
        dv[x] == cost && x / 2 != e ==> dial_inv(c, w, s0, e, dv, bk.update(cost % 4, bk[cost % 4].drop_last()), cost, ex.insert(x), x),
{
    reveal(dial_inv);
    let q = cost % 4;
    let bk2 = bk.update(q, bk[q].drop_last());
    assert(bk[q][bk[q].len() - 1] < dv.len());
    assert forall|b: int, k: int| 0 <= b < 4 && 0 <= k < bk2[b].len() implies #[trigger] bk2[b][k] < dv.len() by {
        assert(bk2[b][k] == bk[b][k]);
    }
    assert forall|t: int| 0 <= t < dv.len() && cost < #[trigger] dv[t] <= cost + 3 implies bk2[(dv[t] % 4) as int].contains(t as usize) by {
        assert((dv[t] % 4) as int != q);
    }
    if dv[x] != cost {
        assert forall|t: int| 0 <= t < dv.len() && #[trigger] dv[t] == cost implies bk2[q].contains(t as usize) || ex.contains(t) by {
            if bk[q].contains(t as usize) {
                let k = choose|k: int| 0 <= k < bk[q].len() && #[trigger] bk[q][k] == t as usize;
                assert(k != bk[q].len() - 1);
                assert(bk2[q][k] == t as usize);
            }
        }
    }
    if dv[x] == cost && x / 2 != e {
        let ex2 = ex.insert(x);
        assert forall|t: int| 0 <= t < dv.len() && #[trigger] dv[t] == cost implies bk2[q].contains(t as usize) || ex2.contains(t) by {
            if bk[q].contains(t as usize) && t != x {
                let k = choose|k: int| 0 <= k < bk[q].len() && #[trigger] bk[q][k] == t as usize;
                assert(k != bk[q].len() - 1);
                assert(bk2[q][k] == t as usize);
            }
        }
    }
}

proof fn lemma_next_cost(c: Seq<u8>, w: int, s0: int, e: int, dv: Seq<usize>, bk: Seq<Seq<usize>>, cost: int, ex: Set<int>, dend: int)
    requires
        dial_inv(c, w, s0, e, dv, bk, cost, ex, -1),
        cost >= 0,
        bk[cost % 4].len() == 0,
        cost <= dend,
        dend + 3 < usize::MAX,
        is_cheapest(c, w, s0 / 2, e, dend),
        s0 % 2 == 0,
    ensures
        dial_inv(c, w, s0, e, dv, bk, cost + 1, Set::empty(), -1),
        cost + 1 <= dend,
{
    reveal(dial_inv);
    let q = cost % 4;
    assert forall|s: int| 0 <= s < dv.len() && (dv[s] < cost + 1 || (Set::<int>::empty().contains(s) && s != -1)) implies #[trigger] relaxed(c, w, dv, s) by {
        if dv[s] == cost {
            assert(bk[q].contains(s as usize) || ex.contains(s));
        }
    }
    assert forall|t: int, k: int| 0 <= k < cost + 1 && #[trigger] within(c, w, s0, k).contains(t) implies 0 <= t < dv.len() && dv[t] <= k by {
        if k == cost {
            if k == 0 {
                assert(t == s0);
            } else if within(c, w, s0, k - 1).contains(t) {
            } else {
                lemma_within_split(c, w, s0, k, t);
                let (s, d) = choose|s: int, d: int| 1 <= d <= 3 && d <= k && within(c, w, s0, k - d).contains(s) && #[trigger] edge(c, w, s, t, d);
                assert(0 <= s < dv.len() && dv[s] <= k - d);
                assert(relaxed(c, w, dv, s));
            }
        }
    }
    assert forall|t: int| 0 <= t < dv.len() && #[trigger] dv[t] == cost + 1 implies bk[(cost + 1) % 4].contains(t as usize) || Set::<int>::empty().contains(t) by {
        assert(bk[(dv[t] % 4) as int].contains(t as usize));
    }
    if cost == dend {
        let te: int = if within(c, w, s0, dend).contains(2 * e) {
            2 * e
        } else {
            2 * e + 1
        };
        assert(within(c, w, s0, dend).contains(te));
        assert(0 <= te < dv.len() && dv[te] <= dend);
        assert(dv[te] != usize::MAX);
        assert(within(c, w, s0, dv[te] as int).contains(te));
        assert(reaches(c, w, s0, e, dv[te] as int)) by {
            assert(te == 2 * e || te == 2 * e + 1);
            assert(2 * (s0 / 2) == s0);
        }
        if dv[te] < dend {
            assert(2 * (s0 / 2) == s0);
            assert(!reaches(c, w, 2 * (s0 / 2), e, dv[te] as int));
        }
        assert(dv[te] == cost);
        assert(bk[q].contains(te as usize) || ex.contains(te));
        assert(te / 2 == e);
    }
}

/// Tries the move to state `t` at cost `d` from the state `pend` being finished.
fn relax_edge(
    dist: &mut Vec<usize>,
    buckets: &mut Vec<Vec<usize>>,
    t: usize,
    nc: usize,
    Ghost(c): Ghost<Seq<u8>>,
    Ghost(w): Ghost<int>,
    Ghost(s0): Ghost<int>,
    Ghost(e): Ghost<int>,
    Ghost(cost): Ghost<int>,
    Ghost(ex): Ghost<Set<int>>,
    Ghost(pend): Ghost<int>,
)
    requires
        dial_inv(c, w, s0, e, old(dist)@, views(old(buckets)@), cost, ex, pend),
        old(buckets)@.len() == 4,
        0 <= pend < old(dist)@.len(),
        old(dist)@[pend] == cost,
        ex.contains(pend),
        edge(c, w, pend, t as int, nc - cost),
        t < old(dist)@.len(),
        1 <= nc - cost <= 3,
        nc < usize::MAX,
    ensures
        dial_inv(c, w, s0, e, final(dist)@, views(final(buckets)@), cost, ex, pend),
        final(dist)@[t as int] <= nc,
        final(dist)@.len() == old(dist)@.len(),
        forall|x: int| 0 <= x < old(dist)@.len() ==> #[trigger] final(dist)@[x] <= old(dist)@[x],
        final(buckets)@.len() == 4,
        cost >= 0 ==> final(buckets)@[cost % 4]@ == old(buckets)@[cost % 4]@,
        final(dist)@[pend] == cost,
{
    let ghost dv = dist@;
    let ghost bk = views(buckets@);
    relax(dist, buckets, t, nc);
    proof {
        let bk2 = views(buckets@);
        assert forall|b: int| 0 <= b < 4 implies #[trigger] bk2[b] == (if cost + (nc - cost) < dv[t as int] && b == (cost + (nc - cost)) % 4 {
            bk[b].push(t)
        } else {
            bk[b]
        }) by {
            assert(bk2[b] == buckets@[b]@);
        }
        lemma_relax(c, w, s0, e, dv, bk, cost, ex, pend, t as int, nc - cost, dist@, bk2);
    }
}


/// The state moves from `state` (open cell `i`) are all tried once their targets
/// have been relaxed.
proof fn lemma_finish(c: Seq<u8>, w: int, h: int, s0: int, e: int, dv: Seq<usize>, bk: Seq<Seq<usize>>, cost: int, ex: Set<int>, state: int, adj: bool)
    requires
        dial_inv(c, w, s0, e, dv, bk, cost, ex, state),
        w >= 1,
        h >= 0,
        c.len() == w * h,
        walled(c, w as nat, h as nat),
        0 <= state < dv.len(),
        dv[state] == cost,
        dv.len() == 2 * c.len(),
        open_cell(c, state / 2),
        adj == by_wall(c, w, state / 2),
        forall|j: int| #[trigger] around(w, state / 2).contains(j) && open_cell(c, j) ==> dv[2 * j] <= cost + 1,
        adj ==> forall|j: int| #[trigger] slides(c, w, state / 2).contains(j) ==> dv[2 * j + 1] <= cost + (if state % 2 == 1 { 2int } else { 3int }),
    ensures
        dial_inv(c, w, s0, e, dv, bk, cost, ex, -1),
{
    reveal(dial_inv);
    let i = state / 2;
    lemma_interior(c, w, h, i);
    assert(relaxed(c, w, dv, state)) by {
        assert forall|t: int, d: int| #[trigger] edge(c, w, state, t, d) implies 0 <= t < dv.len() && dv[t] <= dv[state] + d by {
            lemma_edge_open(c, w, h, state, t, d);
            if d == 1 && t % 2 == 0 && open_cell(c, t / 2) && around(w, i).contains(t / 2) {
                assert(dv[2 * (t / 2)] <= cost + 1);
                assert(2 * (t / 2) == t);
            } else {
                assert(slides(c, w, i).contains(t / 2));
                assert(2 * (t / 2) + 1 == t);
            }
        }
    }
}

/// Tries the four steps from state `state` to open neighbours, at cost 1.
#[verifier::rlimit(40)]
fn expand_steps(m: &Maze, dist: &mut Vec<usize>, buckets: &mut Vec<Vec<usize>>, state: usize, cost: usize, Ghost(ex): Ghost<Set<int>>)
    requires
        m.wf(),
        2 * m.grid.cells@.len() <= usize::MAX,
        old(dist)@.len() == 2 * m.grid.cells@.len(),
        old(buckets)@.len() == 4,
        dial_inv(m.grid.cells@, m.grid.width as int, 2 * m.start as int, m.end as int, old(dist)@, views(old(buckets)@), cost as int, ex, state as int),
        ex.contains(state as int),
        state < old(dist)@.len(),
        old(dist)@[state as int] == cost,
        open_cell(m.grid.cells@, (state / 2) as int),
        cost + 3 < usize::MAX,
    ensures
        final(dist)@.len() == old(dist)@.len(),
        final(buckets)@.len() == 4,
        final(buckets)@[(cost % 4) as int]@ == old(buckets)@[(cost % 4) as int]@,
        final(dist)@[state as int] == cost,
        dial_inv(m.grid.cells@, m.grid.width as int, 2 * m.start as int, m.end as int, final(dist)@, views(final(buckets)@), cost as int, ex, state as int),
        forall|x: int| 0 <= x < old(dist)@.len() ==> #[trigger] final(dist)@[x] <= old(dist)@[x],
        forall|j: int| #[trigger] around(m.grid.width as int, (state / 2) as int).contains(j) && open_cell(m.grid.cells@, j) ==> final(dist)@[2 * j] <= cost + 1,
{
    let c = &m.grid.cells;
    let ghost cs = c@;
    let w: usize = m.grid.width;
    let ghost wi = w as int;
    let ghost h = m.grid.height as int;
    let ghost e = m.end as int;
    let ghost s0 = 2 * m.start as int;
    let i: usize = state / 2;
    let ghost st = state as int;
    let ghost dv0 = dist@;
    proof {
        lemma_interior(cs, wi, h, i as int);
    }
    let up: usize = i - w;
    if c[up] != 35 {
        proof {
            assert(around(wi, i as int)[0] == up);
        }
        relax_edge(dist, buckets, 2 * up, cost + 1, Ghost(cs), Ghost(wi), Ghost(s0), Ghost(e), Ghost(cost as int), Ghost(ex), Ghost(st));
    }
    let ghost dv1 = dist@;
    let dn: usize = i + w;
    if c[dn] != 35 {
        proof {
            assert(around(wi, i as int)[1] == dn);
        }
        relax_edge(dist, buckets, 2 * dn, cost + 1, Ghost(cs), Ghost(wi), Ghost(s0), Ghost(e), Ghost(cost as int), Ghost(ex), Ghost(st));
    }
    let ghost dv2 = dist@;
    let lt: usize = i - 1;
    if c[lt] != 35 {
        proof {
            assert(around(wi, i as int)[2] == lt);
        }
        relax_edge(dist, buckets, 2 * lt, cost + 1, Ghost(cs), Ghost(wi), Ghost(s0), Ghost(e), Ghost(cost as int), Ghost(ex), Ghost(st));
    }
    let ghost dv3 = dist@;
    let rt: usize = i + 1;
    if c[rt] != 35 {
        proof {
            assert(around(wi, i as int)[3] == rt);
        }
        relax_edge(dist, buckets, 2 * rt, cost + 1, Ghost(cs), Ghost(wi), Ghost(s0), Ghost(e), Ghost(cost as int), Ghost(ex), Ghost(st));
    }
    proof {
        assert forall|j: int| #[trigger] around(wi, i as int).contains(j) && open_cell(cs, j) implies dist@[2 * j] <= cost + 1 by {
            let q = choose|q: int| 0 <= q < 4 && around(wi, i as int)[q] == j;
            if q == 0 {
                assert(dv1[2 * j] <= cost + 1);
                assert(dist@[2 * j] <= dv3[2 * j] <= dv2[2 * j] <= dv1[2 * j]);
            } else if q == 1 {
                assert(dv2[2 * j] <= cost + 1);
                assert(dist@[2 * j] <= dv3[2 * j] <= dv2[2 * j]);
            } else if q == 2 {
                assert(dv3[2 * j] <= cost + 1);
            }
        }
        assert forall|x: int| 0 <= x < dv0.len() implies #[trigger] dist@[x] <= dv0[x] by {
            assert(dist@[x] <= dv3[x] <= dv2[x] <= dv1[x] <= dv0[x]);
        }
    }
}

/// Beside a wall, tries the four slides from state `state`.
#[verifier::rlimit(40)]
fn expand_slides(
    m: &Maze,
    ends: &Endpoints,
    adj: &Vec<bool>,
    dist: &mut Vec<usize>,
    buckets: &mut Vec<Vec<usize>>,
    state: usize,
    cost: usize,
    Ghost(ex): Ghost<Set<int>>,
)
    requires
        m.wf(),
        2 * m.grid.cells@.len() <= usize::MAX,
        ends.of(m.grid.cells@, m.grid.width as int),
        adj@.len() == m.grid.cells@.len(),
        forall|i: int| #[trigger] open_cell(m.grid.cells@, i) ==> adj@[i] == by_wall(m.grid.cells@, m.grid.width as int, i),
        old(dist)@.len() == 2 * m.grid.cells@.len(),
        old(buckets)@.len() == 4,
        dial_inv(m.grid.cells@, m.grid.width as int, 2 * m.start as int, m.end as int, old(dist)@, views(old(buckets)@), cost as int, ex, state as int),
        ex.contains(state as int),
        state < old(dist)@.len(),
        old(dist)@[state as int] == cost,
        open_cell(m.grid.cells@, (state / 2) as int),
        cost + 3 < usize::MAX,
    ensures
        final(dist)@.len() == old(dist)@.len(),
        final(buckets)@.len() == 4,
        final(buckets)@[(cost % 4) as int]@ == old(buckets)@[(cost % 4) as int]@,
        final(dist)@[state as int] == cost,
        dial_inv(m.grid.cells@, m.grid.width as int, 2 * m.start as int, m.end as int, final(dist)@, views(final(buckets)@), cost as int, ex, state as int),
        forall|x: int| 0 <= x < old(dist)@.len() ==> #[trigger] final(dist)@[x] <= old(dist)@[x],
        adj@[(state / 2) as int] ==> forall|j: int| #[trigger] slides(m.grid.cells@, m.grid.width as int, (state / 2) as int).contains(j) ==> final(dist)@[2 * j + 1] <= cost + (if state % 2 == 1 { 2int } else { 3int }),
{
    let ghost cs = m.grid.cells@;
    let ghost wi = m.grid.width as int;
    let ghost e = m.end as int;
    let ghost s0 = 2 * m.start as int;
    let i: usize = state / 2;
    let ghost st = state as int;
    let ghost dv0 = dist@;
    let hp: bool = state % 2 != 0;
    if adj[i] {
        let pc: usize = cost + if hp {
            2
        } else {
            3
        };
        proof {
            lemma_slide_right_open(cs, i as int);
            lemma_slide_left_open(cs, i as int);
            lemma_slide_down_open(cs, wi, i as int);
            lemma_slide_up_open(cs, wi, i as int);
        }
        let a0: usize = ends.right[i];
        let a1: usize = ends.left[i];
        let a2: usize = ends.down[i];
        let a3: usize = ends.up[i];
        proof {
            assert(slides(cs, wi, i as int)[0] == a0);
            assert(slides(cs, wi, i as int)[1] == a1);
            assert(slides(cs, wi, i as int)[2] == a2);
            assert(slides(cs, wi, i as int)[3] == a3);
        }
        relax_edge(dist, buckets, 2 * a0 + 1, pc, Ghost(cs), Ghost(wi), Ghost(s0), Ghost(e), Ghost(cost as int), Ghost(ex), Ghost(st));
        let ghost dv1 = dist@;
        relax_edge(dist, buckets, 2 * a1 + 1, pc, Ghost(cs), Ghost(wi), Ghost(s0), Ghost(e), Ghost(cost as int), Ghost(ex), Ghost(st));
        let ghost dv2 = dist@;
        relax_edge(dist, buckets, 2 * a2 + 1, pc, Ghost(cs), Ghost(wi), Ghost(s0), Ghost(e), Ghost(cost as int), Ghost(ex), Ghost(st));
        let ghost dv3 = dist@;
        relax_edge(dist, buckets, 2 * a3 + 1, pc, Ghost(cs), Ghost(wi), Ghost(s0), Ghost(e), Ghost(cost as int), Ghost(ex), Ghost(st));
        proof {
            assert forall|j: int| #[trigger] slides(cs, wi, i as int).contains(j) implies dist@[2 * j + 1] <= pc by {
                let q = choose|q: int| 0 <= q < 4 && slides(cs, wi, i as int)[q] == j;
                if q == 0 {
                    assert(dist@[2 * j + 1] <= dv3[2 * j + 1] <= dv2[2 * j + 1] <= dv1[2 * j + 1]);
                } else if q == 1 {
                    assert(dist@[2 * j + 1] <= dv3[2 * j + 1] <= dv2[2 * j + 1]);
                } else if q == 2 {
                    assert(dist@[2 * j + 1] <= dv3[2 * j + 1]);
                }
            }
            assert forall|x: int| 0 <= x < dv0.len() implies #[trigger] dist@[x] <= dv0[x] by {
                assert(dist@[x] <= dv3[x] <= dv2[x] <= dv1[x] <= dv0[x]);
            }
        }
    }
}

/// Finishes state `state`: tries the steps to open neighbours and, beside a wall,
/// the slides.
fn expand(
    m: &Maze,
    ends: &Endpoints,
    adj: &Vec<bool>,
    dist: &mut Vec<usize>,
    buckets: &mut Vec<Vec<usize>>,
    state: usize,
    cost: usize,
    Ghost(ex): Ghost<Set<int>>,
)
    requires
        m.wf(),
        2 * m.grid.cells@.len() <= usize::MAX,
        ends.of(m.grid.cells@, m.grid.width as int),
        adj@.len() == m.grid.cells@.len(),
        forall|i: int| #[trigger] open_cell(m.grid.cells@, i) ==> adj@[i] == by_wall(m.grid.cells@, m.grid.width as int, i),
        old(dist)@.len() == 2 * m.grid.cells@.len(),
        old(buckets)@.len() == 4,
        dial_inv(m.grid.cells@, m.grid.width as int, 2 * m.start as int, m.end as int, old(dist)@, views(old(buckets)@), cost as int, ex, state as int),
        ex.contains(state as int),
        state < old(dist)@.len(),
        old(dist)@[state as int] == cost,
        within(m.grid.cells@, m.grid.width as int, 2 * m.start as int, cost as int).contains(state as int),
        cost + 3 < usize::MAX,
    ensures
        final(dist)@.len() == old(dist)@.len(),
        final(buckets)@.len() == 4,
        final(buckets)@[(cost % 4) as int]@ == old(buckets)@[(cost % 4) as int]@,
        dial_inv(m.grid.cells@, m.grid.width as int, 2 * m.start as int, m.end as int, final(dist)@, views(final(buckets)@), cost as int, ex, -1),
{
    let ghost cs = m.grid.cells@;
    let ghost wi = m.grid.width as int;
    let ghost h = m.grid.height as int;
    proof {
        assert(unique_at(cs, 83, m.start as int));
        assert((2 * m.start as int) / 2 == m.start as int);
        lemma_within_open(cs, wi, h, 2 * m.start as int, cost as int, state as int);
    }
    expand_steps(m, dist, buckets, state, cost, Ghost(ex));
    let ghost dv1 = dist@;
    expand_slides(m, ends, adj, dist, buckets, state, cost, Ghost(ex));
    proof {
        assert forall|j: int| #[trigger] around(wi, (state / 2) as int).contains(j) && open_cell(cs, j) implies dist@[2 * j] <= cost + 1 by {
            assert(dist@[2 * j] <= dv1[2 * j]);
        }
        lemma_finish(cs, wi, h, 2 * m.start as int, m.end as int, dist@, views(buckets@), cost as int, ex, state as int, adj@[(state / 2) as int]);
    }
}

/// The bucket search: the least cost from `S` (not arrived by a slide) to a state
/// at `E`, where a step costs 1 and a slide from beside a wall 2 after a slide and
/// 3 otherwise.
fn cheapest_path(m: &Maze, ends: &Endpoints, adj: &Vec<bool>, Ghost(dend): Ghost<int>) -> (r: usize)
    requires
        m.wf(),
        2 * m.grid.cells@.len() <= usize::MAX,
        ends.of(m.grid.cells@, m.grid.width as int),
        adj@.len() == m.grid.cells@.len(),
        forall|i: int| #[trigger] open_cell(m.grid.cells@, i) ==> adj@[i] == by_wall(m.grid.cells@, m.grid.width as int, i),
        is_cheapest(m.grid.cells@, m.grid.width as int, m.start as int, m.end as int, dend),
        dend + 3 < usize::MAX,
    ensures
        r == dend,
{
    let c = &m.grid.cells;
    let ghost cs = c@;
    let w: usize = m.grid.width;
    let ghost wi = w as int;
    let ghost h = m.grid.height as int;
    let n: usize = c.len();
    let n2: usize = 2 * n;
    let end: usize = m.end;
    let s0: usize = 2 * m.start;
    let mut dist: Vec<usize> = Vec::new();
    let mut k: usize = 0;
    while k < n2
        invariant
            k <= n2,
            dist@.len() == k,
            forall|q: int| 0 <= q < k ==> dist@[q] == usize::MAX,
        decreases n2 - k,
    {
        dist.push(usize::MAX);
        k = k + 1;
    }
    let mut buckets: Vec<Vec<usize>> = Vec::new();
    buckets.push(Vec::new());
    buckets.push(Vec::new());
    buckets.push(Vec::new());
    buckets.push(Vec::new());
    proof {
        assert(unique_at(cs, 83, m.start as int));
    }
    relax(&mut dist, &mut buckets, s0, 0);
    proof {
        reveal(dial_inv);
        let dv = dist@;
        let bk = views(buckets@);
        assert(bk[0] =~= seq![s0]);
        assert forall|t: int| 0 <= t < dv.len() && #[trigger] dv[t] != usize::MAX implies within(cs, wi, s0 as int, dv[t] as int).contains(t) && dv[t] <= 0 + 3 by {
            assert(t == s0);
        }
        assert forall|t: int| 0 <= t < dv.len() && #[trigger] dv[t] == 0 implies bk[0int % 4].contains(t as usize) || Set::<int>::empty().contains(t) by {
            assert(t == s0);
            assert(bk[0][0] == s0);
        }
        assert forall|b: int, q: int| 0 <= b < 4 && 0 <= q < bk[b].len() implies #[trigger] bk[b][q] < dv.len() by {
            assert(b == 0);
        }
        assert(dial_inv(cs, wi, s0 as int, end as int, dv, bk, 0, Set::empty(), -1));
    }
    let mut cost: usize = 0;
    loop
        invariant
            c == &m.grid.cells,
            cs == c@,
            m.wf(),
            wi == w as int,
            w == m.grid.width,
            h == m.grid.height as int,
            n == cs.len(),
            n2 == 2 * n,
            end == m.end,
            s0 == 2 * m.start,
            ends.of(cs, wi),
            adj@.len() == n,
            forall|i: int| #[trigger] open_cell(cs, i) ==> adj@[i] == by_wall(cs, wi, i),
            is_cheapest(cs, wi, m.start as int, end as int, dend),
            dend + 3 < usize::MAX,
            cost <= dend,
            dist@.len() == n2,
            buckets@.len() == 4,
            dial_inv(cs, wi, s0 as int, end as int, dist@, views(buckets@), cost as int, Set::empty(), -1),
        decreases dend - cost,
    {
        let b: usize = cost % 4;
        let ghost mut ex: Set<int> = Set::empty();
        while buckets[b].len() != 0
            invariant
                c == &m.grid.cells,
                cs == c@,
                m.wf(),
                wi == w as int,
                w == m.grid.width,
                h == m.grid.height as int,
                n == cs.len(),
                n2 == 2 * n,
                end == m.end,
                s0 == 2 * m.start,
                ends.of(cs, wi),
                adj@.len() == n,
                forall|i: int| #[trigger] open_cell(cs, i) ==> adj@[i] == by_wall(cs, wi, i),
                is_cheapest(cs, wi, m.start as int, end as int, dend),
                dend + 3 < usize::MAX,
                cost <= dend,
                b == cost % 4,
                dist@.len() == n2,
                buckets@.len() == 4,
                dial_inv(cs, wi, s0 as int, end as int, dist@, views(buckets@), cost as int, ex, -1),
            decreases buckets@[b as int]@.len(),
        {
            let ghost dv0 = dist@;
            let ghost bk0 = views(buckets@);
            let ghost len0 = buckets@[b as int]@.len();
            let state: usize = pop_bucket(&mut buckets, b);
            proof {
                assert(bk0[b as int] == buckets@[b as int]@.push(state)) by {
                    assert(bk0[b as int] =~= bk0[b as int].drop_last().push(bk0[b as int].last()));
                }
                lemma_pop(cs, wi, s0 as int, end as int, dv0, bk0, cost as int, ex, state as int);
                assert(views(buckets@) =~= bk0.update(b as int, bk0[b as int].drop_last()));
            }
            if cost != dist[state] {
                continue;
            }
            let i: usize = state / 2;
            let hp: bool = state % 2 != 0;
            if i == end {
                proof {
                    assert(within(cs, wi, s0 as int, cost as int).contains(state as int));
                    assert(reaches(cs, wi, s0 as int, end as int, cost as int)) by {
                        assert(state == 2 * i || state == 2 * i + 1);
                    }
                    if (cost as int) < dend {
                        assert(!reaches(cs, wi, 2 * (m.start as int), end as int, cost as int));
                    }
                }
                return cost;
            }
            proof {
                ex = ex.insert(state as int);
            }
            expand(m, ends, adj, &mut dist, &mut buckets, state, cost, Ghost(ex));
        }
        proof {
            assert(views(buckets@)[b as int].len() == 0);
            assert(2 * (m.start as int) == s0);
            assert((s0 as int) / 2 == m.start as int);
            lemma_next_cost(cs, wi, s0 as int, end as int, dist@, views(buckets@), cost as int, ex, dend);
        }
        cost = cost + 1;
    }
}


/// The end can be reached at some cost that leaves room for three more in a `usize`
/// (there is no answer where the end cannot be reached).
pub open spec fn part3_ok(s: Seq<u8>) -> bool {
    exists|k: int| 0 <= k && k + 3 < usize::MAX && #[trigger] reaches(map_cells(s), map_width(s) as int, 2 * start_of(s), end_of(s), k)
}

proof fn lemma_least(c: Seq<u8>, w: int, start: int, e: int, k: int)
    requires
        0 <= k,
        reaches(c, w, 2 * start, e, k),
    ensures
        exists|r: int| 0 <= r <= k && #[trigger] is_cheapest(c, w, start, e, r),
    decreases k,
{
    if exists|j: int| 0 <= j < k && #[trigger] reaches(c, w, 2 * start, e, j) {
        let j = choose|j: int| 0 <= j < k && #[trigger] reaches(c, w, 2 * start, e, j);
        lemma_least(c, w, start, e, j);
        let r = choose|r: int| 0 <= r <= j && #[trigger] is_cheapest(c, w, start, e, r);
        assert(is_cheapest(c, w, start, e, r));
    } else {
        assert(is_cheapest(c, w, start, e, k));
    }
}

/// The least cost from `S` to `E` when a step costs 1 and, from a cell beside a
/// wall, a slide costs 2 right after a slide and 3 otherwise.
pub fn solve_part3(input: &[u8]) -> (r: usize)
    requires
        maze_ok(input@),
        2 * input@.len() <= usize::MAX,
        part3_ok(input@),
    ensures
        is_cheapest(map_cells(input@), map_width(input@) as int, start_of(input@), end_of(input@), r as int),
{
    let m = read_maze(input);
    let ends = portal_endpoints(&m);
    let adj = adjacent_to_wall(&m);
    let ghost c = map_cells(input@);
    let ghost w = map_width(input@) as int;
    let ghost dend = choose|r: int| 0 <= r && r + 3 < usize::MAX && #[trigger] is_cheapest(c, w, start_of(input@), end_of(input@), r);
    proof {
        let k = choose|k: int| 0 <= k && k + 3 < usize::MAX && #[trigger] reaches(c, w, 2 * start_of(input@), end_of(input@), k);
        lemma_least(c, w, start_of(input@), end_of(input@), k);
        let r = choose|r: int| 0 <= r <= k && #[trigger] is_cheapest(c, w, start_of(input@), end_of(input@), r);
        assert(0 <= r && r + 3 < usize::MAX && is_cheapest(c, w, start_of(input@), end_of(input@), r));
    }
    cheapest_path(&m, &ends, &adj, Ghost(dend))
}

/// The three answers.
pub fn solve(input: &[u8]) -> (r: (usize, usize, usize))
    requires
        maze_ok(input@),
        2 * input@.len() <= usize::MAX,
        input@.len() <= usize::MAX - 64,
        part3_ok(input@),
    ensures
        is_distance(map_cells(input@), map_width(input@) as int, false, start_of(input@), end_of(input@), r.0 as int),
        is_distance(map_cells(input@), map_width(input@) as int, true, start_of(input@), end_of(input@), r.1 as int),
        is_cheapest(map_cells(input@), map_width(input@) as int, start_of(input@), end_of(input@), r.2 as int),
{
    (solve_part1(input), solve_part2(input), solve_part3(input))
}

} // verus!
