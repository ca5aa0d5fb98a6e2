//! A map of arrows `^`, `v`, `<` and `>`. A walker starts in the top-left cell and
//! follows the arrows until it steps on a cell it has already visited; the answers
//! count the cells it visits.
//!
//! Part 2 lets the walker, once, leave an inner (non-edge) cell in another
//! direction than its arrow; part 3 instead lets it turn clockwise on a revisited
//! cell (at most three times) and keep walking.
//!
//! The walks are stated as spec functions that follow the same rules. Each takes a
//! `fuel` argument that only bounds the recursion; the solvers start it high enough
//! that it never runs out. A result of `None` marks a walk that leaves the map,
//! meets a byte that is not an arrow, or visits more cells than a `u16` counts.
use vstd::prelude::*;
use crate::grid::{lemma_cells_len_le, line_count, line_width, load_map, map_cells, map_height, map_width, Grid};
use crate::seen::Seen;

verus! {

/// Where the arrow `d` leads from cell `i` of a map `w` cells wide; `None` for a
/// byte that is not an arrow.
pub open spec fn arrow_step(w: int, i: int, d: u8) -> Option<int> {
    if d == 62 {
        Some(i + 1)
    } else if d == 60 {
        Some(i - 1)
    } else if d == 94 {
        Some(i - w)
    } else if d == 118 {
        Some(i + w)
    } else {
        None
    }
}

/// A cell on the border of the map.
pub open spec fn is_edge(n: int, w: int, i: int) -> bool {
    i < w || i >= n - w || i % w == 0 || (i + 1) % w == 0
}

/// Part 1: the walk from `i` with the cells `seen` already visited.
pub open spec fn walk1(m: Seq<u8>, w: int, seen: Set<int>, i: int, fuel: nat) -> Option<nat>
    decreases fuel,
{
    if fuel == 0 || !(0 <= i < m.len()) {
        None
    } else if seen.contains(i) {
        Some(seen.len())
    } else if seen.len() >= u16::MAX {
        None
    } else {
        match arrow_step(w, i, m[i]) {
            None => None,
            Some(j) => walk1(m, w, seen.insert(i), j, (fuel - 1) as nat),
        }
    }
}

/// The cells that the part 1 walk from `i` has visited when it stops, with the
/// cells `seen` visited before: `seen` itself once a cell repeats.
pub open spec fn trail1(m: Seq<u8>, w: int, seen: Set<int>, i: int, fuel: nat) -> Set<int>
    decreases fuel,
{
    if fuel == 0 || !(0 <= i < m.len()) || seen.contains(i) || seen.len() >= u16::MAX {
        seen
    } else {
        match arrow_step(w, i, m[i]) {
            None => seen.insert(i),
            Some(j) => trail1(m, w, seen.insert(i), j, (fuel - 1) as nat),
        }
    }
}

/// The larger of two results, or `None` if either is.
pub open spec fn max_opt(a: Option<nat>, b: Option<nat>) -> Option<nat> {
    match (a, b) {
        (Some(x), Some(y)) => Some(if x >= y { x } else { y }),
        _ => None,
    }
}

/// Part 2: the walk from `i`; `changed` records that the one change was used.
/// At an inner cell, before the change, every other direction is tried as well
/// (each on its own copy of `seen`) and the best count is kept.
pub open spec fn walk2(m: Seq<u8>, w: int, seen: Set<int>, i: int, changed: bool, fuel: nat) -> Option<nat>
    decreases fuel,
{
    if fuel == 0 || !(0 <= i < m.len()) {
        None
    } else if seen.contains(i) {
        Some(seen.len())
    } else if seen.len() >= u16::MAX {
        None
    } else {
        let s = seen.insert(i);
        let f = (fuel - 1) as nat;
        let d = m[i];
        if changed || is_edge(m.len() as int, w, i) {
            match arrow_step(w, i, d) {
                None => None,
                Some(j) => walk2(m, w, s, j, changed, f),
            }
        } else {
            let right = if d == 62 { Some(0nat) } else { walk2(m, w, s, i + 1, true, f) };
            let left = if d == 60 { Some(0nat) } else { walk2(m, w, s, i - 1, true, f) };
            let up = if d == 94 { Some(0nat) } else { walk2(m, w, s, i - w, true, f) };
            let down = if d == 118 { Some(0nat) } else { walk2(m, w, s, i + w, true, f) };
            let ahead = match arrow_step(w, i, d) {
                None => None,
                Some(j) => walk2(m, w, s, j, false, f),
            };
            max_opt(max_opt(max_opt(max_opt(left, right), up), down), ahead)
        }
    }
}


/// The arrow after `b`, turning clockwise; `None` for a byte that is not an arrow.
pub open spec fn turn_clockwise(b: u8) -> Option<u8> {
    if b == 94 {
        Some(62u8)
    } else if b == 62 {
        Some(118u8)
    } else if b == 118 {
        Some(60u8)
    } else if b == 60 {
        Some(94u8)
    } else {
        None
    }
}

/// Part 3: the walk from `i` after `turns` turns. `changed` is the cell whose arrow
/// was changed and its new arrow, once the change was used. On a revisited cell
/// the walker, unless it has turned three times or stands on the border, turns
/// clockwise from the cell's arrow and goes on.
pub open spec fn walk3(m: Seq<u8>, w: int, seen: Set<int>, i: int, changed: Option<(int, u8)>, turns: nat, fuel: nat) -> Option<nat>
    decreases fuel,
{
    if fuel == 0 || !(0 <= i < m.len()) {
        None
    } else if seen.contains(i) {
        if turns == 3 || is_edge(m.len() as int, w, i) {
            Some(seen.len())
        } else {
            let b = match changed {
                Some((ci, cd)) => if ci == i { cd } else { m[i] },
                None => m[i],
            };
            match turn_clockwise(b) {
                None => None,
                Some(d) => match arrow_step(w, i, d) {
                    None => None,
                    Some(j) => walk3(m, w, seen, j, changed, turns + 1, (fuel - 1) as nat),
                },
            }
        }
    } else if seen.len() >= u16::MAX {
        None
    } else {
        let s = seen.insert(i);
        let f = (fuel - 1) as nat;
        let d = m[i];
        if changed is Some || is_edge(m.len() as int, w, i) {
            match arrow_step(w, i, d) {
                None => None,
                Some(j) => walk3(m, w, s, j, changed, turns, f),
            }
        } else {
            let right = if d == 62 { Some(0nat) } else { walk3(m, w, s, i + 1, Some((i, 62u8)), turns, f) };
            let left = if d == 60 { Some(0nat) } else { walk3(m, w, s, i - 1, Some((i, 60u8)), turns, f) };
            let up = if d == 94 { Some(0nat) } else { walk3(m, w, s, i - w, Some((i, 94u8)), turns, f) };
            let down = if d == 118 { Some(0nat) } else { walk3(m, w, s, i + w, Some((i, 118u8)), turns, f) };
            let ahead = match arrow_step(w, i, d) {
                None => None,
                Some(j) => walk3(m, w, s, j, None, turns, f),
            };
            max_opt(max_opt(max_opt(max_opt(left, right), up), down), ahead)
        }
    }
}

/// Fuel enough for every walk on a map of `n` cells.
pub open spec fn fuel_for(n: int) -> nat {
    (4 * n + 8) as nat
}

/// The cell that arrow `d` leads to from `i`.
fn next(g: &Grid, index: usize, direction: u8) -> (r: usize)
    requires
        g.wf(),
        arrow_step(g.width as int, index as int, direction) matches Some(j) && 0 <= j < g.cells@.len(),
    ensures
        arrow_step(g.width as int, index as int, direction) == Some(r as int),
{
    let _n: usize = g.cells.len();
    if direction == 62 {
        index + 1
    } else if direction == 60 {
        index - 1
    } else if direction == 94 {
        index - g.width
    } else {
        index + g.width
    }
}

/// Whether `index` lies on the border of the map.
fn edge(g: &Grid, index: usize) -> (r: bool)
    requires
        g.wf(),
        index < g.cells@.len(),
    ensures
        r == is_edge(g.cells@.len() as int, g.width as int, index as int),
{
    let n: usize = g.cells.len();
    let w: usize = g.width;
    index < w || index >= n - w || index % w == 0 || (index + 1) % w == 0
}

/// Part 1: follows the arrows from the first cell until a cell repeats.
fn walk_p1(g: &Grid, seen: &mut Seen) -> (r: u16)
    requires
        g.wf(),
        old(seen).wf(),
        old(seen)@ == Set::<int>::empty(),
        old(seen).capacity() >= g.cells@.len(),
        walk1(g.cells@, g.width as int, Set::empty(), 0, fuel_for(g.cells@.len() as int)) is Some,
    ensures
        walk1(g.cells@, g.width as int, Set::empty(), 0, fuel_for(g.cells@.len() as int)) == Some(r as nat),
        final(seen).wf(),
        final(seen)@ == trail1(g.cells@, g.width as int, Set::empty(), 0, fuel_for(g.cells@.len() as int)),
        r == final(seen)@.len(),
{
    let ghost goal = walk1(g.cells@, g.width as int, Set::empty(), 0, fuel_for(g.cells@.len() as int));
    let ghost cells = trail1(g.cells@, g.width as int, Set::empty(), 0, fuel_for(g.cells@.len() as int));
    let ghost mut fuel: nat = fuel_for(g.cells@.len() as int);
    let mut index: usize = 0;
    loop
        invariant
            g.wf(),
            seen.wf(),
            seen.capacity() >= g.cells@.len(),
            goal == walk1(g.cells@, g.width as int, Set::empty(), 0, fuel_for(g.cells@.len() as int)),
            goal is Some,
            walk1(g.cells@, g.width as int, seen@, index as int, fuel) == goal,
            cells == trail1(g.cells@, g.width as int, Set::empty(), 0, fuel_for(g.cells@.len() as int)),
            trail1(g.cells@, g.width as int, seen@, index as int, fuel) == cells,
            seen@.len() <= u16::MAX,
        decreases fuel,
    {
        proof {
            reveal_with_fuel(walk1, 2);
            reveal_with_fuel(trail1, 2);
        }
        let ghost before = seen@;
        if !seen.insert(index) {
            proof {
                assert(seen@ =~= before);
            }
            return seen.len() as u16;
        }
        index = next(g, index, g.cells[index]);
        proof {
            fuel = (fuel - 1) as nat;
        }
    }
}

/// Part 2: the walk from `index` (see `walk2`). The branches each work on a copy
/// of `seen`.
fn walk_p2(g: &Grid, index: usize, changed: bool, seen: &mut Seen, Ghost(fuel): Ghost<nat>) -> (r: u16)
    requires
        g.wf(),
        old(seen).wf(),
        old(seen).capacity() >= g.cells@.len(),
        old(seen)@.len() <= u16::MAX,
        walk2(g.cells@, g.width as int, old(seen)@, index as int, changed, fuel) is Some,
    ensures
        walk2(g.cells@, g.width as int, old(seen)@, index as int, changed, fuel) == Some(r as nat),
        final(seen).wf(),
        final(seen).capacity() == old(seen).capacity(),
    decreases fuel,
{
    let _n: usize = g.cells.len();
    let ghost m = g.cells@;
    let ghost w = g.width as int;
    let ghost f = (fuel - 1) as nat;
    proof {
        reveal_with_fuel(walk2, 2);
    }
    if !seen.insert(index) {
        return seen.len() as u16;
    }
    let ghost s = seen@;
    let direction: u8 = g.cells[index];
    if changed || edge(g, index) {
        let j: usize = next(g, index, direction);
        walk_p2(g, j, changed, seen, Ghost(f))
    } else {
        proof {
            assert(!is_edge(m.len() as int, w, index as int));
            assert(index >= 1) by {
                if index == 0 {
                    assert((index as int) % w == 0);
                }
            }
        }
        let seen_copy = seen.copy();
        let right: u16 = if direction == 62 {
            0
        } else {
            let result: u16 = walk_p2(g, index + 1, true, seen, Ghost(f));
            *seen = seen_copy.copy();
            result
        };
        let left: u16 = if direction == 60 {
            0
        } else {
            let result: u16 = walk_p2(g, index - 1, true, seen, Ghost(f));
            *seen = seen_copy.copy();
            result
        };
        let up: u16 = if direction == 94 {
            0
        } else {
            let result: u16 = walk_p2(g, index - g.width, true, seen, Ghost(f));
            *seen = seen_copy.copy();
            result
        };
        let down: u16 = if direction == 118 {
            0
        } else {
            let result: u16 = walk_p2(g, index + g.width, true, seen, Ghost(f));
            *seen = seen_copy.copy();
            result
        };
        let j: usize = next(g, index, direction);
        let ahead: u16 = walk_p2(g, j, changed, seen, Ghost(f));
        max16(max16(max16(max16(left, right), up), down), ahead)
    }
}

/// The arrow after `b`, turning clockwise.
fn wrong(b: u8) -> (r: u8)
    requires
        turn_clockwise(b) is Some,
    ensures
        turn_clockwise(b) == Some(r),
{
    if b == 94 {
        62
    } else if b == 62 {
        118
    } else if b == 118 {
        60
    } else {
        94
    }
}

/// The changed cell as the spec sees it.
pub open spec fn change_view(c: Option<(usize, u8)>) -> Option<(int, u8)> {
    match c {
        Some((i, d)) => Some((i as int, d)),
        None => None,
    }
}

/// Part 3: the walk from `index` (see `walk3`). The branches each work on a copy
/// of `seen`.
fn walk_p3(g: &Grid, index: usize, changed: Option<(usize, u8)>, turns: usize, seen: &mut Seen, Ghost(fuel): Ghost<nat>) -> (r: u16)
    requires
        g.wf(),
        old(seen).wf(),
        old(seen).capacity() >= g.cells@.len(),
        old(seen)@.len() <= u16::MAX,
        turns <= 3,
        walk3(g.cells@, g.width as int, old(seen)@, index as int, change_view(changed), turns as nat, fuel) is Some,
    ensures
        walk3(g.cells@, g.width as int, old(seen)@, index as int, change_view(changed), turns as nat, fuel) == Some(r as nat),
        final(seen).wf(),
        final(seen).capacity() == old(seen).capacity(),
    decreases fuel,
{
    let _n: usize = g.cells.len();
    let ghost m = g.cells@;
    let ghost w = g.width as int;
    let ghost f = (fuel - 1) as nat;
    proof {
        reveal_with_fuel(walk3, 2);
    }
    if !seen.insert(index) {
        proof {
            assert(seen@ =~= old(seen)@);
        }
        if turns == 3 || edge(g, index) {
            return seen.len() as u16;
        }
        let b: u8 = match changed {
            Some((ci, cd)) => if ci == index { cd } else { g.cells[index] },
            None => g.cells[index],
        };
        let d: u8 = wrong(b);
        let j: usize = next(g, index, d);
        return walk_p3(g, j, changed, turns + 1, seen, Ghost(f));
    }
    let direction: u8 = g.cells[index];
    if changed.is_some() || edge(g, index) {
        let j: usize = next(g, index, direction);
        walk_p3(g, j, changed, turns, seen, Ghost(f))
    } else {
        proof {
            assert(!is_edge(m.len() as int, w, index as int));
            assert(index >= 1) by {
                if index == 0 {
                    assert((index as int) % w == 0);
                }
            }
        }
        let right: u16 = if direction == 62 {
            0
        } else {
            let mut branch_seen = seen.copy();
            walk_p3(g, index + 1, Some((index, 62u8)), turns, &mut branch_seen, Ghost(f))
        };
        let left: u16 = if direction == 60 {
            0
        } else {
            let mut branch_seen = seen.copy();
            walk_p3(g, index - 1, Some((index, 60u8)), turns, &mut branch_seen, Ghost(f))
        };
        let up: u16 = if direction == 94 {
            0
        } else {
            let mut branch_seen = seen.copy();
            walk_p3(g, index - g.width, Some((index, 94u8)), turns, &mut branch_seen, Ghost(f))
        };
        let down: u16 = if direction == 118 {
            0
        } else {
            let mut branch_seen = seen.copy();
            walk_p3(g, index + g.width, Some((index, 118u8)), turns, &mut branch_seen, Ghost(f))
        };
        let j: usize = next(g, index, direction);
        let ahead: u16 = walk_p3(g, j, None, turns, seen, Ghost(f));
        max16(max16(max16(max16(left, right), up), down), ahead)
    }
}

fn max16(a: u16, b: u16) -> (r: u16)
    ensures
        r == if a >= b { a } else { b },
{
    if a >= b { a } else { b }
}


/// The input is a map whose rows all have the width of the first, small enough
/// for its cell set.
pub open spec fn map_ok(s: Seq<u8>) -> bool {
    &&& map_height(s) is Some
    &&& s.len() <= usize::MAX - 64
}

/// The part 1 walk on the input's map.
pub open spec fn part1_walk(s: Seq<u8>) -> Option<nat> {
    walk1(map_cells(s), map_width(s) as int, Set::empty(), 0, fuel_for(map_cells(s).len() as int))
}

/// The part 2 walk on the input's map.
pub open spec fn part2_walk(s: Seq<u8>) -> Option<nat> {
    walk2(map_cells(s), map_width(s) as int, Set::empty(), 0, false, fuel_for(map_cells(s).len() as int))
}

/// The part 3 walk on the input's map.
pub open spec fn part3_walk(s: Seq<u8>) -> Option<nat> {
    walk3(map_cells(s), map_width(s) as int, Set::empty(), 0, None, 0, fuel_for(map_cells(s).len() as int))
}

fn read_map(input: &[u8]) -> (g: Grid)
    requires
        map_ok(input@),
    ensures
        g.wf(),
        g.of(input@),
        g.cells@.len() <= usize::MAX - 64,
{
    let width: usize = line_width(input);
    let height: usize = line_count(input);
    proof {
        lemma_cells_len_le(input@);
    }
    load_map(input, width, height)
}

/// The number of cells the walker visits before it steps on a visited cell.
pub fn solve_part1(input: &[u8]) -> (r: u16)
    requires
        map_ok(input@),
        part1_walk(input@) is Some,
    ensures
        part1_walk(input@) == Some(r as nat),
{
    let g = read_map(input);
    let mut seen = Seen::new(g.cells.len());
    walk_p1(&g, &mut seen)
}

/// The most cells visited when the walker may once leave an inner cell in another
/// direction than its arrow.
pub fn solve_part2(input: &[u8]) -> (r: u16)
    requires
        map_ok(input@),
        part2_walk(input@) is Some,
    ensures
        part2_walk(input@) == Some(r as nat),
{
    let g = read_map(input);
    let mut seen = Seen::new(g.cells.len());
    walk_p2(&g, 0, false, &mut seen, Ghost(fuel_for(g.cells@.len() as int)))
}

/// The most cells visited when the walker may once change an inner cell's arrow and
/// turns clockwise, up to three times, on revisited cells.
pub fn solve_part3(input: &[u8]) -> (r: u16)
    requires
        map_ok(input@),
        part3_walk(input@) is Some,
    ensures
        part3_walk(input@) == Some(r as nat),
{
    let g = read_map(input);
    let mut seen = Seen::new(g.cells.len());
    walk_p3(&g, 0, None, 0, &mut seen, Ghost(fuel_for(g.cells@.len() as int)))
}

/// The three answers.
pub fn solve(input: &[u8]) -> (r: (u16, u16, u16))
    requires
        map_ok(input@),
        part1_walk(input@) is Some,
        part2_walk(input@) is Some,
        part3_walk(input@) is Some,
    ensures
        part1_walk(input@) == Some(r.0 as nat),
        part2_walk(input@) == Some(r.1 as nat),
        part3_walk(input@) == Some(r.2 as nat),
{
    (solve_part1(input), solve_part2(input), solve_part3(input))
}


proof fn lemma_walk2_covers_walk1(m: Seq<u8>, w: int, seen: Set<int>, i: int, fuel: nat)
    requires
        walk2(m, w, seen, i, false, fuel) is Some,
    ensures
        walk1(m, w, seen, i, fuel) is Some,
        walk1(m, w, seen, i, fuel)->0 <= walk2(m, w, seen, i, false, fuel)->0,
    decreases fuel,
{
    if fuel > 0 && 0 <= i < m.len() && !seen.contains(i) && seen.len() < u16::MAX {
        let s = seen.insert(i);
        let f = (fuel - 1) as nat;
        if let Some(j) = arrow_step(w, i, m[i]) {
            if walk2(m, w, s, j, false, f) is Some {
                lemma_walk2_covers_walk1(m, w, s, j, f);
            }
        }
    }
}

proof fn lemma_walk3_at_least_seen(m: Seq<u8>, w: int, seen: Set<int>, i: int, changed: Option<(int, u8)>, turns: nat, fuel: nat)
    requires
        seen.finite(),
        walk3(m, w, seen, i, changed, turns, fuel) is Some,
    ensures
        seen.len() <= walk3(m, w, seen, i, changed, turns, fuel)->0,
    decreases fuel,
{
    if fuel > 0 && 0 <= i < m.len() {
        let f = (fuel - 1) as nat;
        if seen.contains(i) {
            if !(turns == 3 || is_edge(m.len() as int, w, i)) {
                let b = match changed {
                    Some((ci, cd)) => if ci == i { cd } else { m[i] },
                    None => m[i],
                };
                if let Some(d) = turn_clockwise(b) {
                    if let Some(j) = arrow_step(w, i, d) {
                        lemma_walk3_at_least_seen(m, w, seen, j, changed, turns + 1, f);
                    }
                }
            }
        } else if seen.len() < u16::MAX {
            let s = seen.insert(i);
            let d = m[i];
            if changed is Some || is_edge(m.len() as int, w, i) {
                if let Some(j) = arrow_step(w, i, d) {
                    lemma_walk3_at_least_seen(m, w, s, j, changed, turns, f);
                }
            } else {
                if let Some(j) = arrow_step(w, i, d) {
                    if walk3(m, w, s, j, None, turns, f) is Some {
                        lemma_walk3_at_least_seen(m, w, s, j, None, turns, f);
                    }
                }
            }
        }
    }
}

proof fn lemma_walk3_covers_walk1(m: Seq<u8>, w: int, seen: Set<int>, i: int, turns: nat, fuel: nat)
    requires
        seen.finite(),
        walk3(m, w, seen, i, None, turns, fuel) is Some,
    ensures
        walk1(m, w, seen, i, fuel) is Some,
        walk1(m, w, seen, i, fuel)->0 <= walk3(m, w, seen, i, None, turns, fuel)->0,
    decreases fuel,
{
    if fuel > 0 && 0 <= i < m.len() {
        if seen.contains(i) {
            lemma_walk3_at_least_seen(m, w, seen, i, None, turns, fuel);
        } else if seen.len() < u16::MAX {
            let s = seen.insert(i);
            let f = (fuel - 1) as nat;
            if let Some(j) = arrow_step(w, i, m[i]) {
                if walk3(m, w, s, j, None, turns, f) is Some {
                    lemma_walk3_covers_walk1(m, w, s, j, turns, f);
                }
            }
        }
    }
}

/// The change that part 2 allows never shortens the walk: wherever part 2 has an
/// answer, part 1 has one too, and it is no larger.
pub proof fn law_change_never_shortens(s: Seq<u8>)
    requires
        part2_walk(s) is Some,
    ensures
        part1_walk(s) is Some,
        part1_walk(s)->0 <= part2_walk(s)->0,
{
    lemma_walk2_covers_walk1(map_cells(s), map_width(s) as int, Set::empty(), 0, fuel_for(map_cells(s).len() as int));
}

/// Turning on revisited cells never shortens the walk: wherever part 3 has an
/// answer, part 1 has one too, and it is no larger.
pub proof fn law_turns_never_shorten(s: Seq<u8>)
    requires
        part3_walk(s) is Some,
    ensures
        part1_walk(s) is Some,
        part1_walk(s)->0 <= part3_walk(s)->0,
{
    lemma_walk3_covers_walk1(map_cells(s), map_width(s) as int, Set::empty(), 0, 0, fuel_for(map_cells(s).len() as int));
}


proof fn lemma_walk3_covers_walk2(m: Seq<u8>, w: int, seen: Set<int>, i: int, changed: Option<(int, u8)>, turns: nat, fuel: nat)
    requires
        seen.finite(),
        walk3(m, w, seen, i, changed, turns, fuel) is Some,
    ensures
        walk2(m, w, seen, i, changed is Some, fuel) is Some,
        walk2(m, w, seen, i, changed is Some, fuel)->0 <= walk3(m, w, seen, i, changed, turns, fuel)->0,
    decreases fuel,
{
    if fuel > 0 && 0 <= i < m.len() {
        if seen.contains(i) {
            lemma_walk3_at_least_seen(m, w, seen, i, changed, turns, fuel);
        } else if seen.len() < u16::MAX {
            let s = seen.insert(i);
            let f = (fuel - 1) as nat;
            let d = m[i];
            if changed is Some || is_edge(m.len() as int, w, i) {
                if let Some(j) = arrow_step(w, i, d) {
                    lemma_walk3_covers_walk2(m, w, s, j, changed, turns, f);
                }
            } else {
                if d != 62 {
                    lemma_walk3_covers_walk2(m, w, s, i + 1, Some((i, 62u8)), turns, f);
                }
                if d != 60 {
                    lemma_walk3_covers_walk2(m, w, s, i - 1, Some((i, 60u8)), turns, f);
                }
                if d != 94 {
                    lemma_walk3_covers_walk2(m, w, s, i - w, Some((i, 94u8)), turns, f);
                }
                if d != 118 {
                    lemma_walk3_covers_walk2(m, w, s, i + w, Some((i, 118u8)), turns, f);
                }
                if let Some(j) = arrow_step(w, i, d) {
                    lemma_walk3_covers_walk2(m, w, s, j, None, turns, f);
                }
            }
        }
    }
}

proof fn lemma_walk3_bounded(m: Seq<u8>, w: int, seen: Set<int>, i: int, changed: Option<(int, u8)>, turns: nat, fuel: nat)
    requires
        seen.finite(),
        forall|x: int| #[trigger] seen.contains(x) ==> 0 <= x < m.len(),
        walk3(m, w, seen, i, changed, turns, fuel) is Some,
    ensures
        walk3(m, w, seen, i, changed, turns, fuel)->0 <= m.len(),
    decreases fuel,
{
    if fuel > 0 && 0 <= i < m.len() {
        let f = (fuel - 1) as nat;
        if seen.contains(i) {
            if turns == 3 || is_edge(m.len() as int, w, i) {
                vstd::set_lib::lemma_int_range(0, m.len() as int);
                vstd::set_lib::lemma_len_subset(seen, vstd::set_lib::set_int_range(0, m.len() as int));
            } else {
                let b = match changed {
                    Some((ci, cd)) => if ci == i { cd } else { m[i] },
                    None => m[i],
                };
                if let Some(d) = turn_clockwise(b) {
                    if let Some(j) = arrow_step(w, i, d) {
                        lemma_walk3_bounded(m, w, seen, j, changed, turns + 1, f);
                    }
                }
            }
        } else if seen.len() < u16::MAX {
            let s = seen.insert(i);
            let d = m[i];
            if changed is Some || is_edge(m.len() as int, w, i) {
                if let Some(j) = arrow_step(w, i, d) {
                    lemma_walk3_bounded(m, w, s, j, changed, turns, f);
                }
            } else {
                if d != 62 {
                    lemma_walk3_bounded(m, w, s, i + 1, Some((i, 62u8)), turns, f);
                }
                if d != 60 {
                    lemma_walk3_bounded(m, w, s, i - 1, Some((i, 60u8)), turns, f);
                }
                if d != 94 {
                    lemma_walk3_bounded(m, w, s, i - w, Some((i, 94u8)), turns, f);
                }
                if d != 118 {
                    lemma_walk3_bounded(m, w, s, i + w, Some((i, 118u8)), turns, f);
                }
                if let Some(j) = arrow_step(w, i, d) {
                    lemma_walk3_bounded(m, w, s, j, None, turns, f);
                }
            }
        }
    }
}

/// Turning on revisited cells never shortens part 2's walks, and no walk visits more
/// cells than the map has: wherever part 3 has an answer, part 2 has one too, and
/// part 2 <= part 3 <= the number of cells.
pub proof fn law_turns_extend_changes(s: Seq<u8>)
    requires
        part3_walk(s) is Some,
    ensures
        part2_walk(s) is Some,
        part2_walk(s)->0 <= part3_walk(s)->0,
        part3_walk(s)->0 <= map_cells(s).len(),
{
    let m = map_cells(s);
    let f = fuel_for(m.len() as int);
    lemma_walk3_covers_walk2(m, map_width(s) as int, Set::empty(), 0, None, 0, f);
    lemma_walk3_bounded(m, map_width(s) as int, Set::empty(), 0, None, 0, f);
}

/// Once the change is used, part 2 walks as part 1 does.
pub proof fn lemma_walk2_after_change(m: Seq<u8>, w: int, seen: Set<int>, i: int, fuel: nat)
    ensures
        walk2(m, w, seen, i, true, fuel) == walk1(m, w, seen, i, fuel),
    decreases fuel,
{
    if fuel > 0 && 0 <= i < m.len() && !seen.contains(i) && seen.len() < u16::MAX {
        if let Some(j) = arrow_step(w, i, m[i]) {
            lemma_walk2_after_change(m, w, seen.insert(i), j, (fuel - 1) as nat);
        }
    }
}

/// Part 2 in terms of part 1: once the change is used the walk is part 1's walk, so
/// at an inner cell not yet visited (before the change) part 2 takes the best of
/// following the arrow, still able to change later, and of leaving in each other
/// direction and then walking as in part 1.
pub proof fn law_change_is_one_plain_walk(m: Seq<u8>, w: int, seen: Set<int>, i: int, fuel: nat)
    requires
        fuel > 0,
        0 <= i < m.len(),
        !seen.contains(i),
        seen.len() < u16::MAX,
        !is_edge(m.len() as int, w, i),
    ensures
        ({
            let s = seen.insert(i);
            let f = (fuel - 1) as nat;
            let d = m[i];
            let right = if d == 62 { Some(0nat) } else { walk1(m, w, s, i + 1, f) };
            let left = if d == 60 { Some(0nat) } else { walk1(m, w, s, i - 1, f) };
            let up = if d == 94 { Some(0nat) } else { walk1(m, w, s, i - w, f) };
            let down = if d == 118 { Some(0nat) } else { walk1(m, w, s, i + w, f) };
            let ahead = match arrow_step(w, i, d) {
                None => None,
                Some(j) => walk2(m, w, s, j, false, f),
            };
            walk2(m, w, seen, i, false, fuel) == max_opt(max_opt(max_opt(max_opt(left, right), up), down), ahead)
        }),
{
    let s = seen.insert(i);
    let f = (fuel - 1) as nat;
    lemma_walk2_after_change(m, w, s, i + 1, f);
    lemma_walk2_after_change(m, w, s, i - 1, f);
    lemma_walk2_after_change(m, w, s, i - w, f);
    lemma_walk2_after_change(m, w, s, i + w, f);
}

} // verus!
