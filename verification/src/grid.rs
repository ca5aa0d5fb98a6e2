//! Rectangular maps given as lines of bytes.
use vstd::prelude::*;

verus! {

/// A line-ending byte: `'\r'` or `'\n'`.
pub open spec fn is_line_end(b: u8) -> bool {
    b == 13 || b == 10
}

/// The number of bytes from `i` up to the first line end.
pub open spec fn width_from(s: Seq<u8>, i: int) -> nat
    decreases s.len() - i,
{
    if 0 <= i < s.len() && !is_line_end(s[i]) {
        1 + width_from(s, i + 1)
    } else {
        0
    }
}

/// The width of the map: the length of its first line.
pub open spec fn map_width(s: Seq<u8>) -> nat {
    width_from(s, 0)
}

/// The number of rows of the bytes from `i` on, given `cols` cells already read in
/// the current row and `rows` finished rows; `None` if a row's width is not `w`.
/// A `'\r'` is skipped wherever it stands.
pub open spec fn rows_from(s: Seq<u8>, w: nat, i: int, cols: nat, rows: nat) -> Option<nat>
    decreases s.len() - i,
{
    if i >= s.len() {
        if cols == 0 {
            Some(rows)
        } else if cols == w {
            Some(rows + 1)
        } else {
            None
        }
    } else if s[i] == 13 {
        rows_from(s, w, i + 1, cols, rows)
    } else if s[i] == 10 {
        if cols == w {
            rows_from(s, w, i + 1, 0, rows + 1)
        } else {
            None
        }
    } else {
        rows_from(s, w, i + 1, cols + 1, rows)
    }
}

/// The number of rows of a well-formed map: it is not empty and all its rows have
/// the width of the first.
pub open spec fn map_height(s: Seq<u8>) -> Option<nat> {
    if map_width(s) == 0 {
        None
    } else {
        rows_from(s, map_width(s), 0, 0, 0)
    }
}

/// The cells of the map: its bytes without line ends, row after row.
pub open spec fn map_cells(s: Seq<u8>) -> Seq<u8>
    decreases s.len(),
{
    if s.len() == 0 {
        seq![]
    } else if is_line_end(s.last()) {
        map_cells(s.drop_last())
    } else {
        map_cells(s.drop_last()).push(s.last())
    }
}

/// A map has no more cells than its text has bytes.
pub proof fn lemma_cells_len_le(s: Seq<u8>)
    ensures
        map_cells(s).len() <= s.len(),
    decreases s.len(),
{
    if s.len() > 0 {
        lemma_cells_len_le(s.drop_last());
    }
}

/// A map read from its text: `cells[y * width + x]` is the byte at column `x` of row `y`.
pub struct Grid {
    pub cells: Vec<u8>,
    pub width: usize,
    pub height: usize,
}

impl Grid {
    /// The grid holds `width * height` cells and is not empty.
    pub open spec fn wf(&self) -> bool {
        &&& self.width >= 1
        &&& self.height >= 1
        &&& self.cells@.len() == self.width * self.height
    }

    /// The grid is the one that the text `s` describes.
    pub open spec fn of(&self, s: Seq<u8>) -> bool {
        &&& self.width == map_width(s)
        &&& map_height(s) == Some(self.height as nat)
        &&& self.cells@ == map_cells(s)
    }
}

/// The length of the first line, which must not be empty.
pub fn line_width(input: &[u8]) -> (w: usize)
    requires
        map_width(input@) > 0,
    ensures
        w == map_width(input@),
{
    first_width(input)
}

/// The length of the first line, 0 where it is empty.
fn first_width(input: &[u8]) -> (w: usize)
    ensures
        w == map_width(input@),
{
    let mut w: usize = 0;
    while w < input.len() && input[w] != 13 && input[w] != 10
        invariant
            w <= input@.len(),
            width_from(input@, 0) == w + width_from(input@, w as int),
        decreases input@.len() - w,
    {
        w = w + 1;
    }
    w
}

/// The number of rows of a map whose first line is not empty and whose rows all
/// have its width.
pub fn line_count(input: &[u8]) -> (r: usize)
    requires
        map_height(input@) is Some,
    ensures
        map_height(input@) == Some(r as nat),
{
    match row_count(input) {
        Some(h) => h,
        None => 0,
    }
}

/// The number of rows, or `None` where the first line is empty or a row's width
/// differs from the first: whether the input is a map, and its height.
pub fn row_count(input: &[u8]) -> (r: Option<usize>)
    ensures
        r matches Some(h) ==> map_height(input@) == Some(h as nat),
        r is None ==> map_height(input@) is None,
{
    let width: usize = first_width(input);
    if width == 0 {
        return None;
    }
    let mut rows: usize = 0;
    let mut columns: usize = 0;
    let mut index: usize = 0;
    while index < input.len()
        invariant
            index <= input@.len(),
            width == map_width(input@),
            width >= 1,
            rows + columns <= index,
            columns <= width,
            map_height(input@) == rows_from(input@, width as nat, index as int, columns as nat, rows as nat),
        decreases input@.len() - index,
    {
        let b: u8 = input[index];
        if b == 13 {
        } else if b == 10 {
            if columns != width {
                return None;
            }
            rows = rows + 1;
            columns = 0;
        } else {
            if columns == width {
                proof {
                    lemma_rows_too_wide(input@, width as nat, index + 1, (columns + 1) as nat, rows as nat);
                }
                return None;
            }
            columns = columns + 1;
        }
        index = index + 1;
    }
    if columns != 0 {
        if columns != width {
            return None;
        }
        rows = rows + 1;
    }
    Some(rows)
}

/// A row that already has more than `w` cells never closes.
proof fn lemma_rows_too_wide(s: Seq<u8>, w: nat, i: int, cols: nat, rows: nat)
    requires
        cols > w,
        0 <= i <= s.len(),
    ensures
        rows_from(s, w, i, cols, rows) is None,
    decreases s.len() - i,
{
    if i < s.len() {
        if s[i] == 13 {
            lemma_rows_too_wide(s, w, i + 1, cols, rows);
        } else if s[i] != 10 {
            lemma_rows_too_wide(s, w, i + 1, cols + 1, rows);
        }
    }
}

/// The cells of a well-formed map number `width * height`.
proof fn lemma_cells_len(s: Seq<u8>, w: nat, i: int, cols: nat, rows: nat, h: nat)
    requires
        0 <= i <= s.len(),
        map_cells(s.take(i)).len() == rows * w + cols,
        rows_from(s, w, i, cols, rows) == Some(h),
    ensures
        map_cells(s).len() == h * w,
    decreases s.len() - i,
{
    if i == s.len() {
        assert(s.take(i) =~= s);
        if cols != 0 {
            assert((rows + 1) * w == rows * w + w) by (nonlinear_arith);
        }
    } else {
        assert(s.take(i + 1).drop_last() =~= s.take(i));
        if s[i] == 13 {
            lemma_cells_len(s, w, i + 1, cols, rows, h);
        } else if s[i] == 10 {
            assert((rows + 1) * w == rows * w + w) by (nonlinear_arith);
            lemma_cells_len(s, w, i + 1, 0, rows + 1, h);
        } else {
            lemma_cells_len(s, w, i + 1, cols + 1, rows, h);
        }
    }
}

/// Reads the cells of a well-formed map.
pub fn load_map(input: &[u8], width: usize, height: usize) -> (g: Grid)
    requires
        width == map_width(input@),
        map_height(input@) == Some(height as nat),
    ensures
        g.wf(),
        g.of(input@),
{
    proof {
        assert(input@.take(0) =~= Seq::<u8>::empty());
        lemma_cells_len(input@, width as nat, 0, 0, 0, height as nat);
    }
    let mut cells: Vec<u8> = Vec::new();
    let mut src: usize = 0;
    while src < input.len()
        invariant
            src <= input@.len(),
            cells@ == map_cells(input@.take(src as int)),
        decreases input@.len() - src,
    {
        proof {
            assert(input@.take(src + 1).drop_last() =~= input@.take(src as int));
        }
        if input[src] != 13 && input[src] != 10 {
            cells.push(input[src]);
        }
        src = src + 1;
    }
    assert(input@.take(src as int) =~= input@);
    proof {
        if height == 0 {
            assert(map_cells(input@).len() == 0);
        }
    }
    let g = Grid { cells, width, height };
    proof {
        assert(width >= 1);
        if height == 0 {
            lemma_first_row_nonempty(input@, width as nat);
        }
    }
    g
}

/// A map whose first row is not empty has at least one row.
proof fn lemma_first_row_nonempty(s: Seq<u8>, w: nat)
    requires
        w == map_width(s),
        w >= 1,
    ensures
        !(rows_from(s, w, 0, 0, 0) == Some(0nat)),
{
    lemma_rows_positive(s, w, 0, 0, 0);
}

proof fn lemma_rows_positive(s: Seq<u8>, w: nat, i: int, cols: nat, rows: nat)
    requires
        0 <= i <= s.len(),
        w >= 1,
        cols + width_from(s, i) == w,
        cols < w ==> i < s.len(),
    ensures
        rows_from(s, w, i, cols, rows) matches Some(h) ==> h >= rows + 1,
    decreases s.len() - i,
{
    if i < s.len() {
        if s[i] == 13 {
            // the first line ends here; a later row or the final check closes it
            lemma_rows_at_least(s, w, i + 1, cols, rows);
        } else if s[i] == 10 {
            lemma_rows_at_least(s, w, i + 1, 0, rows + 1);
        } else {
            if cols + 1 < w {
                lemma_rows_positive(s, w, i + 1, cols + 1, rows);
            } else {
                lemma_rows_at_least(s, w, i + 1, cols + 1, rows);
            }
        }
    }
}

/// With cells read in the current row, the count closes at least one more row.
proof fn lemma_rows_at_least(s: Seq<u8>, w: nat, i: int, cols: nat, rows: nat)
    requires
        0 <= i <= s.len(),
    ensures
        rows_from(s, w, i, cols, rows) matches Some(h) ==> h >= rows + (if cols > 0 { 1nat } else { 0nat }),
    decreases s.len() - i,
{
    if i < s.len() {
        if s[i] == 13 {
            lemma_rows_at_least(s, w, i + 1, cols, rows);
        } else if s[i] == 10 {
            lemma_rows_at_least(s, w, i + 1, 0, rows + 1);
        } else {
            lemma_rows_at_least(s, w, i + 1, cols + 1, rows);
        }
    }
}

/// Reads a map, or `None` where it is empty or its rows differ in width.
pub fn parse_grid(input: &[u8]) -> (r: Option<Grid>)
    ensures
        r matches Some(g) ==> g.wf() && g.of(input@),
        r is None ==> map_height(input@) is None,
{
    match row_count(input) {
        None => None,
        Some(height) => Some(load_map(input, first_width(input), height)),
    }
}

/// `i` is the only index of `c` that holds `m`.
pub open spec fn unique_at(c: Seq<u8>, m: u8, i: int) -> bool {
    &&& 0 <= i < c.len()
    &&& c[i] == m
    &&& forall|j: int| 0 <= j < c.len() && j != i ==> c[j] != m
}

/// The index of the only cell that holds `marker`, which must occur exactly once.
pub fn find_marker(cells: &Vec<u8>, marker: u8) -> (r: usize)
    requires
        exists|i: int| unique_at(cells@, marker, i),
    ensures
        unique_at(cells@, marker, r as int),
{
    match find_unique(cells, marker) {
        Some(i) => i,
        None => 0,
    }
}

/// The index of the only cell that holds `marker`; `None` where there is none or
/// more than one.
pub fn find_unique(cells: &Vec<u8>, marker: u8) -> (r: Option<usize>)
    ensures
        r matches Some(i) ==> unique_at(cells@, marker, i as int),
        r is None ==> forall|i: int| !unique_at(cells@, marker, i),
{
    let mut found: Option<usize> = None;
    let mut index: usize = 0;
    while index < cells.len()
        invariant
            index <= cells@.len(),
            found matches Some(f) ==> f < index && cells@[f as int] == marker
                && forall|j: int| 0 <= j < index && j != f ==> cells@[j] != marker,
            found is None ==> forall|j: int| 0 <= j < index ==> cells@[j] != marker,
        decreases cells@.len() - index,
    {
        if cells[index] == marker {
            if found.is_some() {
                proof {
                    let f = found->0;
                    assert forall|i: int| !unique_at(cells@, marker, i) by {
                        if unique_at(cells@, marker, i) {
                            assert(i == f || i == index);
                        }
                    }
                }
                return None;
            }
            found = Some(index);
        }
        index = index + 1;
    }
    found
}


/// `j` is one of the up to four cells beside `i` in a map `w` cells wide with `n`
/// cells: above, below, left or right.
pub open spec fn adjacent(w: int, n: int, i: int, j: int) -> bool {
    ||| (i >= w && j == i - w)
    ||| (i + w < n && j == i + w)
    ||| (i % w != 0 && j == i - 1)
    ||| (i % w + 1 < w && j == i + 1)
}

/// The cells beside `i`, in the order above, below, left, right.
pub fn grid_neighbours(w: usize, n: usize, i: usize) -> (r: Vec<usize>)
    requires
        w >= 1,
        i < n,
        n as int % w as int == 0,
    ensures
        forall|k: int| 0 <= k < r@.len() ==> #[trigger] r@[k] < n && adjacent(w as int, n as int, i as int, r@[k] as int),
        forall|j: int| adjacent(w as int, n as int, i as int, j) ==> exists|k: int| 0 <= k < r@.len() && r@[k] as int == j,
{
    let mut r: Vec<usize> = Vec::new();
    let x: usize = i % w;
    if i >= w {
        r.push(i - w);
    }
    if w < n - i {
        r.push(i + w);
    }
    if x != 0 {
        proof {
            if i == 0 {
                assert((0 as int) % (w as int) == 0);
            }
        }
        r.push(i - 1);
    }
    if x + 1 < w {
        proof {
            vstd::arithmetic::div_mod::lemma_fundamental_div_mod(i as int, w as int);
            assert((i as int) / (w as int) >= 0) by {
                vstd::arithmetic::div_mod::lemma_div_pos_is_pos(i as int, w as int);
            }
            vstd::arithmetic::div_mod::lemma_fundamental_div_mod(n as int, w as int);
            let q = (i as int) / (w as int);
            let k = (n as int) / (w as int);
            assert(q < k) by (nonlinear_arith)
                requires
                    i == w * q + x,
                    n == w * k,
                    i < n,
                    0 <= x,
                    w >= 1,
            {
            }
            assert(i + 1 < n) by (nonlinear_arith)
                requires
                    i == w * q + x,
                    n == w * k,
                    x + 1 < w,
                    q + 1 <= k,
                    w >= 1,
            {
            }
        }
        r.push(i + 1);
    }
    proof {
        assert forall|j: int| adjacent(w as int, n as int, i as int, j) implies exists|k: int| 0 <= k < r@.len() && r@[k] as int == j by {
            if i >= w && j == i - w {
                assert(r@[0] as int == j);
            } else if i + w < n && j == i + w {
                if i >= w { assert(r@[1] as int == j); } else { assert(r@[0] as int == j); }
            } else if (i as int) % (w as int) != 0 && j == i - 1 {
                assert(r@[r@.len() - 1 - (if x + 1 < w { 1int } else { 0int })] as int == j);
            } else {
                assert(r@[r@.len() - 1] as int == j);
            }
        }
    }
    r
}

} // verus!
