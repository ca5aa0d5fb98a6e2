//! Stoats breeding by rules. Each line `X:Y,Z,...` names a stoat letter and, at
//! every second byte from the third on, letters it relates to. Letters run from
//! `A` to `J`.
//!
//! Part 1 reads each line as "every `X` begets one of each listed letter" and
//! counts the stoats after 7 generations from one `A` and one `B`.
//!
//! Parts 2 and 3 read a line `X:Y,C1,C2,...` as a rule for the adjacent pairs
//! `XY` and `YX`: the pair turns into the chain of pairs through the listed
//! children. Starting from the pair `AB`, they count the stoats of the chain
//! after 7 and 21 generations.
use vstd::prelude::*;
use crate::text::{line_ranges, lines, ranges_in, ranges_view, sum};

verus! {

/// The letters `A` to `J`.
pub const ALPHABET: usize = 10;

/// The number of ordered letter pairs.
pub const PAIRS: usize = 100;

/// A letter of the alphabet.
pub open spec fn in_alphabet(b: u8) -> bool {
    65 <= b && b < 75
}

/// The index of a letter.
pub open spec fn letter(b: u8) -> int {
    b - 65
}

/// The number of letters listed from the third byte on, at every second byte.
pub open spec fn target_count(l: Seq<u8>) -> int {
    if l.len() <= 2 {
        0
    } else {
        (l.len() - 1) / 2
    }
}

/// A line that part 1 can read: a letter, then listed letters.
pub open spec fn line_ok1(l: Seq<u8>) -> bool {
    &&& l.len() >= 2
    &&& in_alphabet(l[0])
    &&& forall|k: int| 0 <= k < target_count(l) ==> #[trigger] in_alphabet(l[2 + 2 * k])
}

/// The first `k` listed letters of `l` tallied into the begetting table `m`
/// (indexed by parent letter times 10 plus child letter).
pub open spec fn tally_line(m: Seq<int>, l: Seq<u8>, k: int) -> Seq<int>
    decreases k,
{
    if k <= 0 {
        m
    } else {
        let p = tally_line(m, l, k - 1);
        let idx = letter(l[0]) * 10 + letter(l[2 * k]);
        if 0 <= idx < p.len() {
            p.update(idx, p[idx] + 1)
        } else {
            p
        }
    }
}

/// The begetting table of the first `i` lines.
pub open spec fn tally(ls: Seq<Seq<u8>>, i: int) -> Seq<int>
    decreases i,
{
    if i <= 0 {
        Seq::new(100, |q: int| 0int)
    } else {
        tally_line(tally(ls, i - 1), ls[i - 1], target_count(ls[i - 1]))
    }
}

/// `acc` with the children of parent `f`, `c` of them, added for the first `t` letters.
pub open spec fn grow_row(acc: Seq<int>, r: Seq<int>, c: int, f: int, t: int) -> Seq<int>
    decreases t,
{
    if t <= 0 {
        acc
    } else {
        let a = grow_row(acc, r, c, f, t - 1);
        a.update(t - 1, a[t - 1] + c * r[f * 10 + t - 1])
    }
}

/// The next generation's counts from the parents `0..f`.
pub open spec fn grow_rows(r: Seq<int>, v: Seq<int>, f: int) -> Seq<int>
    decreases f,
{
    if f <= 0 {
        Seq::new(10, |q: int| 0int)
    } else {
        grow_row(grow_rows(r, v, f - 1), r, v[f - 1], f - 1, 10)
    }
}

/// The stoat counts, by letter, after `g` generations from one `A` and one `B`.
pub open spec fn population1(r: Seq<int>, g: nat) -> Seq<int>
    decreases g,
{
    if g == 0 {
        Seq::new(10, |q: int| if q < 2 { 1int } else { 0int })
    } else {
        grow_rows(r, population1(r, (g - 1) as nat), 10)
    }
}

/// Every line can be read, and no count overflows a `u64`: not the table, not a
/// generation, not the total.
pub open spec fn part1_ok(s: Seq<u8>) -> bool {
    let ls = lines(s);
    let r = tally(ls, ls.len() as int);
    &&& forall|i: int| 0 <= i < ls.len() ==> line_ok1(#[trigger] ls[i])
    &&& forall|q: int| 0 <= q < 100 ==> #[trigger] r[q] <= u64::MAX
    &&& forall|g: nat, q: int| g <= 7 && 0 <= q < 10 ==> #[trigger] population1(r, g)[q] <= u64::MAX
    &&& sum(population1(r, 7)) <= u64::MAX
}

/// The number of stoats after 7 generations.
pub open spec fn part1_answer(s: Seq<u8>) -> int {
    let ls = lines(s);
    sum(population1(tally(ls, ls.len() as int), 7))
}


/// All entries of `s` are at least 0.
pub open spec fn nonneg(s: Seq<int>) -> bool {
    forall|q: int| 0 <= q < s.len() ==> 0 <= #[trigger] s[q]
}

proof fn lemma_tally_line_wf(m: Seq<int>, l: Seq<u8>, k: int)
    requires
        m.len() == 100,
        nonneg(m),
    ensures
        tally_line(m, l, k).len() == 100,
        nonneg(tally_line(m, l, k)),
    decreases k,
{
    if k > 0 {
        lemma_tally_line_wf(m, l, k - 1);
    }
}

proof fn lemma_tally_line(m: Seq<int>, l: Seq<u8>, k1: int, k2: int)
    requires
        0 <= k1 <= k2,
        m.len() == 100,
        nonneg(m),
    ensures
        forall|q: int| 0 <= q < 100 ==> #[trigger] tally_line(m, l, k1)[q] <= tally_line(m, l, k2)[q],
    decreases k2,
{
    if k2 > k1 {
        lemma_tally_line(m, l, k1, k2 - 1);
        lemma_tally_line_wf(m, l, k2 - 1);
    }
}

proof fn lemma_tally_wf(ls: Seq<Seq<u8>>, i: int)
    ensures
        tally(ls, i).len() == 100,
        nonneg(tally(ls, i)),
    decreases i,
{
    if i > 0 {
        lemma_tally_wf(ls, i - 1);
        lemma_tally_line_wf(tally(ls, i - 1), ls[i - 1], target_count(ls[i - 1]));
    }
}

proof fn lemma_tally(ls: Seq<Seq<u8>>, i: int, j: int)
    requires
        0 <= i <= j,
    ensures
        tally(ls, i).len() == 100,
        nonneg(tally(ls, i)),
        forall|q: int| 0 <= q < 100 ==> #[trigger] tally(ls, i)[q] <= tally(ls, j)[q],
    decreases j,
{
    lemma_tally_wf(ls, i);
    if j > i {
        lemma_tally(ls, i, j - 1);
        lemma_tally_wf(ls, j - 1);
        lemma_tally_line(tally(ls, j - 1), ls[j - 1], 0, target_count(ls[j - 1]));
        assert(tally(ls, j) == tally_line(tally(ls, j - 1), ls[j - 1], target_count(ls[j - 1])));
        assert(tally_line(tally(ls, j - 1), ls[j - 1], 0) == tally(ls, j - 1));
    }
}

proof fn lemma_grow_row_wf(acc: Seq<int>, r: Seq<int>, c: int, f: int, t: int)
    requires
        0 <= t <= 10,
        0 <= f < 10,
        acc.len() == 10,
        nonneg(acc),
        r.len() == 100,
        nonneg(r),
        c >= 0,
    ensures
        grow_row(acc, r, c, f, t).len() == 10,
        nonneg(grow_row(acc, r, c, f, t)),
        forall|q: int| t <= q < 10 ==> #[trigger] grow_row(acc, r, c, f, t)[q] == acc[q],
    decreases t,
{
    if t > 0 {
        lemma_grow_row_wf(acc, r, c, f, t - 1);
        assert(0 <= c * r[f * 10 + t - 1]) by (nonlinear_arith)
            requires
                c >= 0,
                r[f * 10 + t - 1] >= 0,
        ;
    }
}

proof fn lemma_grow_row(acc: Seq<int>, r: Seq<int>, c: int, f: int, t1: int, t2: int)
    requires
        0 <= t1 <= t2 <= 10,
        0 <= f < 10,
        acc.len() == 10,
        nonneg(acc),
        r.len() == 100,
        nonneg(r),
        c >= 0,
    ensures
        grow_row(acc, r, c, f, t1).len() == 10,
        nonneg(grow_row(acc, r, c, f, t1)),
        forall|q: int| 0 <= q < 10 ==> #[trigger] grow_row(acc, r, c, f, t1)[q] <= grow_row(acc, r, c, f, t2)[q],
        forall|q: int| t1 <= q < 10 ==> #[trigger] grow_row(acc, r, c, f, t1)[q] == acc[q],
    decreases t2,
{
    lemma_grow_row_wf(acc, r, c, f, t1);
    if t2 > t1 {
        lemma_grow_row(acc, r, c, f, t1, t2 - 1);
        lemma_grow_row_wf(acc, r, c, f, t2 - 1);
        assert(0 <= c * r[f * 10 + t2 - 1]) by (nonlinear_arith)
            requires
                c >= 0,
                r[f * 10 + t2 - 1] >= 0,
        ;
    }
}

proof fn lemma_grow_rows_wf(r: Seq<int>, v: Seq<int>, f: int)
    requires
        0 <= f <= 10,
        r.len() == 100,
        nonneg(r),
        v.len() == 10,
        nonneg(v),
    ensures
        grow_rows(r, v, f).len() == 10,
        nonneg(grow_rows(r, v, f)),
    decreases f,
{
    if f > 0 {
        lemma_grow_rows_wf(r, v, f - 1);
        lemma_grow_row_wf(grow_rows(r, v, f - 1), r, v[f - 1], f - 1, 10);
    }
}

proof fn lemma_grow_rows(r: Seq<int>, v: Seq<int>, f1: int, f2: int)
    requires
        0 <= f1 <= f2 <= 10,
        r.len() == 100,
        nonneg(r),
        v.len() == 10,
        nonneg(v),
    ensures
        grow_rows(r, v, f1).len() == 10,
        nonneg(grow_rows(r, v, f1)),
        forall|q: int| 0 <= q < 10 ==> #[trigger] grow_rows(r, v, f1)[q] <= grow_rows(r, v, f2)[q],
    decreases f2,
{
    lemma_grow_rows_wf(r, v, f1);
    if f2 > f1 {
        lemma_grow_rows(r, v, f1, f2 - 1);
        lemma_grow_rows_wf(r, v, f2 - 1);
        lemma_grow_row(grow_rows(r, v, f2 - 1), r, v[f2 - 1], f2 - 1, 0, 10);
    }
}

proof fn lemma_population1(r: Seq<int>, g: nat)
    requires
        r.len() == 100,
        nonneg(r),
    ensures
        population1(r, g).len() == 10,
        nonneg(population1(r, g)),
    decreases g,
{
    if g > 0 {
        lemma_population1(r, (g - 1) as nat);
        lemma_grow_rows_wf(r, population1(r, (g - 1) as nat), 10);
    }
}

fn zeros(n: usize) -> (v: Vec<u64>)
    ensures
        v@.len() == n,
        forall|q: int| 0 <= q < n ==> #[trigger] v@[q] == 0,
{
    let mut v: Vec<u64> = Vec::new();
    let mut k: usize = 0;
    while k < n
        invariant
            k <= n,
            v@.len() == k,
            forall|q: int| 0 <= q < k ==> #[trigger] v@[q] == 0,
        decreases n - k,
    {
        v.push(0);
        k = k + 1;
    }
    v
}

/// The number of stoats after 7 generations of part 1's begetting rules.
pub fn solve_part1(input: &[u8]) -> (r: u64)
    requires
        part1_ok(input@),
    ensures
        r == part1_answer(input@),
{
    let ranges = line_ranges(input);
    let ghost ls = lines(input@);
    let ghost fin = tally(ls, ls.len() as int);
    let mut rules: Vec<u64> = zeros(PAIRS);
    let mut i: usize = 0;
    proof {
        assert(tally(ls, 0) =~= Seq::new(100, |q: int| 0int));
    }
    while i < ranges.len()
        invariant
            i <= ranges@.len() == ls.len(),
            ls == lines(input@),
            ranges_in(ranges@, input@.len()),
            ranges_view(input@, ranges@) == ls,
            part1_ok(input@),
            fin == tally(ls, ls.len() as int),
            rules@.len() == 100,
            forall|q: int| 0 <= q < 100 ==> #[trigger] rules@[q] as int == tally(ls, i as int)[q],
        decreases ranges@.len() - i,
    {
        let (a, b) = ranges[i];
        proof {
            assert(ranges@[i as int].0 <= ranges@[i as int].1);
        }
        let line = vstd::slice::slice_subrange(input, a, b);
        let ghost l = line@;
        proof {
            assert(l == ls[i as int]);
            assert(line_ok1(l));
            lemma_tally(ls, i as int, ls.len() as int);
            lemma_tally(ls, i + 1, ls.len() as int);
        }
        let from: usize = (line[0] - 65) as usize;
        let tcount: usize = if line.len() <= 2 { 0 } else { (line.len() - 1) / 2 };
        let mut k: usize = 0;
        proof {
            assert(tally(ls, i + 1) == tally_line(tally(ls, i as int), l, target_count(l)));
            assert(tally_line(tally(ls, i as int), l, 0) == tally(ls, i as int));
        }
        while k < tcount
            invariant
                l == line@,
                l == ls[i as int],
                line_ok1(l),
                from as int == letter(l[0]),
                0 <= from < 10,
                0 <= k <= target_count(l),
                tcount == target_count(l),
                2 * tcount + 1 <= l.len() <= usize::MAX,
                tally(ls, i + 1) == tally_line(tally(ls, i as int), l, target_count(l)),
                rules@.len() == 100,
                forall|q: int| 0 <= q < 100 ==> #[trigger] rules@[q] as int == tally_line(tally(ls, i as int), l, k as int)[q],
                forall|q: int| 0 <= q < 100 ==> #[trigger] tally(ls, i + 1)[q] <= fin[q],
                forall|q: int| 0 <= q < 100 ==> #[trigger] fin[q] <= u64::MAX,
                tally(ls, i as int).len() == 100,
                nonneg(tally(ls, i as int)),
                ls.len() > i,
            decreases tcount - k,
        {
            let pos: usize = 2 + 2 * k;
            proof {
                assert(k < target_count(l));
                assert(in_alphabet(l[2 + 2 * (k as int)]));
                lemma_tally_line(tally(ls, i as int), l, k + 1, target_count(l));
            }
            let to: usize = (line[pos] - 65) as usize;
            let idx: usize = from * 10 + to;
            proof {
                let m0 = tally(ls, i as int);
                lemma_tally_line_wf(m0, l, k as int);
                assert(tally_line(m0, l, k + 1)[idx as int] == tally_line(m0, l, k as int)[idx as int] + 1);
                assert(tally_line(m0, l, k + 1)[idx as int] <= tally(ls, i + 1)[idx as int]);
            }
            rules.set(idx, rules[idx] + 1);
            k = k + 1;
        }
        proof {
            assert(k == target_count(l));
        }
        i = i + 1;
    }
    let ghost r = fin;
    proof {
        lemma_tally(ls, ls.len() as int, ls.len() as int);
    }
    let mut stoats: Vec<u64> = zeros(ALPHABET);
    stoats.set(0, 1);
    stoats.set(1, 1);
    let mut g: usize = 0;
    proof {
        assert(stoats@.len() == 10);
    }
    while g < 7
        invariant
            g <= 7,
            part1_ok(input@),
            r == tally(ls, ls.len() as int),
            ls == lines(input@),
            r.len() == 100,
            nonneg(r),
            rules@.len() == 100,
            forall|q: int| 0 <= q < 100 ==> #[trigger] rules@[q] as int == r[q],
            stoats@.len() == 10,
            forall|q: int| 0 <= q < 10 ==> #[trigger] stoats@[q] as int == population1(r, g as nat)[q],
        decreases 7 - g,
    {
        let ghost v = population1(r, g as nat);
        proof {
            lemma_population1(r, g as nat);
        }
        let mut next: Vec<u64> = zeros(ALPHABET);
        let mut f: usize = 0;
        proof {
            assert(grow_rows(r, v, 0) =~= Seq::new(10, |q: int| 0int));
        }
        while f < 10
            invariant
                f <= 10,
                g < 7,
                part1_ok(input@),
                r == tally(ls, ls.len() as int),
                ls == lines(input@),
                r.len() == 100,
                nonneg(r),
                v == population1(r, g as nat),
                v.len() == 10,
                nonneg(v),
                rules@.len() == 100,
                forall|q: int| 0 <= q < 100 ==> #[trigger] rules@[q] as int == r[q],
                stoats@.len() == 10,
                forall|q: int| 0 <= q < 10 ==> #[trigger] stoats@[q] as int == v[q],
                next@.len() == 10,
                forall|q: int| 0 <= q < 10 ==> #[trigger] next@[q] as int == grow_rows(r, v, f as int)[q],
            decreases 10 - f,
        {
            let count: u64 = stoats[f];
            let mut t: usize = 0;
            proof {
                lemma_grow_rows(r, v, f as int, 10);
                lemma_grow_rows(r, v, f + 1, 10);
                assert(population1(r, (g + 1) as nat) == grow_rows(r, v, 10));
            }
            while t < 10
                invariant
                    t <= 10,
                    f < 10,
                    g < 7,
                    part1_ok(input@),
                    r == tally(ls, ls.len() as int),
                    ls == lines(input@),
                    r.len() == 100,
                    nonneg(r),
                    v == population1(r, g as nat),
                    v.len() == 10,
                    nonneg(v),
                    count as int == v[f as int],
                    rules@.len() == 100,
                    forall|q: int| 0 <= q < 100 ==> #[trigger] rules@[q] as int == r[q],
                    next@.len() == 10,
                    grow_rows(r, v, f as int).len() == 10,
                    nonneg(grow_rows(r, v, f as int)),
                    forall|q: int| 0 <= q < 10 ==> #[trigger] next@[q] as int == grow_row(grow_rows(r, v, f as int), r, v[f as int], f as int, t as int)[q],
                    forall|q: int| 0 <= q < 10 ==> #[trigger] grow_rows(r, v, f + 1)[q] <= grow_rows(r, v, 10)[q],
                    grow_rows(r, v, 10) == population1(r, (g + 1) as nat),
                decreases 10 - t,
            {
                proof {
                    let acc = grow_rows(r, v, f as int);
                    lemma_grow_row(acc, r, v[f as int], f as int, t + 1, 10);
                    lemma_grow_row(acc, r, v[f as int], f as int, t as int, 10);
                    assert(population1(r, (g + 1) as nat)[t as int] <= u64::MAX);
                    let c = v[f as int];
                    assert(grow_row(acc, r, c, f as int, t + 1)[t as int] == grow_row(acc, r, c, f as int, t as int)[t as int] + c * r[f * 10 + t]);
                    assert(grow_rows(r, v, f + 1) == grow_row(acc, r, c, f as int, 10));
                    assert(grow_row(acc, r, c, f as int, t + 1)[t as int] <= grow_rows(r, v, f + 1)[t as int]);
                    assert(grow_rows(r, v, f + 1)[t as int] <= grow_rows(r, v, 10)[t as int]);
                    assert(0 <= v[f as int] * r[f * 10 + t] <= u64::MAX) by (nonlinear_arith)
                        requires
                            v[f as int] >= 0,
                            r[f * 10 + t] >= 0,
                            grow_row(acc, r, v[f as int], f as int, t as int)[t as int] >= 0,
                            grow_row(acc, r, v[f as int], f as int, t as int)[t as int] + v[f as int] * r[f * 10 + t] <= u64::MAX,
                    ;
                }
                let amount: u64 = rules[f * 10 + t];
                let add: u64 = count * amount;
                let nv: u64 = next[t] + add;
                next.set(t, nv);
                t = t + 1;
            }
            f = f + 1;
        }
        stoats = next;
        g = g + 1;
    }
    let mut total: u64 = 0;
    let mut q: usize = 0;
    let ghost fin_pop = population1(r, 7);
    proof {
        lemma_population1(r, 7);
    }
    while q < 10
        invariant
            q <= 10,
            fin_pop == population1(r, 7),
            fin_pop.len() == 10,
            nonneg(fin_pop),
            sum(fin_pop) <= u64::MAX,
            stoats@.len() == 10,
            forall|k: int| 0 <= k < 10 ==> #[trigger] stoats@[k] as int == fin_pop[k],
            total == sum(fin_pop.take(q as int)),
        decreases 10 - q,
    {
        proof {
            assert(fin_pop.take(q + 1).drop_last() =~= fin_pop.take(q as int));
            crate::text::lemma_sum_take_monotone(fin_pop, q + 1, 10);
            assert(fin_pop.take(10) =~= fin_pop);
        }
        total = total + stoats[q];
        q = q + 1;
    }
    proof {
        assert(fin_pop.take(10) =~= fin_pop);
    }
    total
}


/// The number of children listed in a part 2 line: the bytes at every second
/// position from the fifth on.
pub open spec fn child_count(l: Seq<u8>) -> int {
    if l.len() <= 4 {
        0
    } else {
        (l.len() - 3) / 2
    }
}

/// Child `k` of a part 2 line.
pub open spec fn child(l: Seq<u8>, k: int) -> int {
    letter(l[4 + 2 * k])
}

/// The chain of pairs that the pair `first, second` turns into: from `first`
/// through the children to `second`, each pair as `10 * left + right`.
pub open spec fn chain(first: int, second: int, l: Seq<u8>) -> Seq<int> {
    let cc = child_count(l);
    Seq::new(
        (cc + 1) as nat,
        |k: int| (if k == 0 { first } else { child(l, k - 1) }) * 10 + (if k == cc { second } else { child(l, k) }),
    )
}

/// The children of a line can be read: the line has at least four bytes and at
/// most five children, all in the alphabet.
pub open spec fn children_ok(l: Seq<u8>) -> bool {
    &&& l.len() >= 4
    &&& child_count(l) <= 5
    &&& forall|k: int| 0 <= k < child_count(l) ==> #[trigger] in_alphabet(l[4 + 2 * k])
}

/// A line that parts 2 and 3 can read: two letters and at most five children,
/// all in the alphabet.
pub open spec fn line_ok2(l: Seq<u8>) -> bool {
    &&& l.len() >= 4
    &&& in_alphabet(l[0])
    &&& in_alphabet(l[2])
    &&& child_count(l) <= 5
    &&& forall|k: int| 0 <= k < child_count(l) ==> #[trigger] in_alphabet(l[4 + 2 * k])
}

proof fn lemma_pair_digits(a: int, b: int)
    requires
        0 <= a < 10,
        0 <= b < 10,
    ensures
        (a * 10 + b) / 10 == a,
        (a * 10 + b) % 10 == b,
{
    assert((a * 10 + b) / 10 == a && (a * 10 + b) % 10 == b) by (nonlinear_arith)
        requires
            0 <= a < 10,
            0 <= b < 10,
    ;
}

/// A pair turns into a chain that leads from its left letter to its right letter:
/// the chain starts with the left letter, ends with the right one, and each pair
/// of it ends with the letter the next one starts with. So a chain of `n` pairs
/// stands for `n + 1` stoats in a row.
pub proof fn law_chain_links(first: int, second: int, l: Seq<u8>)
    requires
        0 <= first < 10,
        0 <= second < 10,
        children_ok(l),
    ensures
        chain(first, second, l).len() == child_count(l) + 1,
        chain(first, second, l)[0] / 10 == first,
        chain(first, second, l).last() % 10 == second,
        forall|k: int| 0 <= k < child_count(l) ==> #[trigger] chain(first, second, l)[k] % 10 == chain(first, second, l)[k + 1] / 10,
{
    let cc = child_count(l);
    let c = chain(first, second, l);
    assert forall|k: int| 0 <= k < cc implies 0 <= #[trigger] child(l, k) < 10 by {
        assert(in_alphabet(l[4 + 2 * k]));
    }
    let left = |k: int| if k == 0 { first } else { child(l, k - 1) };
    let right = |k: int| if k == cc { second } else { child(l, k) };
    assert forall|k: int| 0 <= k <= cc implies #[trigger] c[k] / 10 == left(k) && c[k] % 10 == right(k) by {
        if k > 0 {
            assert(0 <= child(l, k - 1) < 10);
        }
        if k < cc {
            assert(0 <= child(l, k) < 10);
        }
        lemma_pair_digits(left(k), right(k));
    }
    assert(c[0] / 10 == left(0));
    assert(c[cc] % 10 == right(cc));
    assert forall|k: int| 0 <= k < cc implies #[trigger] c[k] % 10 == c[k + 1] / 10 by {
        assert(c[k] % 10 == right(k));
        assert(c[k + 1] / 10 == left(k + 1));
    }
}

/// The rule of each pair after the first `i` lines; a later line replaces an
/// earlier rule for the same pair.
pub open spec fn rule_table(ls: Seq<Seq<u8>>, i: int) -> Seq<Seq<int>>
    decreases i,
{
    if i <= 0 {
        Seq::new(100, |q: int| Seq::<int>::empty())
    } else {
        let t = rule_table(ls, i - 1);
        let l = ls[i - 1];
        let f = letter(l[0]);
        let g = letter(l[2]);
        if 0 <= f < 10 && 0 <= g < 10 {
            t.update(f * 10 + g, chain(f, g, l)).update(g * 10 + f, chain(g, f, l))
        } else {
            t
        }
    }
}

/// `acc` with `c` added for each of the first `k` pairs listed.
pub open spec fn spread(acc: Seq<int>, pairs: Seq<int>, c: int, k: int) -> Seq<int>
    decreases k,
{
    if k <= 0 {
        acc
    } else {
        let a = spread(acc, pairs, c, k - 1);
        let q = pairs[k - 1];
        if 0 <= q < a.len() {
            a.update(q, a[q] + c)
        } else {
            a
        }
    }
}

/// The next generation's pair counts from the pairs `0..p`.
pub open spec fn breed(table: Seq<Seq<int>>, v: Seq<int>, p: int) -> Seq<int>
    decreases p,
{
    if p <= 0 {
        Seq::new(100, |q: int| 0int)
    } else {
        spread(breed(table, v, p - 1), table[p - 1], v[p - 1], table[p - 1].len() as int)
    }
}

/// The pair counts after `g` generations from the pair `AB`.
pub open spec fn population2(table: Seq<Seq<int>>, g: nat) -> Seq<int>
    decreases g,
{
    if g == 0 {
        Seq::new(100, |q: int| if q == 1 { 1int } else { 0int })
    } else {
        breed(table, population2(table, (g - 1) as nat), 100)
    }
}

/// The rule table of the input.
pub open spec fn table_of(s: Seq<u8>) -> Seq<Seq<int>> {
    rule_table(lines(s), lines(s).len() as int)
}

/// The number of stoats after `gens` generations: one more than the pairs.
pub open spec fn chain_answer(s: Seq<u8>, gens: nat) -> int {
    sum(population2(table_of(s), gens)) + 1
}

/// Every line can be read and no count overflows a `u64` within `gens` generations.
pub open spec fn chain_ok(s: Seq<u8>, gens: nat) -> bool {
    let ls = lines(s);
    &&& forall|i: int| 0 <= i < ls.len() ==> line_ok2(#[trigger] ls[i])
    &&& forall|g: nat, q: int| g <= gens && 0 <= q < 100 ==> #[trigger] population2(table_of(s), g)[q] <= u64::MAX
    &&& sum(population2(table_of(s), gens)) + 1 <= u64::MAX
}

/// The rule of one ordered pair: the chain of pairs it turns into.
pub struct Rule {
    pairs: Vec<u8>,
}

impl View for Rule {
    type V = Seq<int>;

    closed spec fn view(&self) -> Seq<int> {
        self.pairs@.map_values(|p: u8| p as int)
    }
}

impl Rule {
    /// The rule for the pair `first, second` from a line's children.
    fn new(first: usize, second: usize, line: &[u8]) -> (r: Rule)
        requires
            first < 10,
            second < 10,
            children_ok(line@),
        ensures
            r@ == chain(first as int, second as int, line@),
    {
        let ghost l = line@;
        let cc: usize = if line.len() <= 4 { 0 } else { (line.len() - 3) / 2 };
        let mut pairs: Vec<u8> = Vec::new();
        let mut previous: usize = first;
        let mut k: usize = 0;
        while k < cc
            invariant
                cc == child_count(l),
                cc <= 5,
                2 * cc + 3 <= l.len() <= usize::MAX,
                children_ok(l),
                l == line@,
                first < 10,
                second < 10,
                k <= cc,
                previous < 10,
                previous as int == if k == 0 { first as int } else { child(l, k - 1) },
                pairs@.len() == k,
                forall|q: int| 0 <= q < k ==> #[trigger] pairs@[q] as int == chain(first as int, second as int, l)[q],
            decreases cc - k,
        {
            proof {
                assert(in_alphabet(l[4 + 2 * (k as int)]));
            }
            let c: usize = (line[4 + 2 * k] - 65) as usize;
            pairs.push((previous * 10 + c) as u8);
            previous = c;
            k = k + 1;
        }
        pairs.push((previous * 10 + second) as u8);
        let r = Rule { pairs };
        assert(r@ =~= chain(first as int, second as int, l));
        r
    }

    /// The pairs of the rule.
    fn iter(&self) -> (r: &Vec<u8>)
        ensures
            r@.map_values(|p: u8| p as int) == self@,
    {
        &self.pairs
    }
}


/// The pairs of a rule are pair indices below 100.
pub open spec fn pairs_ok(t: Seq<Seq<int>>) -> bool {
    &&& t.len() == 100
    &&& forall|p: int, k: int| 0 <= p < 100 && 0 <= k < t[p].len() ==> 0 <= #[trigger] t[p][k] < 100
}

proof fn lemma_spread_wf(acc: Seq<int>, pairs: Seq<int>, c: int, k: int)
    requires
        acc.len() == 100,
        nonneg(acc),
        c >= 0,
    ensures
        spread(acc, pairs, c, k).len() == 100,
        nonneg(spread(acc, pairs, c, k)),
    decreases k,
{
    if k > 0 {
        lemma_spread_wf(acc, pairs, c, k - 1);
    }
}

proof fn lemma_spread_mono(acc: Seq<int>, pairs: Seq<int>, c: int, k1: int, k2: int)
    requires
        0 <= k1 <= k2,
        acc.len() == 100,
        nonneg(acc),
        c >= 0,
    ensures
        forall|q: int| 0 <= q < 100 ==> #[trigger] spread(acc, pairs, c, k1)[q] <= spread(acc, pairs, c, k2)[q],
    decreases k2,
{
    if k2 > k1 {
        lemma_spread_mono(acc, pairs, c, k1, k2 - 1);
        lemma_spread_wf(acc, pairs, c, k2 - 1);
    }
}

proof fn lemma_spread_zero(acc: Seq<int>, pairs: Seq<int>, k: int)
    ensures
        spread(acc, pairs, 0, k) == acc,
    decreases k,
{
    if k > 0 {
        lemma_spread_zero(acc, pairs, k - 1);
        let q = pairs[k - 1];
        if 0 <= q < acc.len() {
            assert(acc.update(q, acc[q] + 0) =~= acc);
        }
    }
}

/// How often `q` occurs in `s`.
pub open spec fn count_in(s: Seq<int>, q: int) -> nat
    decreases s.len(),
{
    if s.len() == 0 {
        0
    } else {
        count_in(s.drop_last(), q) + if s.last() == q { 1nat } else { 0nat }
    }
}

proof fn lemma_spread_counts(acc: Seq<int>, pairs: Seq<int>, k: int)
    requires
        acc.len() == 100,
        0 <= k <= pairs.len(),
        forall|j: int| 0 <= j < pairs.len() ==> 0 <= #[trigger] pairs[j] < 100,
    ensures
        spread(acc, pairs, 1, k).len() == 100,
        forall|q: int| 0 <= q < 100 ==> #[trigger] spread(acc, pairs, 1, k)[q] == acc[q] + count_in(pairs.take(k), q),
    decreases k,
{
    if k == 0 {
        assert(pairs.take(0).len() == 0);
    } else {
        lemma_spread_counts(acc, pairs, k - 1);
        assert(pairs.take(k).drop_last() =~= pairs.take(k - 1));
        assert(pairs.take(k).last() == pairs[k - 1]);
    }
}

/// Generation 0 as an indicator: the single pair at index 1.
proof fn lemma_breed_first(t: Seq<Seq<int>>, p: int)
    requires
        t.len() == 100,
        0 <= p <= 100,
        forall|j: int| 0 <= j < t[1].len() ==> 0 <= #[trigger] t[1][j] < 100,
    ensures
        breed(t, population2(t, 0), p).len() == 100,
        forall|q: int| 0 <= q < 100 ==> #[trigger] breed(t, population2(t, 0), p)[q] == if p >= 2 { count_in(t[1], q) as int } else { 0 },
    decreases p,
{
    let v = population2(t, 0);
    if p > 0 {
        lemma_breed_first(t, p - 1);
        let prev = breed(t, v, p - 1);
        if p - 1 == 1 {
            lemma_spread_counts(prev, t[1], t[1].len() as int);
            assert(t[1].take(t[1].len() as int) =~= t[1]);
        } else {
            assert(v[p - 1] == 0);
            lemma_spread_zero(prev, t[p - 1], t[p - 1].len() as int);
        }
    }
}

/// Parts 2 and 3 start from the single pair `AB` (letters 0 and 1, index
/// `0 * 10 + 1`), so after one generation the pair counts are exactly the pairs of
/// the `AB` rule, each as often as it occurs in the rule's chain.
pub proof fn law_chains_start_from_ab(t: Seq<Seq<int>>)
    requires
        t.len() == 100,
        forall|j: int| 0 <= j < t[0int * 10 + 1].len() ==> 0 <= #[trigger] t[0int * 10 + 1][j] < 100,
    ensures
        population2(t, 0).len() == 100,
        forall|q: int| 0 <= q < 100 ==> #[trigger] population2(t, 0)[q] == if q == 0 * 10 + 1 { 1int } else { 0int },
        population2(t, 1).len() == 100,
        forall|q: int| 0 <= q < 100 ==> #[trigger] population2(t, 1)[q] == count_in(t[0int * 10 + 1], q),
{
    assert(0int * 10 + 1 == 1);
    lemma_breed_first(t, 100);
    assert(population2(t, 1) == breed(t, population2(t, 0), 100));
}

proof fn lemma_breed_wf(t: Seq<Seq<int>>, v: Seq<int>, p: int)
    requires
        0 <= p <= 100,
        t.len() == 100,
        v.len() == 100,
        nonneg(v),
    ensures
        breed(t, v, p).len() == 100,
        nonneg(breed(t, v, p)),
    decreases p,
{
    if p > 0 {
        lemma_breed_wf(t, v, p - 1);
        lemma_spread_wf(breed(t, v, p - 1), t[p - 1], v[p - 1], t[p - 1].len() as int);
    }
}

proof fn lemma_breed_mono(t: Seq<Seq<int>>, v: Seq<int>, p1: int, p2: int)
    requires
        0 <= p1 <= p2 <= 100,
        t.len() == 100,
        v.len() == 100,
        nonneg(v),
    ensures
        forall|q: int| 0 <= q < 100 ==> #[trigger] breed(t, v, p1)[q] <= breed(t, v, p2)[q],
    decreases p2,
{
    if p2 > p1 {
        lemma_breed_mono(t, v, p1, p2 - 1);
        lemma_breed_wf(t, v, p2 - 1);
        lemma_spread_mono(breed(t, v, p2 - 1), t[p2 - 1], v[p2 - 1], 0, t[p2 - 1].len() as int);
        assert(breed(t, v, p2) == spread(breed(t, v, p2 - 1), t[p2 - 1], v[p2 - 1], t[p2 - 1].len() as int));
        assert(spread(breed(t, v, p2 - 1), t[p2 - 1], v[p2 - 1], 0) == breed(t, v, p2 - 1));
    }
}

proof fn lemma_population2(t: Seq<Seq<int>>, g: nat)
    requires
        t.len() == 100,
    ensures
        population2(t, g).len() == 100,
        nonneg(population2(t, g)),
    decreases g,
{
    if g > 0 {
        lemma_population2(t, (g - 1) as nat);
        lemma_breed_wf(t, population2(t, (g - 1) as nat), 100);
    }
}

proof fn lemma_rule_table(ls: Seq<Seq<u8>>, i: int)
    requires
        0 <= i <= ls.len(),
        forall|j: int| 0 <= j < ls.len() ==> line_ok2(#[trigger] ls[j]),
    ensures
        pairs_ok(rule_table(ls, i)),
    decreases i,
{
    if i > 0 {
        lemma_rule_table(ls, i - 1);
        let l = ls[i - 1];
        assert(line_ok2(l));
        let f = letter(l[0]);
        let g = letter(l[2]);
        let cc = child_count(l);
        assert forall|k: int| 0 <= k < cc + 1 implies 0 <= #[trigger] chain(f, g, l)[k] < 100 by {
            if k > 0 {
                assert(in_alphabet(l[4 + 2 * (k - 1)]));
            }
            if k < cc {
                assert(in_alphabet(l[4 + 2 * k]));
            }
        }
        assert forall|k: int| 0 <= k < cc + 1 implies 0 <= #[trigger] chain(g, f, l)[k] < 100 by {
            if k > 0 {
                assert(in_alphabet(l[4 + 2 * (k - 1)]));
            }
            if k < cc {
                assert(in_alphabet(l[4 + 2 * k]));
            }
        }
        assert(rule_table(ls, i - 1).len() == 100);
        let t = rule_table(ls, i);
        assert forall|p: int, k: int| 0 <= p < 100 && 0 <= k < t[p].len() implies 0 <= #[trigger] t[p][k] < 100 by {
            if p == g * 10 + f {
                assert(t[p] == chain(g, f, l));
            } else if p == f * 10 + g {
                assert(t[p] == chain(f, g, l));
            } else {
                assert(t[p] == rule_table(ls, i - 1)[p]);
            }
        }
    }
}

proof fn lemma_rule_table_len(ls: Seq<Seq<u8>>, i: int)
    ensures
        rule_table(ls, i).len() == 100,
    decreases i,
{
    if i > 0 {
        lemma_rule_table_len(ls, i - 1);
    }
}

/// Builds the rule table and counts the stoats after `gens` generations.
fn do_solve23(input: &[u8], gens: usize) -> (r: u64)
    requires
        chain_ok(input@, gens as nat),
    ensures
        r == chain_answer(input@, gens as nat),
{
    let ranges = line_ranges(input);
    let ghost ls = lines(input@);
    let mut rules: Vec<Rule> = Vec::new();
    let mut q: usize = 0;
    while q < PAIRS
        invariant
            q <= 100,
            rules@.len() == q,
            forall|k: int| 0 <= k < q ==> (#[trigger] rules@[k])@ == Seq::<int>::empty(),
        decreases 100 - q,
    {
        let empty = Rule { pairs: Vec::new() };
        assert(empty@ =~= Seq::<int>::empty());
        rules.push(empty);
        q = q + 1;
    }
    let mut i: usize = 0;
    while i < ranges.len()
        invariant
            i <= ranges@.len() == ls.len(),
            ls == lines(input@),
            ranges_in(ranges@, input@.len()),
            ranges_view(input@, ranges@) == ls,
            chain_ok(input@, gens as nat),
            rules@.len() == 100,
            forall|k: int| 0 <= k < 100 ==> (#[trigger] rules@[k])@ == rule_table(ls, i as int)[k],
        decreases ranges@.len() - i,
    {
        let (a, b) = ranges[i];
        proof {
            assert(ranges@[i as int].0 <= ranges@[i as int].1);
        }
        let line = vstd::slice::slice_subrange(input, a, b);
        proof {
            assert(line@ == ls[i as int]);
            assert(line_ok2(line@));
        }
        let first: usize = (line[0] - 65) as usize;
        let second: usize = (line[2] - 65) as usize;
        proof {
            lemma_rule_table_len(ls, i as int);
            assert(rule_table(ls, i + 1) == rule_table(ls, i as int).update(first * 10 + second, chain(first as int, second as int, line@)).update(
                second * 10 + first,
                chain(second as int, first as int, line@),
            ));
        }
        rules.set(first * 10 + second, Rule::new(first, second, line));
        rules.set(second * 10 + first, Rule::new(second, first, line));
        i = i + 1;
    }
    let ghost t = rule_table(ls, ls.len() as int);
    proof {
        lemma_rule_table(ls, ls.len() as int);
    }
    let mut stoat_pairs: Vec<u64> = zeros(PAIRS);
    stoat_pairs.set(1, 1);
    let mut g: usize = 0;
    while g < gens
        invariant
            g <= gens,
            chain_ok(input@, gens as nat),
            t == table_of(input@),
            pairs_ok(t),
            rules@.len() == 100,
            forall|k: int| 0 <= k < 100 ==> (#[trigger] rules@[k])@ == t[k],
            stoat_pairs@.len() == 100,
            forall|k: int| 0 <= k < 100 ==> #[trigger] stoat_pairs@[k] as int == population2(t, g as nat)[k],
        decreases gens - g,
    {
        let ghost v = population2(t, g as nat);
        proof {
            lemma_population2(t, g as nat);
            lemma_population2(t, (g + 1) as nat);
        }
        let mut next: Vec<u64> = zeros(PAIRS);
        proof {
            assert(breed(t, v, 0) =~= Seq::new(100, |q: int| 0int));
        }
        let mut p: usize = 0;
        while p < PAIRS
            invariant
                p <= 100,
                g < gens,
                chain_ok(input@, gens as nat),
                t == table_of(input@),
                pairs_ok(t),
                v == population2(t, g as nat),
                v.len() == 100,
                nonneg(v),
                rules@.len() == 100,
                forall|k: int| 0 <= k < 100 ==> (#[trigger] rules@[k])@ == t[k],
                stoat_pairs@.len() == 100,
                forall|k: int| 0 <= k < 100 ==> #[trigger] stoat_pairs@[k] as int == v[k],
                next@.len() == 100,
                forall|k: int| 0 <= k < 100 ==> #[trigger] next@[k] as int == breed(t, v, p as int)[k],
            decreases 100 - p,
        {
            let count: u64 = stoat_pairs[p];
            let ghost base = breed(t, v, p as int);
            proof {
                lemma_breed_wf(t, v, p as int);
                lemma_breed_mono(t, v, p + 1, 100);
                assert(population2(t, (g + 1) as nat) == breed(t, v, 100));
                assert(breed(t, v, p + 1) == spread(base, t[p as int], v[p as int], t[p as int].len() as int));
            }
            if count == 0 {
                proof {
                    lemma_spread_zero(base, t[p as int], t[p as int].len() as int);
                }
                p = p + 1;
                continue;
            }
            let rp = rules[p].iter();
            let ghost pl = t[p as int];
            proof {
                assert(rp@.len() == pl.len());
            }
            let mut k: usize = 0;
            while k < rp.len()
                invariant
                    k <= rp@.len() == pl.len(),
                    pl == t[p as int],
                    p < 100,
                    g < gens,
                    chain_ok(input@, gens as nat),
                    t == table_of(input@),
                    pairs_ok(t),
                    forall|j: int| 0 <= j < rp@.len() ==> #[trigger] rp@[j] as int == pl[j],
                    v == population2(t, g as nat),
                    v.len() == 100,
                    nonneg(v),
                    count as int == v[p as int],
                    base == breed(t, v, p as int),
                    base.len() == 100,
                    nonneg(base),
                    next@.len() == 100,
                    forall|j: int| 0 <= j < 100 ==> #[trigger] next@[j] as int == spread(base, pl, count as int, k as int)[j],
                    forall|j: int| 0 <= j < 100 ==> #[trigger] breed(t, v, p + 1)[j] <= population2(t, (g + 1) as nat)[j],
                    breed(t, v, p + 1) == spread(base, pl, v[p as int], pl.len() as int),
                decreases rp@.len() - k,
            {
                let pair: usize = rp[k] as usize;
                proof {
                    assert(rp@[k as int] as int == pl[k as int]);
                    assert(0 <= t[p as int][k as int] < 100);
                    lemma_spread_wf(base, pl, count as int, k as int);
                    lemma_spread_mono(base, pl, count as int, k + 1, pl.len() as int);
                    assert(spread(base, pl, count as int, k + 1)[pair as int] == spread(base, pl, count as int, k as int)[pair as int] + count);
                    assert(population2(t, (g + 1) as nat)[pair as int] <= u64::MAX);
                }
                let nv: u64 = next[pair] + count;
                next.set(pair, nv);
                k = k + 1;
            }
            p = p + 1;
        }
        stoat_pairs = next;
        g = g + 1;
    }
    let ghost fin = population2(t, gens as nat);
    proof {
        lemma_population2(t, gens as nat);
    }
    let mut total: u64 = 0;
    let mut q: usize = 0;
    while q < PAIRS
        invariant
            q <= 100,
            fin == population2(t, gens as nat),
            fin.len() == 100,
            nonneg(fin),
            sum(fin) + 1 <= u64::MAX,
            stoat_pairs@.len() == 100,
            forall|k: int| 0 <= k < 100 ==> #[trigger] stoat_pairs@[k] as int == fin[k],
            total == sum(fin.take(q as int)),
        decreases 100 - q,
    {
        proof {
            assert(fin.take(q + 1).drop_last() =~= fin.take(q as int));
            crate::text::lemma_sum_take_monotone(fin, q + 1, 100);
            assert(fin.take(100) =~= fin);
        }
        total = total + stoat_pairs[q];
        q = q + 1;
    }
    proof {
        assert(fin.take(100) =~= fin);
    }
    total + 1
}

/// The number of stoats after 7 generations of the pair rules.
pub fn solve_part2(input: &[u8]) -> (r: u64)
    requires
        chain_ok(input@, 7),
    ensures
        r == chain_answer(input@, 7),
{
    do_solve23(input, 7)
}

/// The number of stoats after 21 generations of the pair rules.
pub fn solve_part3(input: &[u8]) -> (r: u64)
    requires
        chain_ok(input@, 21),
    ensures
        r == chain_answer(input@, 21),
{
    do_solve23(input, 21)
}

/// The three answers.
pub fn solve(input: &[u8]) -> (r: (u64, u64, u64))
    requires
        part1_ok(input@),
        chain_ok(input@, 7),
        chain_ok(input@, 21),
    ensures
        r.0 == part1_answer(input@),
        r.1 == chain_answer(input@, 7),
        r.2 == chain_answer(input@, 21),
{
    (solve_part1(input), solve_part2(input), solve_part3(input))
}

} // verus!
