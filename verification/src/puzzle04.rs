//! Petals on a stem, read from the last line up: `o-|` is a petal on the left
//! (-1), `|-o` one on the right (1), `|` a bare piece of stem (0); other lines are
//! skipped. Part 1 counts the petals after the first 400 pieces; part 2 counts the
//! neighbouring petals on different sides; part 3 counts the rounds in which every
//! petal that differs from the next one, and the last petal, fall off, until none
//! is left.
use vstd::prelude::*;
use crate::text::{line_ranges, lines, ranges_in, ranges_view, trim, trim_range};

verus! {

/// The piece a trimmed line stands for, if any.
pub open spec fn piece(t: Seq<u8>) -> Option<i8> {
    if t == seq![111u8, 45u8, 124u8] {
        Some(-1i8)
    } else if t == seq![124u8, 45u8, 111u8] {
        Some(1i8)
    } else if t == seq![124u8] {
        Some(0i8)
    } else {
        None
    }
}

/// The pieces of the lines, the last line first.
pub open spec fn pieces(ls: Seq<Seq<u8>>) -> Seq<i8>
    decreases ls.len(),
{
    if ls.len() == 0 {
        Seq::empty()
    } else {
        let rest = pieces(ls.drop_last());
        match piece(trim(ls.last())) {
            Some(v) => seq![v] + rest,
            None => rest,
        }
    }
}

/// The pieces of the input.
pub open spec fn stem(s: Seq<u8>) -> Seq<i8> {
    pieces(lines(s))
}

/// The petals among the pieces, in order.
pub open spec fn petals(v: Seq<i8>) -> Seq<i8>
    decreases v.len(),
{
    if v.len() == 0 {
        v
    } else if v.last() != 0 {
        petals(v.drop_last()).push(v.last())
    } else {
        petals(v.drop_last())
    }
}

/// The pieces after the first `n`.
pub open spec fn after(v: Seq<i8>, n: int) -> Seq<i8> {
    if v.len() <= n {
        Seq::empty()
    } else {
        v.skip(n)
    }
}

/// How many neighbouring petals among the first `k` lie on different sides.
pub open spec fn changes(f: Seq<i8>, k: int) -> nat
    decreases k,
{
    if k <= 1 {
        0
    } else {
        changes(f, k - 1) + if f[k - 2] != f[k - 1] {
            1nat
        } else {
            0nat
        }
    }
}

/// The petals among the first `k` that equal the petal after them.
pub open spec fn holding(f: Seq<i8>, k: int) -> Seq<i8>
    decreases k,
{
    if k <= 0 {
        Seq::empty()
    } else if k < f.len() && f[k - 1] == f[k] {
        holding(f, k - 1).push(f[k - 1])
    } else {
        holding(f, k - 1)
    }
}

/// One round: the last petal falls, and so does each petal that differs from
/// the next one.
pub open spec fn shed(f: Seq<i8>) -> Seq<i8> {
    holding(f, f.len() - 1)
}

/// A round keeps at most `k` of the first `k` petals.
pub proof fn lemma_holding_len(f: Seq<i8>, k: int)
    ensures
        holding(f, k).len() <= if k < 0 {
            0
        } else {
            k
        },
    decreases k,
{
    if k > 0 {
        lemma_holding_len(f, k - 1);
    }
}

/// The rounds until no petal is left.
pub open spec fn rounds(f: Seq<i8>) -> nat
    decreases f.len(),
{
    if f.len() == 0 {
        0
    } else {
        proof {
            lemma_holding_len(f, f.len() - 1);
        }
        1 + rounds(shed(f))
    }
}

/// Every round takes at least the last petal, so there are at most as many rounds
/// as petals.
pub proof fn law_rounds_at_most_petals(f: Seq<i8>)
    ensures
        rounds(f) <= f.len(),
    decreases f.len(),
{
    if f.len() > 0 {
        lemma_holding_len(f, f.len() - 1);
        law_rounds_at_most_petals(shed(f));
    }
}

proof fn lemma_holding_one_side(f: Seq<i8>, k: int)
    requires
        0 <= k < f.len(),
        forall|i: int, j: int| 0 <= i < f.len() && 0 <= j < f.len() ==> #[trigger] f[i] == #[trigger] f[j],
    ensures
        holding(f, k) == f.take(k),
    decreases k,
{
    if k > 0 {
        lemma_holding_one_side(f, k - 1);
        assert(f[k - 1] == f[k]);
        assert(f.take(k - 1).push(f[k - 1]) =~= f.take(k));
    } else {
        assert(f.take(0) =~= Seq::<i8>::empty());
    }
}

proof fn lemma_changes_one_side(f: Seq<i8>, k: int)
    requires
        k <= f.len(),
        forall|i: int, j: int| 0 <= i < f.len() && 0 <= j < f.len() ==> #[trigger] f[i] == #[trigger] f[j],
    ensures
        changes(f, k) == 0,
    decreases k,
{
    if k > 1 {
        lemma_changes_one_side(f, k - 1);
        assert(f[k - 2] == f[k - 1]);
    }
}

/// With all petals on one side no neighbours differ, so each round takes only the
/// last petal: no side changes, and one round per petal.
pub proof fn law_one_side_falls_one_by_one(f: Seq<i8>)
    requires
        forall|i: int, j: int| 0 <= i < f.len() && 0 <= j < f.len() ==> #[trigger] f[i] == #[trigger] f[j],
    ensures
        changes(f, f.len() as int) == 0,
        rounds(f) == f.len(),
    decreases f.len(),
{
    lemma_changes_one_side(f, f.len() as int);
    if f.len() > 0 {
        lemma_holding_one_side(f, f.len() - 1);
        let g = shed(f);
        assert(g == f.take(f.len() - 1));
        assert forall|i: int, j: int| 0 <= i < g.len() && 0 <= j < g.len() implies #[trigger] g[i] == #[trigger] g[j] by {
            assert(f[i] == f[j]);
        }
        law_one_side_falls_one_by_one(g);
    }
}

/// The pieces of the input, the last line first.
fn load_input(input: &[u8]) -> (v: Vec<i8>)
    ensures
        v@ == stem(input@),
{
    let ranges = line_ranges(input);
    let ghost ls = lines(input@);
    let mut v: Vec<i8> = Vec::new();
    let mut i: usize = ranges.len();
    proof {
        assert(ls.take(ls.len() as int) =~= ls);
        assert(v@ + pieces(ls) =~= pieces(ls));
    }
    while i > 0
        invariant
            i <= ranges@.len() == ls.len(),
            ls == lines(input@),
            ranges_in(ranges@, input@.len()),
            ranges_view(input@, ranges@) == ls,
            pieces(ls) == v@ + pieces(ls.take(i as int)),
        decreases i,
    {
        i = i - 1;
        let (a, e) = ranges[i];
        proof {
            assert(ranges@[i as int].0 <= ranges@[i as int].1 <= input@.len());
            assert(ls.take(i + 1).drop_last() =~= ls.take(i as int));
            assert(ls.take(i + 1).last() == ls[i as int]);
        }
        let (lo, hi) = trim_range(input, a, e);
        let t = vstd::slice::slice_subrange(input, lo, hi);
        proof {
            assert(t@ == trim(ls[i as int]));
        }
        let ghost old_v = v@;
        if t.len() == 3 && t[0] == 111 && t[1] == 45 && t[2] == 124 {
            proof {
                assert(t@ =~= seq![111u8, 45u8, 124u8]);
            }
            v.push(-1);
        } else if t.len() == 3 && t[0] == 124 && t[1] == 45 && t[2] == 111 {
            proof {
                assert(t@ =~= seq![124u8, 45u8, 111u8]);
            }
            v.push(1);
        } else if t.len() == 1 && t[0] == 124 {
            proof {
                assert(t@ =~= seq![124u8]);
            }
            v.push(0);
        } else {
            proof {
                if t@ == seq![111u8, 45u8, 124u8] || t@ == seq![124u8, 45u8, 111u8] {
                    assert(t@.len() == 3);
                    assert(t@[0] == t[0] && t@[1] == t[1] && t@[2] == t[2]);
                }
                if t@ == seq![124u8] {
                    assert(t@.len() == 1);
                    assert(t@[0] == t[0]);
                }
            }
        }
        proof {
            match piece(t@) {
                Some(x) => {
                    assert(v@ =~= old_v.push(x));
                    assert(old_v + (seq![x] + pieces(ls.take(i as int))) =~= v@ + pieces(ls.take(i as int)));
                },
                None => {},
            }
        }
    }
    proof {
        assert(ls.take(0) =~= Seq::<Seq<u8>>::empty());
        assert(v@ + Seq::<i8>::empty() =~= v@);
    }
    v
}

/// The petals of a list of pieces.
fn petals_of(v: &Vec<i8>) -> (f: Vec<i8>)
    ensures
        f@ == petals(v@),
{
    let mut f: Vec<i8> = Vec::new();
    let mut i: usize = 0;
    while i < v.len()
        invariant
            i <= v@.len(),
            f@ == petals(v@.take(i as int)),
        decreases v@.len() - i,
    {
        proof {
            assert(v@.take(i + 1).drop_last() =~= v@.take(i as int));
        }
        if v[i] != 0 {
            f.push(v[i]);
        }
        i = i + 1;
    }
    proof {
        assert(v@.take(v@.len() as int) =~= v@);
    }
    f
}

/// The petals after the first 400 pieces.
pub fn solve_part1(input: &[u8]) -> (r: usize)
    ensures
        r == petals(after(stem(input@), 400)).len(),
{
    let v = load_input(input);
    let mut rest: Vec<i8> = Vec::new();
    let mut i: usize = 400;
    while i < v.len()
        invariant
            400 <= i,
            v@.len() > 400 ==> i <= v@.len(),
            v@.len() > 400 ==> rest@ == v@.subrange(400, i as int),
            v@.len() <= 400 ==> rest@.len() == 0,
        decreases v@.len() - i,
    {
        rest.push(v[i]);
        proof {
            assert(v@.subrange(400, i + 1) =~= v@.subrange(400, i as int).push(v@[i as int]));
        }
        i = i + 1;
    }
    proof {
        if v@.len() > 400 {
            assert(rest@ =~= after(v@, 400));
        } else {
            assert(rest@ =~= after(v@, 400));
        }
    }
    let f = petals_of(&rest);
    f.len()
}

/// The neighbouring petals on different sides.
pub fn solve_part2(input: &[u8]) -> (r: usize)
    ensures
        r == changes(petals(stem(input@)), petals(stem(input@)).len() as int),
{
    let v = load_input(input);
    let f = petals_of(&v);
    let mut count: usize = 0;
    let mut k: usize = 1;
    while k < f.len()
        invariant
            1 <= k,
            k <= f@.len() || k == 1,
            count == changes(f@, k as int),
            count <= k,
        decreases f@.len() - k,
    {
        if f[k - 1] != f[k] {
            count = count + 1;
        }
        k = k + 1;
    }
    proof {
        if f@.len() == 0 {
            assert(changes(f@, 0) == 0);
            assert(changes(f@, 1) == 0);
        } else {
            assert(k == f@.len());
        }
        assert(count == changes(f@, f@.len() as int));
        assert(f@ == petals(stem(input@)));
    }
    count
}

/// The rounds until every petal has fallen.
pub fn solve_part3(input: &[u8]) -> (r: usize)
    ensures
        r == rounds(petals(stem(input@))),
{
    let v = load_input(input);
    let mut flower = petals_of(&v);
    let ghost start = flower@;
    let n0: usize = flower.len();
    let mut answer: usize = 0;
    proof {
        lemma_petals_nonzero(v@);
    }
    while flower.len() != 0
        invariant
            rounds(start) == answer + rounds(flower@),
            answer + flower@.len() <= start.len(),
            start.len() == n0,
            forall|i: int| 0 <= i < flower@.len() ==> #[trigger] flower@[i] != 0,
        decreases flower@.len(),
    {
        let ghost f0 = flower@;
        let n: usize = flower.len();
        let mut i: usize = 0;
        while i < n - 1
            invariant
                n == f0.len(),
                n >= 1,
                i <= n - 1,
                flower@.len() == n,
                forall|q: int| 0 <= q < n ==> #[trigger] f0[q] != 0,
                forall|q: int| i <= q < n ==> #[trigger] flower@[q] == f0[q],
                forall|q: int| 0 <= q < i ==> #[trigger] flower@[q] == if f0[q] == f0[q + 1] {
                    f0[q]
                } else {
                    0
                },
            decreases n - 1 - i,
        {
            if flower[i] != flower[i + 1] {
                flower.set(i, 0);
            }
            i = i + 1;
        }
        flower.pop();
        let mut kept: Vec<i8> = Vec::new();
        let mut j: usize = 0;
        while j < flower.len()
            invariant
                n == f0.len(),
                n >= 1,
                flower@.len() == n - 1,
                j <= n - 1,
                forall|q: int| 0 <= q < n - 1 ==> #[trigger] flower@[q] == if f0[q] == f0[q + 1] {
                    f0[q]
                } else {
                    0
                },
                forall|q: int| 0 <= q < n ==> #[trigger] f0[q] != 0,
                kept@ == holding(f0, j as int),
            decreases n - 1 - j,
        {
            if flower[j] != 0 {
                kept.push(flower[j]);
            }
            j = j + 1;
        }
        proof {
            lemma_holding_len(f0, n - 1);
            lemma_holding_nonzero(f0, n - 1);
            assert(rounds(f0) == 1 + rounds(shed(f0)));
        }
        flower = kept;
        answer = answer + 1;
    }
    answer
}

proof fn lemma_petals_nonzero(v: Seq<i8>)
    ensures
        forall|i: int| 0 <= i < petals(v).len() ==> #[trigger] petals(v)[i] != 0,
    decreases v.len(),
{
    if v.len() > 0 {
        lemma_petals_nonzero(v.drop_last());
        let p = petals(v.drop_last());
        if v.last() != 0 {
            assert forall|i: int| 0 <= i < petals(v).len() implies #[trigger] petals(v)[i] != 0 by {
                if i < p.len() {
                    assert(petals(v)[i] == p[i]);
                }
            }
        }
    }
}

proof fn lemma_holding_nonzero(f: Seq<i8>, k: int)
    requires
        forall|q: int| 0 <= q < f.len() ==> #[trigger] f[q] != 0,
    ensures
        forall|i: int| 0 <= i < holding(f, k).len() ==> #[trigger] holding(f, k)[i] != 0,
    decreases k,
{
    if k > 0 {
        lemma_holding_nonzero(f, k - 1);
        let p = holding(f, k - 1);
        if k < f.len() && f[k - 1] == f[k] {
            assert forall|i: int| 0 <= i < holding(f, k).len() implies #[trigger] holding(f, k)[i] != 0 by {
                if i < p.len() {
                    assert(holding(f, k)[i] == p[i]);
                }
            }
        }
    }
}

/// The three answers.
pub fn solve(input: &[u8]) -> (r: (usize, usize, usize))
    ensures
        r.0 == petals(after(stem(input@), 400)).len(),
        r.1 == changes(petals(stem(input@)), petals(stem(input@)).len() as int),
        r.2 == rounds(petals(stem(input@))),
{
    (solve_part1(input), solve_part2(input), solve_part3(input))
}

} // verus!
