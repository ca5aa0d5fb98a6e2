//! Temperature readings: one decimal number per line.
use vstd::prelude::*;
use crate::text::{
    leading_number, lemma_sum_le, lemma_sum_take_monotone, line_ranges, lines, ranges_in, ranges_view, sum,
    u16_from_radix_10,
};

verus! {

/// The numbers of the input: each line's leading decimal digits, read as a number.
pub open spec fn readings(s: Seq<u8>) -> Seq<nat> {
    lines(s).map_values(|l: Seq<u8>| leading_number(l))
}

/// Every reading fits in a `u16`.
pub open spec fn readable(s: Seq<u8>) -> bool {
    forall|i: int| 0 <= i < readings(s).len() ==> #[trigger] readings(s)[i] <= u16::MAX
}

/// What it takes to bring a reading `n` to the target `t`: raising costs one per
/// degree, lowering five per degree.
pub open spec fn adjustment(n: int, t: int) -> int {
    if n > t {
        (n - t) * 5
    } else {
        t - n
    }
}

/// Part 1 counts, for each reading of at most 60, how far it is below 60.
pub open spec fn below_sixty(n: int) -> int {
    if n <= 60 {
        60 - n
    } else {
        0
    }
}

pub open spec fn part1_terms(s: Seq<u8>) -> Seq<int> {
    readings(s).map_values(|n: nat| below_sixty(n as int))
}

pub open spec fn part2_terms(s: Seq<u8>) -> Seq<int> {
    readings(s).map_values(|n: nat| adjustment(n as int, 60))
}

/// Part 3 pairs the first half of the readings with the second half, element by element.
pub open spec fn part3_terms(s: Seq<u8>) -> Seq<int> {
    let r = readings(s);
    let h = r.len() / 2;
    Seq::new(h, |i: int| adjustment(r[i] as int, r[h + i] as int))
}

pub open spec fn part1_answer(s: Seq<u8>) -> int {
    sum(part1_terms(s))
}

pub open spec fn part2_answer(s: Seq<u8>) -> int {
    sum(part2_terms(s))
}

pub open spec fn part3_answer(s: Seq<u8>) -> int {
    sum(part3_terms(s))
}

fn read_numbers(input: &[u8]) -> (v: Vec<u16>)
    requires
        readable(input@),
    ensures
        v@.len() == readings(input@).len(),
        forall|i: int| 0 <= i < v@.len() ==> v@[i] as nat == #[trigger] readings(input@)[i],
{
    let ranges = line_ranges(input);
    let mut v: Vec<u16> = Vec::new();
    let mut i: usize = 0;
    while i < ranges.len()
        invariant
            i <= ranges@.len(),
            ranges_in(ranges@, input@.len()),
            ranges_view(input@, ranges@) == lines(input@),
            readable(input@),
            v@.len() == i,
            forall|k: int| 0 <= k < i ==> v@[k] as nat == #[trigger] readings(input@)[k],
        decreases ranges@.len() - i,
    {
        let (a, b) = ranges[i];
        proof {
            assert(ranges@[i as int].0 <= ranges@[i as int].1);
        }
        let line = vstd::slice::slice_subrange(input, a, b);
        proof {
            assert(line@ == lines(input@)[i as int]);
            assert(readings(input@)[i as int] == leading_number(line@));
        }
        let (x, _used) = u16_from_radix_10(line);
        v.push(x);
        i = i + 1;
    }
    v
}

/// Sums the readings' distances below 60, over the readings that are at most 60.
pub fn solve_part1(input: &[u8]) -> (r: u16)
    requires
        readable(input@),
        part1_answer(input@) <= u16::MAX,
    ensures
        r == part1_answer(input@),
{
    let v = read_numbers(input);
    let ghost t = part1_terms(input@);
    let mut acc: u16 = 0;
    let mut i: usize = 0;
    while i < v.len()
        invariant
            i <= v@.len() == t.len(),
            t == part1_terms(input@),
            sum(t) <= u16::MAX,
            forall|k: int| 0 <= k < v@.len() ==> v@[k] as nat == #[trigger] readings(input@)[k],
            acc == sum(t.take(i as int)),
        decreases v@.len() - i,
    {
        proof {
            assert(t.take(i + 1).drop_last() =~= t.take(i as int));
            assert(v@[i as int] as nat == readings(input@)[i as int]);
            lemma_sum_take_monotone(t, i + 1, t.len() as int);
            assert(t.take(t.len() as int) =~= t);
        }
        if v[i] <= 60 {
            acc = acc + (60 - v[i]);
        }
        i = i + 1;
    }
    assert(t.take(i as int) =~= t);
    acc
}

/// Sums what it takes to bring each reading to 60.
pub fn solve_part2(input: &[u8]) -> (r: u16)
    requires
        readable(input@),
        part2_answer(input@) <= u16::MAX,
    ensures
        r == part2_answer(input@),
{
    let v = read_numbers(input);
    let ghost t = part2_terms(input@);
    let mut acc: u16 = 0;
    let mut i: usize = 0;
    while i < v.len()
        invariant
            i <= v@.len() == t.len(),
            t == part2_terms(input@),
            sum(t) <= u16::MAX,
            forall|k: int| 0 <= k < v@.len() ==> v@[k] as nat == #[trigger] readings(input@)[k],
            acc == sum(t.take(i as int)),
        decreases v@.len() - i,
    {
        proof {
            assert(t.take(i + 1).drop_last() =~= t.take(i as int));
            assert(v@[i as int] as nat == readings(input@)[i as int]);
            lemma_sum_take_monotone(t, i + 1, t.len() as int);
            assert(t.take(t.len() as int) =~= t);
        }
        let n: u16 = v[i];
        let term: u16 = if n > 60 {
            (n - 60) * 5
        } else {
            60 - n
        };
        acc = acc + term;
        i = i + 1;
    }
    assert(t.take(i as int) =~= t);
    acc
}

/// Pairs the first half of the readings with the second half and sums what it
/// takes to bring each reading of the first half to its partner.
pub fn solve_part3(input: &[u8]) -> (r: u16)
    requires
        readable(input@),
        part3_answer(input@) <= u16::MAX,
    ensures
        r == part3_answer(input@),
{
    let v = read_numbers(input);
    let n_all: usize = v.len();
    let h: usize = n_all / 2;
    let ghost t = part3_terms(input@);
    let mut acc: u16 = 0;
    let mut i: usize = 0;
    while i < h
        invariant
            n_all == v@.len(),
            h == v@.len() / 2,
            i <= h == t.len(),
            t == part3_terms(input@),
            sum(t) <= u16::MAX,
            v@.len() == readings(input@).len(),
            forall|k: int| 0 <= k < v@.len() ==> v@[k] as nat == #[trigger] readings(input@)[k],
            acc == sum(t.take(i as int)),
        decreases h - i,
    {
        proof {
            assert(t.take(i + 1).drop_last() =~= t.take(i as int));
            assert(v@[i as int] as nat == readings(input@)[i as int]);
            assert(v@[h + i] as nat == readings(input@)[h + i]);
            lemma_sum_take_monotone(t, i + 1, t.len() as int);
            assert(t.take(t.len() as int) =~= t);
        }
        let n: u16 = v[i];
        let goal: u16 = v[h + i];
        let term: u16 = if n > goal {
            (n - goal) * 5
        } else {
            goal - n
        };
        acc = acc + term;
        i = i + 1;
    }
    assert(t.take(i as int) =~= t);
    acc
}

/// The three answers.
pub fn solve(input: &[u8]) -> (r: (u16, u16, u16))
    requires
        readable(input@),
        part1_answer(input@) <= u16::MAX,
        part2_answer(input@) <= u16::MAX,
        part3_answer(input@) <= u16::MAX,
    ensures
        r.0 == part1_answer(input@),
        r.1 == part2_answer(input@),
        r.2 == part3_answer(input@),
{
    (solve_part1(input), solve_part2(input), solve_part3(input))
}


/// Part 2 never answers less than part 1: a reading below 60 costs as much in
/// part 2 as it counts in part 1, and one above 60 costs something in part 2 and
/// nothing in part 1.
pub proof fn law_part2_at_least_part1(s: Seq<u8>)
    ensures
        part1_answer(s) <= part2_answer(s),
{
    lemma_sum_le(part1_terms(s), part2_terms(s));
}

} // verus!
