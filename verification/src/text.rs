//! Byte-level text helpers shared by the puzzles: line splitting with the
//! semantics of `str::lines`, whitespace trimming with the semantics of
//! `str::trim`, and decimal numbers.
use vstd::prelude::*;

verus! {

/// The byte `'\n'`.
pub open spec fn is_lf(b: u8) -> bool {
    b == 10
}

/// Removes one trailing `'\r'`, as `str::lines` does after a `'\n'`.
pub open spec fn strip_cr(l: Seq<u8>) -> Seq<u8> {
    if l.len() > 0 && l.last() == 13 {
        l.drop_last()
    } else {
        l
    }
}

/// The lines of `s[start..]`, given that the current line began at `start`
/// and the bytes `s[start..i]` hold no `'\n'`.
pub open spec fn lines_scan(s: Seq<u8>, start: int, i: int) -> Seq<Seq<u8>>
    decreases s.len() - i,
{
    if i >= s.len() {
        if start < s.len() {
            seq![s.subrange(start, s.len() as int)]
        } else {
            seq![]
        }
    } else if is_lf(s[i]) {
        seq![strip_cr(s.subrange(start, i))] + lines_scan(s, i + 1, i + 1)
    } else {
        lines_scan(s, start, i + 1)
    }
}

/// The lines of `s` as `str::lines` yields them: split at `'\n'`, a `'\r'`
/// before the `'\n'` removed, and no empty line after a final `'\n'`.
pub open spec fn lines(s: Seq<u8>) -> Seq<Seq<u8>> {
    lines_scan(s, 0, 0)
}

/// The subsequences of `s` that the ranges select.
pub open spec fn ranges_view(s: Seq<u8>, r: Seq<(usize, usize)>) -> Seq<Seq<u8>> {
    r.map_values(|p: (usize, usize)| s.subrange(p.0 as int, p.1 as int))
}

/// Ranges that lie within a sequence of length `len`.
pub open spec fn ranges_in(r: Seq<(usize, usize)>, len: nat) -> bool {
    forall|k: int| 0 <= k < r.len() ==> #[trigger] r[k].0 <= r[k].1 && r[k].1 <= len
}

/// Splits `input` into lines; each line is returned as a range of byte indices.
pub fn line_ranges(input: &[u8]) -> (r: Vec<(usize, usize)>)
    ensures
        ranges_in(r@, input@.len()),
        ranges_view(input@, r@) == lines(input@),
{
    let mut r: Vec<(usize, usize)> = Vec::new();
    let mut start: usize = 0;
    let mut i: usize = 0;
    let n: usize = input.len();
    while i < n
        invariant
            n == input@.len(),
            start <= i <= n,
            ranges_in(r@, input@.len()),
            ranges_view(input@, r@) + lines_scan(input@, start as int, i as int) == lines(input@),
        decreases n - i,
    {
        if input[i] == 10 {
            let mut end: usize = i;
            if end > start && input[end - 1] == 13 {
                end = end - 1;
            }
            proof {
                let s = input@;
                assert(s.subrange(start as int, end as int) =~= strip_cr(s.subrange(start as int, i as int)));
            }
            let ghost old_r = r@;
            r.push((start, end));
            proof {
                let s = input@;
                assert(ranges_view(s, r@) =~= ranges_view(s, old_r).push(s.subrange(start as int, end as int)));
                assert(ranges_view(s, r@) + lines_scan(s, (i + 1) as int, (i + 1) as int)
                    =~= ranges_view(s, old_r) + lines_scan(s, start as int, i as int));
            }
            start = i + 1;
        }
        i = i + 1;
    }
    if start < n {
        let ghost old_r = r@;
        r.push((start, n));
        proof {
            let s = input@;
            assert(ranges_view(s, r@) =~= ranges_view(s, old_r).push(s.subrange(start as int, n as int)));
            assert(ranges_view(s, r@) =~= ranges_view(s, old_r) + lines_scan(s, start as int, i as int));
        }
    } else {
        assert(ranges_view(input@, r@) =~= ranges_view(input@, r@) + lines_scan(input@, start as int, i as int));
    }
    r
}


/// `c` is the UTF-8 encoding of one character with the Unicode `White_Space`
/// property, the characters that `char::is_whitespace` accepts.
pub open spec fn white_space_encoding(c: Seq<u8>) -> bool {
    ||| c.len() == 1 && ((9 <= c[0] && c[0] <= 13) || c[0] == 32)
    ||| c.len() == 2 && c[0] == 0xC2 && (c[1] == 0x85 || c[1] == 0xA0)
    ||| c.len() == 3 && c[0] == 0xE1 && c[1] == 0x9A && c[2] == 0x80
    ||| c.len() == 3 && c[0] == 0xE2 && c[1] == 0x80 && ((0x80 <= c[2] && c[2] <= 0x8A)
        || c[2] == 0xA8 || c[2] == 0xA9 || c[2] == 0xAF)
    ||| c.len() == 3 && c[0] == 0xE2 && c[1] == 0x81 && c[2] == 0x9F
    ||| c.len() == 3 && c[0] == 0xE3 && c[1] == 0x80 && c[2] == 0x80
}

/// Length of the white-space character that `s` starts with, or 0.
pub open spec fn leading_space(s: Seq<u8>) -> nat {
    if s.len() >= 1 && white_space_encoding(s.take(1)) {
        1
    } else if s.len() >= 2 && white_space_encoding(s.take(2)) {
        2
    } else if s.len() >= 3 && white_space_encoding(s.take(3)) {
        3
    } else {
        0
    }
}

/// Length of the white-space character that `s` ends with, or 0.
pub open spec fn trailing_space(s: Seq<u8>) -> nat {
    if s.len() >= 1 && white_space_encoding(s.skip(s.len() - 1)) {
        1
    } else if s.len() >= 2 && white_space_encoding(s.skip(s.len() - 2)) {
        2
    } else if s.len() >= 3 && white_space_encoding(s.skip(s.len() - 3)) {
        3
    } else {
        0
    }
}

/// `s` without its leading white space.
pub open spec fn trim_start(s: Seq<u8>) -> Seq<u8>
    decreases s.len(),
{
    if leading_space(s) > 0 {
        trim_start(s.skip(leading_space(s) as int))
    } else {
        s
    }
}

/// `s` without its trailing white space.
pub open spec fn trim_end(s: Seq<u8>) -> Seq<u8>
    decreases s.len(),
{
    if trailing_space(s) > 0 {
        trim_end(s.take(s.len() - trailing_space(s)))
    } else {
        s
    }
}

/// `s` without leading and trailing white space, as `str::trim` gives it.
pub open spec fn trim(s: Seq<u8>) -> Seq<u8> {
    trim_end(trim_start(s))
}

fn leading_space_at(s: &[u8], i: usize) -> (k: usize)
    requires
        i <= s@.len(),
    ensures
        k == leading_space(s@.subrange(i as int, s@.len() as int)),
{
    let ghost t = s@.subrange(i as int, s@.len() as int);
    let n: usize = s.len();
    let rest: usize = n - i;
    if rest >= 1 {
        assert(t.take(1) =~= seq![s@[i as int]]);
    }
    if rest >= 2 {
        assert(t.take(2) =~= seq![s@[i as int], s@[i + 1]]);
    }
    if rest >= 3 {
        assert(t.take(3) =~= seq![s@[i as int], s@[i + 1], s@[i + 2]]);
    }
    if rest >= 1 && ((9 <= s[i] && s[i] <= 13) || s[i] == 32) {
        1
    } else if rest >= 2 && s[i] == 0xC2 && (s[i + 1] == 0x85 || s[i + 1] == 0xA0) {
        2
    } else if rest >= 3 && is_space3(s[i], s[i + 1], s[i + 2]) {
        3
    } else {
        0
    }
}

fn is_space3(a: u8, b: u8, c: u8) -> (r: bool)
    ensures
        r == white_space_encoding(seq![a, b, c]),
{
    (a == 0xE1 && b == 0x9A && c == 0x80) || (a == 0xE2 && b == 0x80 && ((0x80 <= c && c
        <= 0x8A) || c == 0xA8 || c == 0xA9 || c == 0xAF)) || (a == 0xE2 && b == 0x81 && c
        == 0x9F) || (a == 0xE3 && b == 0x80 && c == 0x80)
}

fn trailing_space_at(s: &[u8], lo: usize, hi: usize) -> (k: usize)
    requires
        lo <= hi <= s@.len(),
    ensures
        k == trailing_space(s@.subrange(lo as int, hi as int)),
{
    let ghost t = s@.subrange(lo as int, hi as int);
    let rest: usize = hi - lo;
    if rest >= 1 {
        assert(t.skip(t.len() - 1) =~= seq![s@[hi - 1]]);
    }
    if rest >= 2 {
        assert(t.skip(t.len() - 2) =~= seq![s@[hi - 2], s@[hi - 1]]);
    }
    if rest >= 3 {
        assert(t.skip(t.len() - 3) =~= seq![s@[hi - 3], s@[hi - 2], s@[hi - 1]]);
    }
    if rest >= 1 && ((9 <= s[hi - 1] && s[hi - 1] <= 13) || s[hi - 1] == 32) {
        1
    } else if rest >= 2 && s[hi - 2] == 0xC2 && (s[hi - 1] == 0x85 || s[hi - 1] == 0xA0) {
        2
    } else if rest >= 3 && is_space3(s[hi - 3], s[hi - 2], s[hi - 1]) {
        3
    } else {
        0
    }
}

/// The range of `s[lo..hi]` that is left once leading and trailing white space
/// are removed.
pub fn trim_range(s: &[u8], lo: usize, hi: usize) -> (r: (usize, usize))
    requires
        lo <= hi <= s@.len(),
    ensures
        lo <= r.0 <= r.1 <= hi,
        s@.subrange(r.0 as int, r.1 as int) == trim(s@.subrange(lo as int, hi as int)),
{
    let mut i: usize = lo;
    while i < hi
        invariant
            lo <= i <= hi <= s@.len(),
            trim_start(s@.subrange(lo as int, hi as int)) == trim_start(s@.subrange(i as int, hi as int)),
        ensures
            lo <= i <= hi,
            trim_start(s@.subrange(lo as int, hi as int)) == trim_start(s@.subrange(i as int, hi as int)),
            leading_space(s@.subrange(i as int, hi as int)) == 0,
        decreases hi - i,
    {
        let k: usize = leading_space_at(s, i);
        proof {
            let t = s@.subrange(i as int, s@.len() as int);
            let u = s@.subrange(i as int, hi as int);
            if 1 <= u.len() { assert(u.take(1) =~= t.take(1)); }
            if 2 <= u.len() { assert(u.take(2) =~= t.take(2)); }
            if 3 <= u.len() { assert(u.take(3) =~= t.take(3)); }
        }
        let kk: usize = if k > hi - i { 0 } else { k };
        proof {
            let t = s@.subrange(i as int, s@.len() as int);
            let u = s@.subrange(i as int, hi as int);
            assert(kk == leading_space(u));
        }
        if kk == 0 {
            break;
        }
        proof {
            let u = s@.subrange(i as int, hi as int);
            assert(u.skip(kk as int) =~= s@.subrange(i + kk, hi as int));
        }
        i = i + kk;
    }
    proof {
        let u = s@.subrange(i as int, hi as int);
        assert(trim_start(u) == u);
    }
    let mut j: usize = hi;
    while j > i
        invariant
            lo <= i <= j <= hi <= s@.len(),
            trim(s@.subrange(lo as int, hi as int)) == trim_end(s@.subrange(i as int, j as int)),
        ensures
            i <= j <= hi,
            trim(s@.subrange(lo as int, hi as int)) == trim_end(s@.subrange(i as int, j as int)),
            trailing_space(s@.subrange(i as int, j as int)) == 0,
        decreases j - i,
    {
        let k: usize = trailing_space_at(s, i, j);
        if k == 0 {
            break;
        }
        proof {
            let u = s@.subrange(i as int, j as int);
            assert(u.take(u.len() - k) =~= s@.subrange(i as int, j - k));
        }
        j = j - k;
    }
    proof {
        let u = s@.subrange(i as int, j as int);
        assert(trim_end(u) == u);
    }
    (i, j)
}

/// An ASCII decimal digit.
pub open spec fn is_digit(b: u8) -> bool {
    48 <= b && b <= 57
}

/// The number of decimal digits that `s` starts with.
pub open spec fn digit_run(s: Seq<u8>) -> nat
    decreases s.len(),
{
    if s.len() > 0 && is_digit(s[0]) {
        1 + digit_run(s.drop_first())
    } else {
        0
    }
}

/// The value of a sequence of decimal digits, most significant first.
pub open spec fn decimal(s: Seq<u8>) -> nat
    decreases s.len(),
{
    if s.len() == 0 {
        0
    } else {
        decimal(s.drop_last()) * 10 + (s.last() - 48) as nat
    }
}

/// The value of the decimal number that `s` starts with (0 if it starts with no digit).
pub open spec fn leading_number(s: Seq<u8>) -> nat {
    decimal(s.take(digit_run(s) as int))
}


/// The sum of a sequence of integers.
pub open spec fn sum(s: Seq<int>) -> int
    decreases s.len(),
{
    if s.len() == 0 {
        0
    } else {
        sum(s.drop_last()) + s.last()
    }
}

/// Sums grow with their terms: a sequence that is termwise no larger than another
/// of the same length has no larger sum.
pub proof fn lemma_sum_le(a: Seq<int>, b: Seq<int>)
    requires
        a.len() == b.len(),
        forall|k: int| 0 <= k < a.len() ==> #[trigger] a[k] <= b[k],
    ensures
        sum(a) <= sum(b),
    decreases a.len(),
{
    if a.len() > 0 {
        lemma_sum_le(a.drop_last(), b.drop_last());
    }
}

/// The sum of the first `i` elements grows with `i` when no element is negative.
pub proof fn lemma_sum_take_monotone(s: Seq<int>, i: int, j: int)
    requires
        0 <= i <= j <= s.len(),
        forall|k: int| 0 <= k < s.len() ==> 0 <= #[trigger] s[k],
    ensures
        0 <= sum(s.take(i)) <= sum(s.take(j)),
    decreases j,
{
    if j > 0 {
        assert(s.take(j).drop_last() =~= s.take(j - 1));
        if i < j {
            lemma_sum_take_monotone(s, i, j - 1);
        } else {
            lemma_sum_take_monotone(s, i - 1, j - 1);
        }
    }
}

/// Calls `atoi::FromRadix10::from_radix_10` for `u16`, which reads the decimal
/// digits at the front of `text` and returns their value and how many there were.
/// The crate multiplies and adds without a check, so a value over `u16::MAX` is
/// left out by the `requires`.
#[verifier::external_body]
pub(crate) fn u16_from_radix_10(text: &[u8]) -> (r: (u16, usize))
    requires
        leading_number(text@) <= u16::MAX,
    ensures
        r.0 == leading_number(text@),
        r.1 == digit_run(text@),
{
    <u16 as atoi::FromRadix10>::from_radix_10(text)
}

/// Calls `atoi::FromRadix10Checked::from_radix_10_checked` for `usize`, which reads
/// all the decimal digits at the front of `text` and returns their value, or `None`
/// where the value does not fit in a `usize`, and how many digits there were.
#[verifier::external_body]
pub(crate) fn usize_from_radix_10_checked(text: &[u8]) -> (r: (Option<usize>, usize))
    ensures
        r.0 == if leading_number(text@) <= usize::MAX {
            Some(leading_number(text@) as usize)
        } else {
            None::<usize>
        },
        r.1 == digit_run(text@),
{
    <usize as atoi::FromRadix10Checked>::from_radix_10_checked(text)
}


/// The bytes that `u8::is_ascii_whitespace` accepts: space, tab, line feed, form
/// feed and carriage return.
pub open spec fn is_ascii_space(b: u8) -> bool {
    b == 32 || b == 9 || b == 10 || b == 12 || b == 13
}

/// The end of the word that starts at `i`: the first white-space byte from `i`
/// on, or the end of `l`.
pub open spec fn word_end(l: Seq<u8>, i: int) -> int
    decreases l.len() - i,
{
    if i < 0 || i >= l.len() || is_ascii_space(l[i]) {
        i
    } else {
        word_end(l, i + 1)
    }
}

/// The words of `l` from index `i` on, as `split_ascii_whitespace` yields them.
pub open spec fn words_from(l: Seq<u8>, i: int) -> Seq<Seq<u8>>
    decreases l.len() - i,
{
    if i < 0 || i >= l.len() {
        Seq::empty()
    } else if is_ascii_space(l[i]) {
        words_from(l, i + 1)
    } else {
        let e = word_end(l, i);
        if e <= i || e > l.len() {
            Seq::empty()
        } else {
            seq![l.subrange(i, e)] + words_from(l, e)
        }
    }
}

/// The words of `l`: the maximal runs of bytes that are not ASCII white space.
pub open spec fn words(l: Seq<u8>) -> Seq<Seq<u8>> {
    words_from(l, 0)
}

proof fn lemma_word_end(l: Seq<u8>, i: int)
    requires
        0 <= i <= l.len(),
    ensures
        i <= word_end(l, i) <= l.len(),
        forall|k: int| i <= k < word_end(l, i) ==> !is_ascii_space(#[trigger] l[k]),
        word_end(l, i) < l.len() ==> is_ascii_space(l[word_end(l, i)]),
    decreases l.len() - i,
{
    if i < l.len() && !is_ascii_space(l[i]) {
        lemma_word_end(l, i + 1);
    }
}

/// Splits `s[lo..hi]` at ASCII white space; each word is returned as a range of
/// indices into `s`.
pub fn word_ranges(s: &[u8], lo: usize, hi: usize) -> (r: Vec<(usize, usize)>)
    requires
        lo <= hi <= s@.len(),
    ensures
        forall|k: int| 0 <= k < r@.len() ==> lo <= #[trigger] r@[k].0 <= r@[k].1 <= hi,
        ranges_view(s@, r@) == words(s@.subrange(lo as int, hi as int)),
{
    let ghost l = s@.subrange(lo as int, hi as int);
    let mut r: Vec<(usize, usize)> = Vec::new();
    let mut i: usize = lo;
    while i < hi
        invariant
            lo <= i <= hi <= s@.len(),
            l == s@.subrange(lo as int, hi as int),
            forall|k: int| 0 <= k < r@.len() ==> lo <= #[trigger] r@[k].0 <= r@[k].1 <= i,
            ranges_view(s@, r@) + words_from(l, i - lo) == words(l),
        decreases hi - i,
    {
        if s[i] == 32 || s[i] == 9 || s[i] == 10 || s[i] == 12 || s[i] == 13 {
            i = i + 1;
        } else {
            let start: usize = i;
            proof {
                lemma_word_end(l, start - lo);
            }
            while i < hi && !(s[i] == 32 || s[i] == 9 || s[i] == 10 || s[i] == 12 || s[i] == 13)
                invariant
                    lo <= start <= i <= hi <= s@.len(),
                    forall|k: int| 0 <= k < r@.len() ==> lo <= #[trigger] r@[k].0 <= r@[k].1 <= start,
                    l == s@.subrange(lo as int, hi as int),
                    start - lo < l.len(),
                    !is_ascii_space(l[start - lo]),
                    word_end(l, start - lo) == word_end(l, i - lo),
                decreases hi - i,
            {
                i = i + 1;
            }
            proof {
                let a = start - lo;
                let e = i - lo;
                assert(word_end(l, a) == e);
                let ghost old_r = r@;
                assert(ranges_view(s@, old_r.push((start, i))) =~= ranges_view(s@, old_r).push(s@.subrange(start as int, i as int)));
                assert(s@.subrange(start as int, i as int) =~= l.subrange(a, e));
            }
            let ghost old_r = r@;
            r.push((start, i));
            proof {
                assert forall|k: int| 0 <= k < r@.len() implies lo <= #[trigger] r@[k].0 <= r@[k].1 <= i by {
                    if k < old_r.len() {
                        assert(r@[k] == old_r[k]);
                        assert(lo <= old_r[k].0 <= old_r[k].1 <= start);
                    } else {
                        assert(r@[k] == (start, i));
                    }
                }
                assert(ranges_view(s@, r@) =~= ranges_view(s@, old_r).push(l.subrange(start - lo, i - lo)));
                assert(ranges_view(s@, r@) + words_from(l, i - lo) =~= ranges_view(s@, old_r) + words_from(l, start - lo));
            }
        }
    }
    proof {
        assert(ranges_view(s@, r@) + words_from(l, i - lo) =~= ranges_view(s@, r@));
    }
    r
}

} // verus!
