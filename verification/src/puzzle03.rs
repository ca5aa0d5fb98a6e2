//! Scoring passwords, one per line. Part 1 picks the line with the most length
//! times character classes; part 2 the line with the best value, which counts
//! classes, a lone `7` among digits, the longest run of one byte and a colour
//! word; part 3 asks which byte, appended to every line, raises the sum of the
//! values most.
use vstd::prelude::*;
use crate::text::{line_ranges, lines, ranges_in, ranges_view};

verus! {

/// A lower-case letter was seen.
pub const SAW_LOWER: u8 = 1;
/// An upper-case letter was seen.
pub const SAW_UPPER: u8 = 2;
/// A digit was seen.
pub const SAW_DIGIT: u8 = 4;
/// The digit `7` was seen.
pub const SAW_SEVEN: u8 = 8;
/// A digit other than `7` was seen.
pub const SAW_NONSEVEN: u8 = 16;
/// The three character classes.
pub const CLASS_MASK: u8 = 7;
/// All flags.
pub const FLAG_MASK: u8 = 31;

/// The flags a byte sets.
pub open spec fn byte_flags_spec(c: u8) -> u8 {
    if c == 55 {
        SAW_DIGIT | SAW_SEVEN
    } else if 48 <= c <= 57 {
        SAW_DIGIT | SAW_NONSEVEN
    } else if 65 <= c <= 90 {
        SAW_UPPER
    } else if 97 <= c <= 122 {
        SAW_LOWER
    } else {
        0
    }
}

/// The flags a byte sets.
fn byte_flags(c: u8) -> (r: u8)
    ensures
        r == byte_flags_spec(c),
{
    if c == 55 {
        SAW_DIGIT | SAW_SEVEN
    } else if 48 <= c && c <= 57 {
        SAW_DIGIT | SAW_NONSEVEN
    } else if 65 <= c && c <= 90 {
        SAW_UPPER
    } else if 97 <= c && c <= 122 {
        SAW_LOWER
    } else {
        0
    }
}

/// One point for each class seen, and 7 more where the only digit seen is `7`.
pub open spec fn flag_score_spec(f: u8) -> int {
    (if f & SAW_LOWER != 0 { 1int } else { 0 }) + (if f & SAW_UPPER != 0 { 1int } else { 0 }) + (if f & SAW_DIGIT != 0 {
        1int
    } else {
        0
    }) + (if f & SAW_SEVEN != 0 && f & SAW_NONSEVEN == 0 {
        7int
    } else {
        0
    })
}

/// The score of a set of flags.
fn flag_score(f: u8) -> (r: u16)
    ensures
        r == flag_score_spec(f),
{
    let a: u16 = if f & SAW_LOWER != 0 { 1 } else { 0 };
    let b: u16 = if f & SAW_UPPER != 0 { 1 } else { 0 };
    let c: u16 = if f & SAW_DIGIT != 0 { 1 } else { 0 };
    let d: u16 = if f & SAW_SEVEN != 0 && f & SAW_NONSEVEN == 0 { 7 } else { 0 };
    a + b + c + d
}

/// The number of classes among the flags.
pub open spec fn classes_spec(f: u8) -> int {
    (if f & SAW_LOWER != 0 { 1int } else { 0 }) + (if f & SAW_UPPER != 0 { 1int } else { 0 }) + (if f & SAW_DIGIT != 0 {
        1int
    } else {
        0
    })
}

/// Where a line is in spelling one of the words `green`, `red` and `blue`.
#[derive(Clone, Copy, PartialEq, Eq, Structural)]
pub enum ColorState {
    Idle,
    G,
    Gr,
    Gre,
    Gree,
    Green,
    R,
    Re,
    Red,
    B,
    Bl,
    Blu,
    Blue,
}

/// The colour state after byte `c`. A finished word stays; `gre` followed by `d`
/// counts as `red`.
pub open spec fn color_step(s: ColorState, c: u8) -> ColorState {
    match s {
        ColorState::Green => ColorState::Green,
        ColorState::Red => ColorState::Red,
        ColorState::Blue => ColorState::Blue,
        ColorState::Idle => if c == 103 {
            ColorState::G
        } else if c == 114 {
            ColorState::R
        } else if c == 98 {
            ColorState::B
        } else {
            ColorState::Idle
        },
        ColorState::G => if c == 114 {
            ColorState::Gr
        } else {
            ColorState::Idle
        },
        ColorState::Gr => if c == 101 {
            ColorState::Gre
        } else {
            ColorState::Idle
        },
        ColorState::Gre => if c == 101 {
            ColorState::Gree
        } else if c == 100 {
            ColorState::Red
        } else {
            ColorState::Idle
        },
        ColorState::Gree => if c == 110 {
            ColorState::Green
        } else {
            ColorState::Idle
        },
        ColorState::R => if c == 101 {
            ColorState::Re
        } else {
            ColorState::Idle
        },
        ColorState::Re => if c == 100 {
            ColorState::Red
        } else {
            ColorState::Idle
        },
        ColorState::B => if c == 108 {
            ColorState::Bl
        } else {
            ColorState::Idle
        },
        ColorState::Bl => if c == 117 {
            ColorState::Blu
        } else {
            ColorState::Idle
        },
        ColorState::Blu => if c == 101 {
            ColorState::Blue
        } else {
            ColorState::Idle
        },
    }
}

/// A finished colour word triples the value.
pub open spec fn multiplier_spec(s: ColorState) -> int {
    match s {
        ColorState::Green | ColorState::Red | ColorState::Blue => 3,
        _ => 1,
    }
}

impl ColorState {
    /// The colour state after byte `c`.
    pub fn push(self, c: u8) -> (r: ColorState)
        ensures
            r == color_step(self, c),
    {
        match self {
            ColorState::Idle => if c == 103 {
                ColorState::G
            } else if c == 114 {
                ColorState::R
            } else if c == 98 {
                ColorState::B
            } else {
                ColorState::Idle
            },
            ColorState::G => if c == 114 {
                ColorState::Gr
            } else {
                ColorState::Idle
            },
            ColorState::Gr => if c == 101 {
                ColorState::Gre
            } else {
                ColorState::Idle
            },
            ColorState::Gre => if c == 101 {
                ColorState::Gree
            } else if c == 100 {
                ColorState::Red
            } else {
                ColorState::Idle
            },
            ColorState::Gree => if c == 110 {
                ColorState::Green
            } else {
                ColorState::Idle
            },
            ColorState::R => if c == 101 {
                ColorState::Re
            } else {
                ColorState::Idle
            },
            ColorState::Re => if c == 100 {
                ColorState::Red
            } else {
                ColorState::Idle
            },
            ColorState::B => if c == 108 {
                ColorState::Bl
            } else {
                ColorState::Idle
            },
            ColorState::Bl => if c == 117 {
                ColorState::Blu
            } else {
                ColorState::Idle
            },
            ColorState::Blu => if c == 101 {
                ColorState::Blue
            } else {
                ColorState::Idle
            },
            ColorState::Green => ColorState::Green,
            ColorState::Red => ColorState::Red,
            ColorState::Blue => ColorState::Blue,
        }
    }

    /// 3 for a finished colour word, else 1.
    pub fn multiplier(self) -> (r: u16)
        ensures
            r == multiplier_spec(self),
    {
        match self {
            ColorState::Green | ColorState::Red | ColorState::Blue => 3,
            _ => 1,
        }
    }
}

/// What is known of a line after reading some of its bytes.
#[derive(Clone, Copy)]
pub struct State {
    pub flags: u8,
    pub run_char: u8,
    pub run_length: u8,
    pub best_run_length: u8,
    pub color_state: ColorState,
    pub len: u8,
}

/// The state before any byte: no flags, no run, idle colour, length 0.
pub open spec fn initial() -> State {
    State { flags: 0, run_char: 0, run_length: 0, best_run_length: 0, color_state: ColorState::Idle, len: 0 }
}

/// The state after one more byte: its flags are added; a byte equal to the run's
/// byte extends the run (a run of 3 or more may become the best), another starts a
/// new run; the colour state moves on and the length grows.
pub open spec fn feed(s: State, c: u8) -> State {
    let (run_length, best) = if c == s.run_char {
        let r = (s.run_length + 1) as u8;
        (r, if r >= 3 && r > s.best_run_length {
            r
        } else {
            s.best_run_length
        })
    } else {
        (1u8, s.best_run_length)
    };
    State {
        flags: s.flags | byte_flags_spec(c),
        run_char: c,
        run_length,
        best_run_length: best,
        color_state: color_step(s.color_state, c),
        len: (s.len + 1) as u8,
    }
}

/// The state after reading all of `l`.
pub open spec fn state_of(l: Seq<u8>) -> State
    decreases l.len(),
{
    if l.len() == 0 {
        initial()
    } else {
        feed(state_of(l.drop_last()), l.last())
    }
}

/// The value of a state: its length times the flag score plus the square of the
/// best run, times the colour multiplier.
pub open spec fn value_spec(s: State) -> int {
    s.len * (flag_score_spec(s.flags & FLAG_MASK) + s.best_run_length * s.best_run_length) * multiplier_spec(s.color_state)
}

/// The value the state would have after one more byte `c`.
pub open spec fn value_after_push_spec(s: State, c: u8) -> int {
    let flags = s.flags | byte_flags_spec(c);
    let best = if c == s.run_char && s.run_length >= 2 && s.run_length + 1 > s.best_run_length {
        s.run_length + 1
    } else {
        s.best_run_length as int
    };
    (s.len + 1) * (flag_score_spec(flags & FLAG_MASK) + best * best) * multiplier_spec(color_step(s.color_state, c))
}

proof fn lemma_state_bounds(l: Seq<u8>)
    requires
        l.len() <= 255,
    ensures
        state_of(l).len == l.len(),
        state_of(l).run_length <= l.len(),
        state_of(l).best_run_length <= l.len(),
        l.len() > 0 ==> state_of(l).run_char == l.last(),
    decreases l.len(),
{
    if l.len() > 0 {
        lemma_state_bounds(l.drop_last());
    }
}

/// Appending a byte and then reading the line gives the value that
/// `value_after_push` predicts from the line as it was.
pub proof fn law_value_after_push_reads_longer_line(l: Seq<u8>, c: u8)
    requires
        l.len() < 255,
    ensures
        value_after_push_spec(state_of(l), c) == value_spec(state_of(l.push(c))),
{
    lemma_state_bounds(l);
    assert(l.push(c).drop_last() =~= l);
    let s = state_of(l);
    let t = state_of(l.push(c));
    assert(t == feed(s, c));
    let best = if c == s.run_char && s.run_length >= 2 && s.run_length + 1 > s.best_run_length {
        s.run_length + 1
    } else {
        s.best_run_length as int
    };
    assert(t.best_run_length == best);
    assert(t.len == s.len + 1);
}

/// How many letters of its word a colour state has matched; 0 for `Idle` and 5
/// for a finished word.
pub open spec fn letters_matched(s: ColorState) -> int {
    match s {
        ColorState::Idle => 0,
        ColorState::G | ColorState::R | ColorState::B => 1,
        ColorState::Gr | ColorState::Re | ColorState::Bl => 2,
        ColorState::Gre | ColorState::Blu => 3,
        ColorState::Gree => 4,
        _ => 5,
    }
}

/// A word is only begun from `Idle`, and a partial word either grows by one letter,
/// is finished, or is broken back to `Idle`: a byte that does not continue the word
/// never starts another one. So in `rred` the second `r` breaks the word and `red`
/// is never finished.
pub proof fn law_partial_words_reset(s: ColorState, c: u8)
    ensures
        letters_matched(color_step(s, c)) == 1 ==> s == ColorState::Idle,
        s == ColorState::Idle ==> letters_matched(color_step(s, c)) <= 1,
        0 < letters_matched(s) < 5 ==> {
            ||| color_step(s, c) == ColorState::Idle
            ||| letters_matched(color_step(s, c)) == 5
            ||| letters_matched(color_step(s, c)) == letters_matched(s) + 1
        },
{
}

/// A finished colour word stays finished whatever byte follows.
pub proof fn law_colour_words_absorb(s: ColorState, c: u8)
    requires
        s == ColorState::Green || s == ColorState::Red || s == ColorState::Blue,
    ensures
        color_step(s, c) == s,
{
}

/// `l` ends with the bytes `w`.
pub open spec fn ends_with(l: Seq<u8>, w: Seq<u8>) -> bool {
    w.len() <= l.len() && l.subrange(l.len() - w.len(), l.len() as int) == w
}

/// `l` holds the bytes `w` somewhere, one after the other.
pub open spec fn has_word(l: Seq<u8>, w: Seq<u8>) -> bool {
    exists|k: int| 0 <= k && k + w.len() <= l.len() && #[trigger] l.subrange(k, k + w.len()) == w
}

/// `l` holds one of the words `green`, `red` and `blue`.
pub open spec fn has_colour(l: Seq<u8>) -> bool {
    ||| has_word(l, seq![103u8, 114u8, 101u8, 101u8, 110u8])
    ||| has_word(l, seq![114u8, 101u8, 100u8])
    ||| has_word(l, seq![98u8, 108u8, 117u8, 101u8])
}

/// What a colour state says of the bytes read so far: a partial word is what they
/// end with, a finished word is somewhere in them.
pub open spec fn colour_progress(st: ColorState, l: Seq<u8>) -> bool {
    match st {
        ColorState::Idle => true,
        ColorState::G => ends_with(l, seq![103u8]),
        ColorState::Gr => ends_with(l, seq![103u8, 114u8]),
        ColorState::Gre => ends_with(l, seq![103u8, 114u8, 101u8]),
        ColorState::Gree => ends_with(l, seq![103u8, 114u8, 101u8, 101u8]),
        ColorState::R => ends_with(l, seq![114u8]),
        ColorState::Re => ends_with(l, seq![114u8, 101u8]),
        ColorState::B => ends_with(l, seq![98u8]),
        ColorState::Bl => ends_with(l, seq![98u8, 108u8]),
        ColorState::Blu => ends_with(l, seq![98u8, 108u8, 117u8]),
        _ => has_colour(l),
    }
}

proof fn lemma_ends_with_push(l: Seq<u8>, w: Seq<u8>, c: u8)
    requires
        ends_with(l, w),
    ensures
        ends_with(l.push(c), w.push(c)),
{
    assert(l.push(c).subrange(l.push(c).len() - w.push(c).len(), l.push(c).len() as int) =~= w.push(c));
}

proof fn lemma_has_word_push(l: Seq<u8>, w: Seq<u8>, c: u8)
    requires
        has_word(l, w),
    ensures
        has_word(l.push(c), w),
{
    let k = choose|k: int| 0 <= k && k + w.len() <= l.len() && #[trigger] l.subrange(k, k + w.len()) == w;
    assert(l.push(c).subrange(k, k + w.len()) =~= l.subrange(k, k + w.len()));
}

proof fn lemma_ends_has(l: Seq<u8>, w: Seq<u8>)
    requires
        ends_with(l, w),
    ensures
        has_word(l, w),
{
    let k = l.len() - w.len();
    assert(l.subrange(k, k + w.len()) == w);
}

proof fn lemma_colour_progress(l: Seq<u8>)
    ensures
        colour_progress(state_of(l).color_state, l),
    decreases l.len(),
{
    if l.len() > 0 {
        let t = l.drop_last();
        let c = l.last();
        lemma_colour_progress(t);
        assert(t.push(c) =~= l);
        let st = state_of(t).color_state;
        assert(state_of(l).color_state == color_step(st, c));
        let e = Seq::<u8>::empty();
        assert(ends_with(t, e)) by {
            assert(t.subrange(t.len() as int, t.len() as int) =~= e);
        }
        match st {
            ColorState::Idle => {
                lemma_ends_with_push(t, e, c);
                assert(e.push(c) =~= seq![c]);
            },
            ColorState::G => {
                lemma_ends_with_push(t, seq![103u8], c);
                assert(seq![103u8].push(c) =~= seq![103u8, c]);
            },
            ColorState::Gr => {
                lemma_ends_with_push(t, seq![103u8, 114u8], c);
                assert(seq![103u8, 114u8].push(c) =~= seq![103u8, 114u8, c]);
            },
            ColorState::Gre => {
                let w = seq![103u8, 114u8, 101u8];
                lemma_ends_with_push(t, w, c);
                assert(w.push(c) =~= seq![103u8, 114u8, 101u8, c]);
                if c == 100 {
                    let k = l.len() - 3;
                    assert(l.subrange(k, k + 3) =~= seq![114u8, 101u8, 100u8]);
                }
            },
            ColorState::Gree => {
                let w = seq![103u8, 114u8, 101u8, 101u8];
                lemma_ends_with_push(t, w, c);
                if c == 110 {
                    assert(w.push(c) =~= seq![103u8, 114u8, 101u8, 101u8, 110u8]);
                    lemma_ends_has(l, w.push(c));
                }
            },
            ColorState::R => {
                lemma_ends_with_push(t, seq![114u8], c);
                assert(seq![114u8].push(c) =~= seq![114u8, c]);
            },
            ColorState::Re => {
                let w = seq![114u8, 101u8];
                lemma_ends_with_push(t, w, c);
                if c == 100 {
                    assert(w.push(c) =~= seq![114u8, 101u8, 100u8]);
                    lemma_ends_has(l, w.push(c));
                }
            },
            ColorState::B => {
                lemma_ends_with_push(t, seq![98u8], c);
                assert(seq![98u8].push(c) =~= seq![98u8, c]);
            },
            ColorState::Bl => {
                lemma_ends_with_push(t, seq![98u8, 108u8], c);
                assert(seq![98u8, 108u8].push(c) =~= seq![98u8, 108u8, c]);
            },
            ColorState::Blu => {
                let w = seq![98u8, 108u8, 117u8];
                lemma_ends_with_push(t, w, c);
                if c == 101 {
                    assert(w.push(c) =~= seq![98u8, 108u8, 117u8, 101u8]);
                    lemma_ends_has(l, w.push(c));
                }
            },
            _ => {
                let g = seq![103u8, 114u8, 101u8, 101u8, 110u8];
                let r = seq![114u8, 101u8, 100u8];
                let bl = seq![98u8, 108u8, 117u8, 101u8];
                if has_word(t, g) {
                    lemma_has_word_push(t, g, c);
                } else if has_word(t, r) {
                    lemma_has_word_push(t, r, c);
                } else {
                    lemma_has_word_push(t, bl, c);
                }
            },
        }
    }
}

/// A line is tripled only for a colour word it holds: if its colour state is
/// finished (multiplier 3), the line contains `green`, `red` or `blue`.
pub proof fn law_colour_needs_word(l: Seq<u8>)
    ensures
        multiplier_spec(state_of(l).color_state) == 3 ==> has_colour(l),
{
    lemma_colour_progress(l);
}

impl State {
    /// Reads a line.
    pub fn from_line(line: &[u8]) -> (s: State)
        requires
            line@.len() <= 255,
        ensures
            s == state_of(line@),
    {
        let mut state = State { flags: 0, run_char: 0, run_length: 0, best_run_length: 0, color_state: ColorState::Idle, len: 0 };
        let mut i: usize = 0;
        while i < line.len()
            invariant
                i <= line@.len() <= 255,
                state == state_of(line@.take(i as int)),
            decreases line@.len() - i,
        {
            let c: u8 = line[i];
            proof {
                assert(line@.take(i + 1).drop_last() =~= line@.take(i as int));
                assert(line@.take(i + 1).last() == c);
                lemma_state_bounds(line@.take(i as int));
            }
            state.flags = state.flags | byte_flags(c);
            if c == state.run_char {
                state.run_length = state.run_length + 1;
                if state.run_length >= 3 {
                    if state.run_length > state.best_run_length {
                        state.best_run_length = state.run_length;
                    }
                }
            } else {
                state.run_char = c;
                state.run_length = 1;
            }
            state.color_state = state.color_state.push(c);
            state.len = state.len + 1;
            i = i + 1;
        }
        proof {
            assert(line@.take(line@.len() as int) =~= line@);
        }
        state
    }

    /// The value of the line read.
    pub fn value(self) -> (r: u16)
        requires
            value_spec(self) <= u16::MAX,
        ensures
            r == value_spec(self),
    {
        let score: u16 = flag_score(self.flags & FLAG_MASK);
        let b: u16 = self.best_run_length as u16;
        let m: u16 = self.color_state.multiplier();
        let l: u16 = self.len as u16;
        proof {
            lemma_value_parts(l as int, score as int, b as int, m as int);
        }
        l * (score + b * b) * m
    }

    /// The value the line would have with byte `c` appended.
    pub fn value_after_push(self, c: u8) -> (r: u16)
        requires
            c == self.run_char && self.run_length >= 2 ==> self.run_length < 255,
            value_after_push_spec(self, c) <= u16::MAX,
        ensures
            r == value_after_push_spec(self, c),
    {
        let flags: u8 = self.flags | byte_flags(c);
        let best_run_length: u8 = if c == self.run_char && self.run_length >= 2 {
            if self.run_length + 1 > self.best_run_length {
                self.run_length + 1
            } else {
                self.best_run_length
            }
        } else {
            self.best_run_length
        };
        let score: u16 = flag_score(flags & FLAG_MASK);
        let b: u16 = best_run_length as u16;
        let m: u16 = self.color_state.push(c).multiplier();
        let l: u16 = self.len as u16 + 1;
        proof {
            lemma_value_parts(l as int, score as int, b as int, m as int);
        }
        l * (score + b * b) * m
    }
}

/// A product of nonnegative factors bounds the partial products when it is at least 1.
proof fn lemma_value_parts(l: int, score: int, b: int, m: int)
    requires
        0 <= l <= 256,
        0 <= score <= 10,
        0 <= b <= 255,
        1 <= m <= 3,
    ensures
        b * b <= 65025,
        l * (score + b * b) * m <= u16::MAX ==> l * (score + b * b) <= u16::MAX,
        l * (score + b * b) * m <= u16::MAX ==> (l == 0 || score + b * b <= u16::MAX),
{
    assert(b * b <= 65025) by (nonlinear_arith)
        requires
            0 <= b <= 255,
    ;
    assert(l * (score + b * b) <= l * (score + b * b) * m) by (nonlinear_arith)
        requires
            0 <= l,
            0 <= score + b * b,
            1 <= m,
    ;
    assert(l >= 1 ==> score + b * b <= l * (score + b * b)) by (nonlinear_arith)
        requires
            0 <= score + b * b,
    ;
}


/// The flags of all bytes of a line.
pub open spec fn flags_of(l: Seq<u8>) -> u8
    decreases l.len(),
{
    if l.len() == 0 {
        0
    } else {
        flags_of(l.drop_last()) | byte_flags_spec(l.last())
    }
}

/// Part 1's key of a line: its length, taken as a `u16`, times its classes.
pub open spec fn key1(l: Seq<u8>) -> int {
    (l.len() % 65536) * classes_spec(flags_of(l) & CLASS_MASK)
}

/// Part 2's key of a line: its value.
pub open spec fn key2(l: Seq<u8>) -> int {
    value_spec(state_of(l))
}

/// The index of the last line with the largest key among the first `k` lines.
pub open spec fn last_best(ls: Seq<Seq<u8>>, second: bool, k: int) -> int
    decreases k,
{
    if k <= 1 {
        0
    } else {
        let b = last_best(ls, second, k - 1);
        let kn = if second {
            key2(ls[k - 1])
        } else {
            key1(ls[k - 1])
        };
        let kb = if second {
            key2(ls[b])
        } else {
            key1(ls[b])
        };
        if kn >= kb {
            k - 1
        } else {
            b
        }
    }
}

/// The line that part 1 (or, with `second`, part 2) picks.
pub open spec fn pick(s: Seq<u8>, second: bool) -> Seq<u8> {
    lines(s)[last_best(lines(s), second, lines(s).len() as int)]
}

/// Every key of part 1 fits in a `u16`.
pub open spec fn keys1_fit(s: Seq<u8>) -> bool {
    forall|i: int| 0 <= i < lines(s).len() ==> #[trigger] key1(lines(s)[i]) <= u16::MAX
}

/// Every line is at most 255 bytes and its value fits in a `u16`.
pub open spec fn keys2_fit(s: Seq<u8>) -> bool {
    forall|i: int| 0 <= i < lines(s).len() ==> #[trigger] lines(s)[i].len() <= 255 && key2(lines(s)[i]) <= u16::MAX
}

/// The flags of a line, read byte by byte.
fn line_flags(l: &[u8]) -> (f: u8)
    ensures
        f == flags_of(l@),
{
    let mut f: u8 = 0;
    let mut i: usize = 0;
    while i < l.len()
        invariant
            i <= l@.len(),
            f == flags_of(l@.take(i as int)),
        decreases l@.len() - i,
    {
        proof {
            assert(l@.take(i + 1).drop_last() =~= l@.take(i as int));
        }
        f = f | byte_flags(l[i]);
        i = i + 1;
    }
    proof {
        assert(l@.take(l@.len() as int) =~= l@);
    }
    f
}

/// Part 1's key of a line.
fn key_of_line(l: &[u8]) -> (k: u16)
    requires
        key1(l@) <= u16::MAX,
    ensures
        k == key1(l@),
{
    let f: u8 = line_flags(l) & CLASS_MASK;
    let a: u16 = if f & SAW_LOWER != 0 { 1 } else { 0 };
    let b: u16 = if f & SAW_UPPER != 0 { 1 } else { 0 };
    let c: u16 = if f & SAW_DIGIT != 0 { 1 } else { 0 };
    let n: u16 = (l.len() % 65536) as u16;
    proof {
        assert(n * (a + b + c) == key1(l@));
    }
    n * (a + b + c)
}

/// The line of the puzzle input with the largest key, the last one on a tie.
fn pick_line(input: &[u8], second: bool) -> (r: Vec<u8>)
    requires
        lines(input@).len() > 0,
        !second ==> keys1_fit(input@),
        second ==> keys2_fit(input@),
    ensures
        r@ == pick(input@, second),
{
    let ranges = line_ranges(input);
    let ghost ls = lines(input@);
    let mut best: usize = 0;
    let mut best_key: u16 = 0;
    let mut i: usize = 0;
    while i < ranges.len()
        invariant
            i <= ranges@.len() == ls.len(),
            ls.len() > 0,
            ls == lines(input@),
            ranges_in(ranges@, input@.len()),
            ranges_view(input@, ranges@) == ls,
            !second ==> keys1_fit(input@),
            second ==> keys2_fit(input@),
            i > 0 ==> best == last_best(ls, second, i as int),
            i > 0 ==> best < i,
            i > 0 ==> best_key == if second {
                key2(ls[best as int])
            } else {
                key1(ls[best as int])
            },
        decreases ranges@.len() - i,
    {
        let (a, e) = ranges[i];
        proof {
            assert(ranges@[i as int].0 <= ranges@[i as int].1 <= input@.len());
        }
        let line = vstd::slice::slice_subrange(input, a, e);
        proof {
            assert(line@ == ls[i as int]);
        }
        let k: u16 = if second {
            State::from_line(line).value()
        } else {
            key_of_line(line)
        };
        if i == 0 || k >= best_key {
            best = i;
            best_key = k;
        }
        i = i + 1;
    }
    let (a, e) = ranges[best];
    proof {
        assert(ranges@[best as int].0 <= ranges@[best as int].1 <= input@.len());
    }
    vstd::slice::slice_to_vec(vstd::slice::slice_subrange(input, a, e))
}

/// The line with the largest length times classes (the last one on a tie).
pub fn solve_part1(input: &[u8]) -> (r: Vec<u8>)
    requires
        lines(input@).len() > 0,
        keys1_fit(input@),
    ensures
        r@ == pick(input@, false),
{
    pick_line(input, false)
}

/// The line with the largest value (the last one on a tie).
pub fn solve_part2(input: &[u8]) -> (r: Vec<u8>)
    requires
        lines(input@).len() > 0,
        keys2_fit(input@),
    ensures
        r@ == pick(input@, true),
{
    pick_line(input, true)
}

/// The bytes part 3 tries: `a` to `z`, `A` to `Z`, `0` to `9`.
pub open spec fn letter(k: int) -> u8 {
    if k < 26 {
        (97 + k) as u8
    } else if k < 52 {
        (65 + k - 26) as u8
    } else {
        (48 + k - 52) as u8
    }
}

/// The sum over the first `i` lines of their values with byte `c` appended.
pub open spec fn sum_after(ls: Seq<Seq<u8>>, c: u8, i: int) -> int
    decreases i,
{
    if i <= 0 {
        0
    } else {
        sum_after(ls, c, i - 1) + value_after_push_spec(state_of(ls[i - 1]), c)
    }
}

/// The sum over the first `i` lines of the values of the lines with byte `c`
/// appended.
pub open spec fn sum_longer(ls: Seq<Seq<u8>>, c: u8, i: int) -> int
    decreases i,
{
    if i <= 0 {
        0
    } else {
        sum_longer(ls, c, i - 1) + value_spec(state_of(ls[i - 1].push(c)))
    }
}

/// Part 3's sums are the sums of the values of the longer lines: with every line
/// shorter than 255 bytes, the predicted values that part 3 adds up are the values
/// of the lines with the byte appended.
pub proof fn law_part3_sums_longer_lines(ls: Seq<Seq<u8>>, c: u8, i: int)
    requires
        i <= ls.len(),
        forall|k: int| 0 <= k < ls.len() ==> #[trigger] ls[k].len() < 255,
    ensures
        sum_after(ls, c, i) == sum_longer(ls, c, i),
    decreases i,
{
    if i > 0 {
        law_part3_sums_longer_lines(ls, c, i - 1);
        law_value_after_push_reads_longer_line(ls[i - 1], c);
    }
}

/// The largest sum among the first `k` bytes to try.
pub open spec fn best_sum(ls: Seq<Seq<u8>>, k: int) -> int
    decreases k,
{
    if k <= 0 {
        0
    } else {
        let a = best_sum(ls, k - 1);
        let b = sum_after(ls, letter(k - 1), ls.len() as int);
        if b > a {
            b
        } else {
            a
        }
    }
}

/// Every line is at most 255 bytes, no final run of 255 bytes grows by one, and,
/// for every byte tried, the sum of the values fits in a `u16`.
pub open spec fn part3_fits(s: Seq<u8>) -> bool {
    &&& forall|i: int| 0 <= i < lines(s).len() ==> #[trigger] lines(s)[i].len() <= 255
    &&& forall|i: int, k: int| 0 <= i < lines(s).len() && 0 <= k < 62 && #[trigger] letter(k) == #[trigger] state_of(lines(s)[i]).run_char
        ==> state_of(lines(s)[i]).run_length < 255
    &&& forall|k: int| 0 <= k < 62 ==> #[trigger] sum_after(lines(s), letter(k), lines(s).len() as int) <= u16::MAX
}

proof fn lemma_value_after_push_nonneg(s: State, c: u8)
    ensures
        value_after_push_spec(s, c) >= 0,
{
    let flags = s.flags | byte_flags_spec(c);
    let best = if c == s.run_char && s.run_length >= 2 && s.run_length + 1 > s.best_run_length {
        s.run_length + 1
    } else {
        s.best_run_length as int
    };
    let sc = flag_score_spec(flags & FLAG_MASK);
    let m = multiplier_spec(color_step(s.color_state, c));
    assert(sc >= 0);
    assert(m >= 1);
    assert((s.len + 1) * (sc + best * best) * m >= 0) by (nonlinear_arith)
        requires
            s.len + 1 >= 1,
            sc >= 0,
            m >= 1,
    ;
}

proof fn lemma_sum_after_monotone(ls: Seq<Seq<u8>>, c: u8, i: int, j: int)
    requires
        0 <= i <= j,
    ensures
        0 <= sum_after(ls, c, i) <= sum_after(ls, c, j),
    decreases j,
{
    if j > 0 {
        lemma_value_after_push_nonneg(state_of(ls[j - 1]), c);
        if i < j {
            lemma_sum_after_monotone(ls, c, i, j - 1);
        } else {
            lemma_sum_after_monotone(ls, c, i - 1, j - 1);
        }
    }
}

/// The largest sum of the values of all lines with one byte appended, over the
/// bytes `a` to `z`, `A` to `Z` and `0` to `9`.
pub fn solve_part3(input: &[u8]) -> (r: u16)
    requires
        part3_fits(input@),
    ensures
        r == best_sum(lines(input@), 62),
{
    let ranges = line_ranges(input);
    let ghost ls = lines(input@);
    let mut states: Vec<State> = Vec::new();
    let mut i: usize = 0;
    while i < ranges.len()
        invariant
            i <= ranges@.len() == ls.len(),
            ls == lines(input@),
            ranges_in(ranges@, input@.len()),
            ranges_view(input@, ranges@) == ls,
            part3_fits(input@),
            states@.len() == i,
            forall|k: int| 0 <= k < i ==> #[trigger] states@[k] == state_of(ls[k]),
        decreases ranges@.len() - i,
    {
        let (a, e) = ranges[i];
        proof {
            assert(ranges@[i as int].0 <= ranges@[i as int].1 <= input@.len());
            assert(ls[i as int].len() <= 255);
        }
        let line = vstd::slice::slice_subrange(input, a, e);
        proof {
            assert(line@ == ls[i as int]);
        }
        states.push(State::from_line(line));
        i = i + 1;
    }
    let mut best: u16 = 0;
    let mut k: usize = 0;
    while k < 62
        invariant
            k <= 62,
            ls == lines(input@),
            part3_fits(input@),
            states@.len() == ls.len(),
            forall|q: int| 0 <= q < ls.len() ==> #[trigger] states@[q] == state_of(ls[q]),
            best == best_sum(ls, k as int),
        decreases 62 - k,
    {
        let c: u8 = if k < 26 {
            97 + k as u8
        } else if k < 52 {
            65 + (k - 26) as u8
        } else {
            48 + (k - 52) as u8
        };
        proof {
            assert(c == letter(k as int));
        }
        let mut total: u16 = 0;
        let mut j: usize = 0;
        while j < states.len()
            invariant
                j <= states@.len() == ls.len(),
                ls == lines(input@),
                part3_fits(input@),
                k < 62,
                c == letter(k as int),
                forall|q: int| 0 <= q < ls.len() ==> #[trigger] states@[q] == state_of(ls[q]),
                total == sum_after(ls, c, j as int),
            decreases states@.len() - j,
        {
            proof {
                assert(ls[j as int].len() <= 255);
                lemma_state_bounds(ls[j as int]);
                if c == state_of(ls[j as int]).run_char {
                    assert(letter(k as int) == state_of(ls[j as int]).run_char);
                }
                assert(sum_after(ls, letter(k as int), ls.len() as int) <= u16::MAX);
                lemma_sum_after_monotone(ls, c, j + 1, ls.len() as int);
                lemma_value_after_push_nonneg(state_of(ls[j as int]), c);
            }
            let v: u16 = states[j].value_after_push(c);
            total = total + v;
            j = j + 1;
        }
        if total > best {
            best = total;
        }
        k = k + 1;
    }
    best
}

/// The three answers: parts 1 and 2 give lines.
pub fn solve(input: &[u8]) -> (r: (Vec<u8>, Vec<u8>, u16))
    requires
        lines(input@).len() > 0,
        keys1_fit(input@),
        keys2_fit(input@),
        part3_fits(input@),
    ensures
        r.0@ == pick(input@, false),
        r.1@ == pick(input@, true),
        r.2 == best_sum(lines(input@), 62),
{
    (solve_part1(input), solve_part2(input), solve_part3(input))
}

} // verus!
