//! Plants that grow on a grid. The input holds, for each plant, two lines of
//! tokens: the line above names what grows upwards, the row below holds
//! `left current right` triples. A token `XX` means that nothing grows that way.
//!
//! Every plant starts as one sprout `00`. In each of 100 seasons every sprout turns
//! into a stem and offers three children, to its left, to its right and above it,
//! as its rule says. A cell that is already taken gets nothing; a cell offered
//! several children takes the largest token. From the fifth season on, a plant
//! whose stems harvest less energy than all its cells request stops growing.
//!
//! Part 1 grows each plant alone; part 2 grows them side by side, ten columns
//! apart; part 3 replants, twice, the highest sprout of every column.
use std::collections::{HashMap, HashSet};
use itertools::Itertools;
use vstd::prelude::*;
use crate::text::{lines, ranges_in, ranges_view, trim, words, line_ranges, trim_range, word_ranges};

verus! {

broadcast use vstd::std_specs::hash::group_hash_axioms;

/// A rule entry: the current token, then what grows to its left, above it and to
/// its right.
pub type Entry = (Seq<u8>, Option<Seq<u8>>, Option<Seq<u8>>, Option<Seq<u8>>);

/// What a token grows: to the left, above and to the right.
pub type Triple = (Option<Seq<u8>>, Option<Seq<u8>>, Option<Seq<u8>>);

/// A plant: its sprouts (cell to token), its stems, and whether it has stopped.
pub type Plant = (Map<(int, int), Seq<u8>>, Set<(int, int)>, bool);

/// `a < b` for tokens: byte-wise lexicographic order, as `str` orders them.
pub open spec fn token_lt(a: Seq<u8>, b: Seq<u8>) -> bool
    decreases a.len(),
{
    if a.len() == 0 {
        b.len() > 0
    } else if b.len() == 0 {
        false
    } else if a[0] != b[0] {
        a[0] < b[0]
    } else {
        token_lt(a.drop_first(), b.drop_first())
    }
}

/// No token comes before itself.
pub proof fn lemma_token_lt_irreflexive(a: Seq<u8>)
    ensures
        !token_lt(a, a),
    decreases a.len(),
{
    if a.len() > 0 {
        lemma_token_lt_irreflexive(a.drop_first());
    }
}

/// Two tokens never come before each other.
pub proof fn lemma_token_lt_asymmetric(a: Seq<u8>, b: Seq<u8>)
    ensures
        !(token_lt(a, b) && token_lt(b, a)),
    decreases a.len(),
{
    if a.len() > 0 && b.len() > 0 && a[0] == b[0] {
        lemma_token_lt_asymmetric(a.drop_first(), b.drop_first());
    }
}

/// The token order is transitive.
pub proof fn lemma_token_lt_transitive(a: Seq<u8>, b: Seq<u8>, c: Seq<u8>)
    requires
        token_lt(a, b),
        token_lt(b, c),
    ensures
        token_lt(a, c),
    decreases a.len(),
{
    if a.len() > 0 && b.len() > 0 && c.len() > 0 && a[0] == b[0] && b[0] == c[0] {
        lemma_token_lt_transitive(a.drop_first(), b.drop_first(), c.drop_first());
    }
}

/// Of two different tokens, one comes before the other.
pub proof fn lemma_token_lt_total(a: Seq<u8>, b: Seq<u8>)
    requires
        a != b,
    ensures
        token_lt(a, b) || token_lt(b, a),
    decreases a.len(),
{
    if a.len() == 0 && b.len() == 0 {
        assert(a =~= b);
    }
    if a.len() > 0 && b.len() > 0 && a[0] == b[0] {
        if a.drop_first() == b.drop_first() {
            assert(a =~= seq![a[0]] + a.drop_first());
            assert(b =~= seq![b[0]] + b.drop_first());
        }
        lemma_token_lt_total(a.drop_first(), b.drop_first());
    }
}

/// The larger of two offers; an absent offer loses to any token.
pub open spec fn larger(a: Option<Seq<u8>>, b: Option<Seq<u8>>) -> Option<Seq<u8>> {
    match a {
        None => b,
        Some(x) => match b {
            None => a,
            Some(y) => if token_lt(x, y) {
                b
            } else {
                a
            },
        },
    }
}

/// The larger of two offers does not depend on their order.
pub proof fn lemma_larger_commutes(a: Option<Seq<u8>>, b: Option<Seq<u8>>)
    ensures
        larger(a, b) == larger(b, a),
{
    if a is Some && b is Some {
        let x = a->0;
        let y = b->0;
        lemma_token_lt_asymmetric(x, y);
        if x != y {
            lemma_token_lt_total(x, y);
        }
    }
}

/// Picking the largest of three offers gives the same token whichever pair is
/// compared first, so the order in which a cell's offers are weighed does not matter.
pub proof fn lemma_larger_associates(a: Option<Seq<u8>>, b: Option<Seq<u8>>, c: Option<Seq<u8>>)
    ensures
        larger(larger(a, b), c) == larger(a, larger(b, c)),
{
    if a is Some && b is Some && c is Some {
        let x = a->0;
        let y = b->0;
        let z = c->0;
        lemma_token_lt_asymmetric(x, y);
        lemma_token_lt_asymmetric(y, z);
        lemma_token_lt_asymmetric(x, z);
        if token_lt(x, y) && token_lt(y, z) {
            lemma_token_lt_transitive(x, y, z);
        }
        if token_lt(z, y) && token_lt(y, x) {
            lemma_token_lt_transitive(z, y, x);
        }
        if x != y {
            lemma_token_lt_total(x, y);
        }
        if y != z {
            lemma_token_lt_total(y, z);
        }
        if x != z {
            lemma_token_lt_total(x, z);
        }
        if token_lt(x, y) && token_lt(z, x) {
            lemma_token_lt_transitive(z, x, y);
        }
        if token_lt(y, z) && token_lt(x, y) {
            lemma_token_lt_transitive(x, y, z);
        }
        if token_lt(y, x) && token_lt(z, y) {
            lemma_token_lt_transitive(z, y, x);
        }
        if token_lt(y, z) && token_lt(z, x) {
            lemma_token_lt_transitive(y, z, x);
        }
        if token_lt(x, z) && token_lt(y, x) {
            lemma_token_lt_transitive(y, x, z);
        }
        if token_lt(z, y) && token_lt(x, z) {
            lemma_token_lt_transitive(x, z, y);
        }
    }
}


/// What a plant's entries say `t` grows; a later entry for the same token wins,
/// as when the entries are collected into a map.
pub open spec fn lookup(e: Seq<Entry>, t: Seq<u8>) -> Option<Triple>
    decreases e.len(),
{
    if e.len() == 0 {
        None
    } else if e.last().0 == t {
        Some((e.last().1, e.last().2, e.last().3))
    } else {
        lookup(e.drop_last(), t)
    }
}

/// What the sprout at `q` offers by its rule slot `which` (0 left, 1 above,
/// 2 right); nothing if there is no sprout at `q` or no rule for it.
pub open spec fn offer(e: Seq<Entry>, sp: Map<(int, int), Seq<u8>>, q: (int, int), which: int) -> Option<Seq<u8>> {
    if sp.dom().contains(q) {
        match lookup(e, sp[q]) {
            None => None,
            Some(t) => if which == 0 {
                t.0
            } else if which == 1 {
                t.1
            } else {
                t.2
            },
        }
    } else {
        None
    }
}

/// What cell `p` is offered: the largest of the offers of the sprout to its right
/// (by its left rule), the sprout to its left (by its right rule) and the sprout
/// below it (by its above rule).
pub open spec fn candidate(e: Seq<Entry>, sp: Map<(int, int), Seq<u8>>, p: (int, int)) -> Option<Seq<u8>> {
    larger(
        larger(offer(e, sp, (p.0, p.1 + 1), 0), offer(e, sp, (p.0, p.1 - 1), 2)),
        offer(e, sp, (p.0 - 1, p.1), 1),
    )
}

/// The new sprouts: every cell that is not blocked and is offered a token.
pub open spec fn grown(e: Seq<Entry>, sp: Map<(int, int), Seq<u8>>, blocked: Set<(int, int)>) -> Map<(int, int), Seq<u8>> {
    Map::new(
        |p: (int, int)| !blocked.contains(p) && candidate(e, sp, p) is Some,
        |p: (int, int)| candidate(e, sp, p)->0,
    )
}

/// All sprouts stand on cells whose row plus column leaves remainder `a` by 2.
pub open spec fn same_parity(sp: Map<(int, int), Seq<u8>>, a: int) -> bool {
    forall|q: (int, int)| #[trigger] sp.dom().contains(q) ==> (q.0 + q.1) % 2 == a
}

proof fn lemma_candidate_near(e: Seq<Entry>, sp: Map<(int, int), Seq<u8>>, p: (int, int))
    requires
        candidate(e, sp, p) is Some,
    ensures
        sp.dom().contains((p.0, p.1 + 1)) || sp.dom().contains((p.0, p.1 - 1)) || sp.dom().contains((p.0 - 1, p.1)),
{
}

/// New sprouts grow on the cells of the other parity: if every sprout's row plus
/// column is `a` modulo 2, every new sprout's is `1 - a`.
pub proof fn law_grown_flips_parity(e: Seq<Entry>, sp: Map<(int, int), Seq<u8>>, blocked: Set<(int, int)>, a: int)
    requires
        a == 0 || a == 1,
        same_parity(sp, a),
    ensures
        same_parity(grown(e, sp, blocked), 1 - a),
{
    assert forall|p: (int, int)| #[trigger] grown(e, sp, blocked).dom().contains(p) implies (p.0 + p.1) % 2 == 1 - a by {
        lemma_candidate_near(e, sp, p);
        if sp.dom().contains((p.0, p.1 + 1)) {
            assert((p.0 + (p.1 + 1)) % 2 == a);
        } else if sp.dom().contains((p.0, p.1 - 1)) {
            assert((p.0 + (p.1 - 1)) % 2 == a);
        } else {
            assert(((p.0 - 1) + p.1) % 2 == a);
        }
    }
}

/// Sprouts of one generation never block each other's children: with all sprouts
/// on cells of one parity, blocking any part of the sprouts' own cells besides
/// `others` grows the same new sprouts. So a plant that marks each sprout as a stem
/// as soon as it has grown, in whatever order it takes them, grows as if all of
/// them were blocked from the start.
pub proof fn law_siblings_never_block(e: Seq<Entry>, sp: Map<(int, int), Seq<u8>>, others: Set<(int, int)>, part: Set<(int, int)>, a: int)
    requires
        a == 0 || a == 1,
        same_parity(sp, a),
        part.subset_of(sp.dom()),
    ensures
        grown(e, sp, others.union(part)) == grown(e, sp, others.union(sp.dom())),
{
    let g1 = grown(e, sp, others.union(part));
    let g2 = grown(e, sp, others.union(sp.dom()));
    assert forall|p: (int, int)| candidate(e, sp, p) is Some implies !sp.dom().contains(p) by {
        lemma_candidate_near(e, sp, p);
        if sp.dom().contains(p) {
            assert((p.0 + p.1) % 2 == a);
            if sp.dom().contains((p.0, p.1 + 1)) {
                assert((p.0 + (p.1 + 1)) % 2 == a);
            } else if sp.dom().contains((p.0, p.1 - 1)) {
                assert((p.0 + (p.1 - 1)) % 2 == a);
            } else {
                assert(((p.0 - 1) + p.1) % 2 == a);
            }
        }
    }
    assert(g1.dom() =~= g2.dom());
    assert(g1 =~= g2);
}

/// A plant grown alone keeps all its sprouts on cells of one parity: it starts with
/// one sprout, each season's new sprouts stand on the other parity, and a stopped
/// plant keeps its sprouts. With `law_siblings_never_block`, blocking its children
/// by its stems alone, or by its stems and any of its sprouts, grows the same.
pub proof fn law_lone_plant_sprouts_share_parity(rs: Seq<Seq<Entry>>, x: int, t: int)
    requires
        rs.len() == 1,
        evolve(rs, seq![seedling(x)], t) is Some,
    ensures
        (evolve(rs, seq![seedling(x)], t)->0).len() == 1,
        exists|a: int| (a == 0 || a == 1) && same_parity((evolve(rs, seq![seedling(x)], t)->0)[0].0, a),
    decreases t,
{
    let ps = seq![seedling(x)];
    if t <= 0 {
        let a = (0 + x) % 2;
        assert(same_parity(ps[0].0, a));
    } else {
        law_lone_plant_sprouts_share_parity(rs, x, t - 1);
        let qs = evolve(rs, ps, t - 1)->0;
        let a = choose|a: int| (a == 0 || a == 1) && same_parity(qs[0].0, a);
        let occ = all_cells(qs);
        assert(grow_all(rs, qs, occ, 0) == Some((qs, occ)));
        let pl = qs[0];
        let gs = (grow_all(rs, qs, occ, 1)->0).0;
        let b = if pl.2 {
            a
        } else {
            law_grown_flips_parity(rs[0], pl.0, occ, a);
            1 - a
        };
        assert(gs.len() == 1);
        assert(same_parity(gs[0].0, b));
        let w = wither(gs, t);
        assert(w.len() == 1);
        assert(w[0].0 == gs[0].0);
        assert(evolve(rs, ps, t) == Some(w));
        assert(same_parity(w[0].0, b));
    }
}

/// Every sprout has a rule (a sprout without one cannot grow: there is no answer).
pub open spec fn ready(e: Seq<Entry>, sp: Map<(int, int), Seq<u8>>) -> bool {
    forall|q: (int, int)| #[trigger] sp.dom().contains(q) ==> lookup(e, sp[q]) is Some
}

/// The cells a plant takes: its sprouts and its stems.
pub open spec fn cells(pl: Plant) -> Set<(int, int)> {
    pl.0.dom().union(pl.1)
}

/// The cells all plants take.
pub open spec fn all_cells(ps: Seq<Plant>) -> Set<(int, int)>
    decreases ps.len(),
{
    if ps.len() == 0 {
        Set::empty()
    } else {
        all_cells(ps.drop_last()).union(cells(ps.last()))
    }
}

/// The stems of all plants.
pub open spec fn stem_cells(ps: Seq<Plant>) -> Set<(int, int)>
    decreases ps.len(),
{
    if ps.len() == 0 {
        Set::empty()
    } else {
        stem_cells(ps.drop_last()).union(ps.last().1)
    }
}

/// The first `j` plants grow, in order, each into the cells not yet taken; a
/// stopped plant stays as it is. Returns the plants and the cells taken after.
pub open spec fn grow_all(rs: Seq<Seq<Entry>>, ps: Seq<Plant>, occ: Set<(int, int)>, j: int) -> Option<(Seq<Plant>, Set<(int, int)>)>
    decreases j,
{
    if j <= 0 {
        Some((ps, occ))
    } else {
        match grow_all(rs, ps, occ, j - 1) {
            None => None,
            Some((qs, o)) => {
                let pl = qs[j - 1];
                if pl.2 {
                    Some((qs, o))
                } else if !ready(rs[j - 1], pl.0) {
                    None
                } else {
                    let g = grown(rs[j - 1], pl.0, o);
                    Some((qs.update(j - 1, (g, pl.1.union(pl.0.dom()), false)), o.union(g.dom())))
                }
            },
        }
    }
}

/// How many cells of column `x` in rows `lo + 1 ..= hi` the blockers take.
pub open spec fn shade(blockers: Set<(int, int)>, x: int, lo: int, hi: int) -> nat
    decreases hi - lo,
{
    if hi <= lo {
        0
    } else {
        shade(blockers, x, lo, hi - 1) + if blockers.contains((hi, x)) {
            1nat
        } else {
            0nat
        }
    }
}

/// The energy of the stem at `p` in season `age`: its height plus one, at most 10,
/// times 3 less the stems above it (at most 3).
pub open spec fn stem_energy(p: (int, int), blockers: Set<(int, int)>, age: int) -> int {
    let h = if p.0 + 1 < 10 {
        p.0 + 1
    } else {
        10
    };
    let s = shade(blockers, p.1, p.0, age);
    let c = if s < 3 {
        s as int
    } else {
        3
    };
    h * (3 - c)
}

/// Adds one stem's energy to a running total.
pub open spec fn add_energy(blockers: Set<(int, int)>, age: int) -> spec_fn(int, (int, int)) -> int {
    |acc: int, p: (int, int)| acc + stem_energy(p, blockers, age)
}

/// The energy the stems harvest: the sum over the stems.
pub open spec fn harvest(stems: Set<(int, int)>, blockers: Set<(int, int)>, age: int) -> int {
    stems.fold(0int, add_energy(blockers, age))
}

/// The energy a plant requests: 3 for each of its cells.
pub open spec fn request(pl: Plant) -> int {
    (3 * (pl.0.dom().len() + pl.1.len())) as int
}

/// From season 5 on, a plant stops when its stems, shaded by the stems of all
/// plants, harvest less than it requests.
pub open spec fn wither(ps: Seq<Plant>, age: int) -> Seq<Plant> {
    if age >= 5 {
        let flat = stem_cells(ps);
        Seq::new(ps.len(), |i: int| (ps[i].0, ps[i].1, ps[i].2 || harvest(ps[i].1, flat, age) < request(ps[i])))
    } else {
        ps
    }
}

/// One season: every plant grows, then the plants short of energy stop.
pub open spec fn season(rs: Seq<Seq<Entry>>, ps: Seq<Plant>, age: int) -> Option<Seq<Plant>> {
    match grow_all(rs, ps, all_cells(ps), ps.len() as int) {
        None => None,
        Some((qs, _o)) => Some(wither(qs, age)),
    }
}

/// The plants after `t` seasons; `None` if a sprout had no rule.
pub open spec fn evolve(rs: Seq<Seq<Entry>>, ps: Seq<Plant>, t: int) -> Option<Seq<Plant>>
    decreases t,
{
    if t <= 0 {
        Some(ps)
    } else {
        match evolve(rs, ps, t - 1) {
            None => None,
            Some(qs) => season(rs, qs, t),
        }
    }
}

/// The number of cells all plants take: sprouts and stems.
pub open spec fn count(ps: Seq<Plant>) -> int
    decreases ps.len(),
{
    if ps.len() == 0 {
        0
    } else {
        count(ps.drop_last()) + ps.last().0.dom().len() + ps.last().1.len()
    }
}

/// The root token `00`.
pub open spec fn root() -> Seq<u8> {
    seq![48u8, 48u8]
}

/// A plant that is one sprout `00` at row 0, column `x`.
pub open spec fn seedling(x: int) -> Plant {
    (Map::empty().insert((0int, x), root()), Set::empty(), false)
}


/// A rule slot: the token, or nothing where the input says `XX`.
pub open spec fn slot(t: Seq<u8>) -> Option<Seq<u8>> {
    if t == seq![88u8, 88u8] {
        None
    } else {
        Some(t)
    }
}

/// The lines that hold more than white space.
pub open spec fn nonblank(ls: Seq<Seq<u8>>) -> Seq<Seq<u8>>
    decreases ls.len(),
{
    if ls.len() == 0 {
        ls
    } else if trim(ls.last()).len() > 0 {
        nonblank(ls.drop_last()).push(ls.last())
    } else {
        nonblank(ls.drop_last())
    }
}

/// A plant's entries from its two lines: the row's words taken three at a time,
/// `left current right`, each with the word of the line above at the same index.
pub open spec fn entries_of(above: Seq<u8>, row: Seq<u8>) -> Seq<Entry> {
    let a = words(above);
    let w = words(row);
    let n = if w.len() / 3 < a.len() {
        w.len() / 3
    } else {
        a.len()
    };
    Seq::new(n, |j: int| (w[3 * j + 1], slot(w[3 * j]), slot(a[j]), slot(w[3 * j + 2])))
}

/// The entries of every plant: the lines that are not blank, two at a time.
pub open spec fn plant_entries(s: Seq<u8>) -> Seq<Seq<Entry>> {
    let k = nonblank(lines(s));
    Seq::new(k.len() / 2, |i: int| entries_of(k[2 * i], k[2 * i + 1]))
}

/// The bytes of `s` that a range selects.
pub open spec fn span_view(s: Seq<u8>, sp: (usize, usize)) -> Seq<u8> {
    s.subrange(sp.0 as int, sp.1 as int)
}

/// An optional range's bytes.
pub open spec fn opt_view(s: Seq<u8>, o: Option<(usize, usize)>) -> Option<Seq<u8>> {
    match o {
        None => None,
        Some(sp) => Some(span_view(s, sp)),
    }
}

/// An entry given by ranges of `s`.
pub open spec fn span_entry_view(s: Seq<u8>, e: ((usize, usize), Option<(usize, usize)>, Option<(usize, usize)>, Option<(usize, usize)>)) -> Entry {
    (span_view(s, e.0), opt_view(s, e.1), opt_view(s, e.2), opt_view(s, e.3))
}

/// Entries given by ranges of `s`.
pub open spec fn entries_view(s: Seq<u8>, v: Seq<((usize, usize), Option<(usize, usize)>, Option<(usize, usize)>, Option<(usize, usize)>)>) -> Seq<Entry> {
    v.map_values(|e: ((usize, usize), Option<(usize, usize)>, Option<(usize, usize)>, Option<(usize, usize)>)| span_entry_view(s, e))
}

/// Ranges that lie in `s`.
pub open spec fn span_ok(s: Seq<u8>, sp: (usize, usize)) -> bool {
    sp.0 <= sp.1 <= s.len()
}

pub open spec fn opt_span_ok(s: Seq<u8>, o: Option<(usize, usize)>) -> bool {
    match o {
        None => true,
        Some(sp) => span_ok(s, sp),
    }
}

/// Calls `Itertools::tuples` to take the ranges two at a time; an odd last one
/// is dropped, as the crate's documentation and source say.
#[verifier::external_body]
fn pairs_of(v: Vec<(usize, usize)>) -> (r: Vec<((usize, usize), (usize, usize))>)
    ensures
        r@.len() == v@.len() / 2,
        forall|i: int| 0 <= i < r@.len() ==> #[trigger] r@[i] == (v@[2 * i], v@[2 * i + 1]),
{
    v.into_iter().tuples().collect()
}

/// Calls `Itertools::tuples` to take the ranges three at a time; one or two left
/// at the end are dropped, as the crate's documentation and source say.
#[verifier::external_body]
fn triples_of(v: Vec<(usize, usize)>) -> (r: Vec<((usize, usize), (usize, usize), (usize, usize))>)
    ensures
        r@.len() == v@.len() / 3,
        forall|i: int| 0 <= i < r@.len() ==> #[trigger] r@[i] == (v@[3 * i], v@[3 * i + 1], v@[3 * i + 2]),
{
    v.into_iter().tuples().collect()
}

/// The slot a word gives: `None` for `XX`.
fn slot_span(s: &[u8], sp: (usize, usize)) -> (r: Option<(usize, usize)>)
    requires
        span_ok(s@, sp),
    ensures
        opt_view(s@, r) == slot(span_view(s@, sp)),
        opt_span_ok(s@, r),
{
    if sp.1 - sp.0 == 2 && s[sp.0] == 88 && s[sp.0 + 1] == 88 {
        proof {
            assert(span_view(s@, sp) =~= seq![88u8, 88u8]);
        }
        None
    } else {
        proof {
            if span_view(s@, sp) == seq![88u8, 88u8] {
                assert(span_view(s@, sp).len() == 2);
                assert(span_view(s@, sp)[0] == s@[sp.0 as int]);
                assert(span_view(s@, sp)[1] == s@[sp.0 + 1]);
            }
        }
        Some(sp)
    }
}

/// The entries of every plant, given by ranges of the input.
fn parse_spans(input: &[u8]) -> (r: Vec<Vec<((usize, usize), Option<(usize, usize)>, Option<(usize, usize)>, Option<(usize, usize)>)>>)
    ensures
        r@.len() == plant_entries(input@).len(),
        forall|i: int| 0 <= i < r@.len() ==> #[trigger] entries_view(input@, r@[i]@) == plant_entries(input@)[i],
        forall|i: int, j: int| 0 <= i < r@.len() && 0 <= j < r@[i]@.len() ==> {
            let e = #[trigger] r@[i]@[j];
            span_ok(input@, e.0) && opt_span_ok(input@, e.1) && opt_span_ok(input@, e.2) && opt_span_ok(input@, e.3)
        },
{
    let ranges = line_ranges(input);
    let ghost ls = lines(input@);
    let mut kept: Vec<(usize, usize)> = Vec::new();
    let mut i: usize = 0;
    while i < ranges.len()
        invariant
            i <= ranges@.len(),
            ls == lines(input@),
            ranges_in(ranges@, input@.len()),
            ranges_view(input@, ranges@) == ls,
            ranges_in(kept@, input@.len()),
            ranges_view(input@, kept@) == nonblank(ls.take(i as int)),
        decreases ranges@.len() - i,
    {
        let (a, e) = ranges[i];
        proof {
            assert(ranges@[i as int].0 <= ranges@[i as int].1 <= input@.len());
        }
        let (lo, hi) = trim_range(input, a, e);
        proof {
            assert(ls.take(i + 1).drop_last() =~= ls.take(i as int));
            assert(ls.take(i + 1).last() == ls[i as int]);
            assert(ls[i as int] == input@.subrange(a as int, e as int));
        }
        if lo < hi {
            let ghost old_k = kept@;
            kept.push((a, e));
            proof {
                assert(ranges_view(input@, kept@) =~= ranges_view(input@, old_k).push(input@.subrange(a as int, e as int)));
                assert forall|k: int| 0 <= k < kept@.len() implies #[trigger] kept@[k].0 <= kept@[k].1 && kept@[k].1 <= input@.len() by {
                    if k < old_k.len() {
                        assert(kept@[k] == old_k[k]);
                    } else {
                        assert(kept@[k] == (a, e));
                        assert(a <= e && e <= input@.len());
                    }
                }
            }
        }
        i = i + 1;
    }
    proof {
        assert(ls.take(ranges@.len() as int) =~= ls);
    }
    let ghost k = nonblank(ls);
    let ghost kv = kept@;
    let pairs = pairs_of(kept);
    proof {
        assert forall|q: int| 0 <= q < pairs@.len() implies {
            &&& span_ok(input@, (#[trigger] pairs@[q]).0)
            &&& span_ok(input@, pairs@[q].1)
            &&& span_view(input@, pairs@[q].0) == k[2 * q]
            &&& span_view(input@, pairs@[q].1) == k[2 * q + 1]
        } by {
            assert(pairs@[q] == (kv[2 * q], kv[2 * q + 1]));
            assert(ranges_view(input@, kv)[2 * q] == k[2 * q]);
            assert(ranges_view(input@, kv)[2 * q + 1] == k[2 * q + 1]);
            assert(kv[2 * q].0 <= kv[2 * q].1 && kv[2 * q].1 <= input@.len());
            assert(kv[2 * q + 1].0 <= kv[2 * q + 1].1 && kv[2 * q + 1].1 <= input@.len());
        }
    }
    let mut r: Vec<Vec<((usize, usize), Option<(usize, usize)>, Option<(usize, usize)>, Option<(usize, usize)>)>> = Vec::new();
    let mut p: usize = 0;
    while p < pairs.len()
        invariant
            p <= pairs@.len() == k.len() / 2,
            k == nonblank(lines(input@)),
            forall|q: int| 0 <= q < pairs@.len() ==> {
                &&& span_ok(input@, (#[trigger] pairs@[q]).0)
                &&& span_ok(input@, pairs@[q].1)
                &&& span_view(input@, pairs@[q].0) == k[2 * q]
                &&& span_view(input@, pairs@[q].1) == k[2 * q + 1]
            },
            r@.len() == p,
            forall|q: int| 0 <= q < p ==> #[trigger] entries_view(input@, r@[q]@) == plant_entries(input@)[q],
            forall|q: int, j: int| 0 <= q < p && 0 <= j < r@[q]@.len() ==> {
                let e = #[trigger] r@[q]@[j];
                span_ok(input@, e.0) && opt_span_ok(input@, e.1) && opt_span_ok(input@, e.2) && opt_span_ok(input@, e.3)
            },
        decreases pairs@.len() - p,
    {
        let (above, row) = pairs[p];
        let above_words = word_ranges(input, above.0, above.1);
        let row_words = word_ranges(input, row.0, row.1);
        let ghost aw = words(input@.subrange(above.0 as int, above.1 as int));
        let ghost rw = words(input@.subrange(row.0 as int, row.1 as int));
        let triples = triples_of(row_words);
        let mut entries: Vec<((usize, usize), Option<(usize, usize)>, Option<(usize, usize)>, Option<(usize, usize)>)> = Vec::new();
        let mut j: usize = 0;
        let ghost want = entries_of(k[2 * p], k[2 * p + 1]);
        proof {
            assert(plant_entries(input@)[p as int] == want);
        }
        while j < triples.len() && j < above_words.len()
            invariant
                j <= triples@.len() == rw.len() / 3,
                j <= above_words@.len() == aw.len(),
                aw == words(input@.subrange(above.0 as int, above.1 as int)),
                rw == words(input@.subrange(row.0 as int, row.1 as int)),
                span_view(input@, above) == k[2 * p],
                span_view(input@, row) == k[2 * p + 1],
                span_ok(input@, above),
                span_ok(input@, row),
                want == entries_of(k[2 * p], k[2 * p + 1]),
                forall|q: int| 0 <= q < above_words@.len() ==> above.0 <= #[trigger] above_words@[q].0 <= above_words@[q].1 <= above.1,
                ranges_view(input@, above_words@) == aw,
                forall|q: int| 0 <= q < triples@.len() ==> {
                    &&& span_ok(input@, (#[trigger] triples@[q]).0)
                    &&& span_ok(input@, triples@[q].1)
                    &&& span_ok(input@, triples@[q].2)
                    &&& span_view(input@, triples@[q].0) == rw[3 * q]
                    &&& span_view(input@, triples@[q].1) == rw[3 * q + 1]
                    &&& span_view(input@, triples@[q].2) == rw[3 * q + 2]
                },
                entries@.len() == j,
                forall|q: int| 0 <= q < j ==> #[trigger] span_entry_view(input@, entries@[q]) == want[q],
                forall|q: int| 0 <= q < j ==> {
                    let e = #[trigger] entries@[q];
                    span_ok(input@, e.0) && opt_span_ok(input@, e.1) && opt_span_ok(input@, e.2) && opt_span_ok(input@, e.3)
                },
            decreases triples@.len() - j,
        {
            let (l, c, rr) = triples[j];
            let a = above_words[j];
            proof {
                assert(span_view(input@, a) == aw[j as int]);
                assert(above.0 <= a.0 <= a.1 <= above.1);
            }
            let e = (c, slot_span(input, l), slot_span(input, a), slot_span(input, rr));
            let ghost old_e = entries@;
            entries.push(e);
            proof {
                assert(span_entry_view(input@, e) == want[j as int]);
                assert forall|q: int| 0 <= q < j + 1 implies #[trigger] span_entry_view(input@, entries@[q]) == want[q] by {
                    if q < j {
                        assert(entries@[q] == old_e[q]);
                    }
                }
                assert forall|q: int| 0 <= q < j + 1 implies {
                    let e = #[trigger] entries@[q];
                    span_ok(input@, e.0) && opt_span_ok(input@, e.1) && opt_span_ok(input@, e.2) && opt_span_ok(input@, e.3)
                } by {
                    if q < j {
                        assert(entries@[q] == old_e[q]);
                    }
                }
            }
            j = j + 1;
        }
        proof {
            assert(want.len() == j);
            assert(entries_view(input@, entries@) =~= want);
        }
        let ghost old_r = r@;
        r.push(entries);
        proof {
            assert forall|q: int| 0 <= q < p + 1 implies #[trigger] entries_view(input@, r@[q]@) == plant_entries(input@)[q] by {
                if q < p {
                    assert(r@[q] == old_r[q]);
                }
            }
            assert forall|q: int, j: int| 0 <= q < p + 1 && 0 <= j < r@[q]@.len() implies {
                let e = #[trigger] r@[q]@[j];
                span_ok(input@, e.0) && opt_span_ok(input@, e.1) && opt_span_ok(input@, e.2) && opt_span_ok(input@, e.3)
            } by {
                if q < p {
                    assert(r@[q] == old_r[q]);
                }
            }
        }
        p = p + 1;
    }
    r
}


/// The tokens of a token table.
pub open spec fn names_view(names: Seq<Vec<u8>>) -> Seq<Seq<u8>> {
    names.map_values(|v: Vec<u8>| v@)
}

/// No token occurs twice.
pub open spec fn distinct(ns: Seq<Seq<u8>>) -> bool {
    forall|i: int, j: int| 0 <= i < ns.len() && 0 <= j < ns.len() && i != j ==> ns[i] != ns[j]
}

/// The token of an optional token number.
pub open spec fn opt_name(ns: Seq<Seq<u8>>, o: Option<usize>) -> Option<Seq<u8>> {
    match o {
        None => None,
        Some(id) => Some(ns[id as int]),
    }
}

/// A number below `n`, where there is one.
pub open spec fn opt_below(o: Option<usize>, n: nat) -> bool {
    match o {
        None => true,
        Some(id) => id < n,
    }
}

/// The tokens of a triple of token numbers.
pub open spec fn triple_view(ns: Seq<Seq<u8>>, t: (Option<usize>, Option<usize>, Option<usize>)) -> Triple {
    (opt_name(ns, t.0), opt_name(ns, t.1), opt_name(ns, t.2))
}

/// A rule table, indexed by token number, agrees with a plant's entries.
pub open spec fn table_ok(t: Seq<Option<(Option<usize>, Option<usize>, Option<usize>)>>, ns: Seq<Seq<u8>>, e: Seq<Entry>) -> bool {
    &&& t.len() == ns.len()
    &&& forall|id: int| 0 <= id < t.len() ==> match #[trigger] t[id] {
        None => lookup(e, ns[id]) is None,
        Some(tr) => opt_below(tr.0, ns.len()) && opt_below(tr.1, ns.len()) && opt_below(tr.2, ns.len()) && lookup(e, ns[id]) == Some(triple_view(ns, tr)),
    }
}

/// The parsed input: the distinct tokens, `00` first, and a rule table for each plant.
pub struct Garden {
    pub names: Vec<Vec<u8>>,
    pub tables: Vec<Vec<Option<(Option<usize>, Option<usize>, Option<usize>)>>>,
}

/// The garden holds the tokens and the rules of input `s`.
pub open spec fn garden_ok(g: &Garden, s: Seq<u8>) -> bool {
    let ns = names_view(g.names@);
    &&& distinct(ns)
    &&& ns.len() > 0
    &&& ns[0] == root()
    &&& g.tables@.len() == plant_entries(s).len()
    &&& forall|i: int| 0 <= i < g.tables@.len() ==> table_ok(#[trigger] g.tables@[i]@, ns, plant_entries(s)[i])
}

/// Whether two byte strings are equal.
fn same_bytes(a: &[u8], b: &[u8]) -> (r: bool)
    ensures
        r == (a@ == b@),
{
    if a.len() != b.len() {
        return false;
    }
    let mut i: usize = 0;
    while i < a.len()
        invariant
            a@.len() == b@.len(),
            i <= a@.len(),
            forall|k: int| 0 <= k < i ==> a@[k] == b@[k],
        decreases a@.len() - i,
    {
        if a[i] != b[i] {
            return false;
        }
        i = i + 1;
    }
    proof {
        assert(a@ =~= b@);
    }
    true
}

/// The number of the token `s[sp]`, added to the table if it is new.
fn intern(names: &mut Vec<Vec<u8>>, s: &[u8], sp: (usize, usize)) -> (id: usize)
    requires
        span_ok(s@, sp),
        distinct(names_view(old(names)@)),
    ensures
        distinct(names_view(final(names)@)),
        id < final(names)@.len(),
        names_view(final(names)@)[id as int] == span_view(s@, sp),
        final(names)@.len() >= old(names)@.len(),
        forall|k: int| 0 <= k < old(names)@.len() ==> #[trigger] final(names)@[k]@ == old(names)@[k]@,
{
    let tok = vstd::slice::slice_subrange(s, sp.0, sp.1);
    let n: usize = names.len();
    let mut k: usize = 0;
    while k < n
        invariant
            n == names@.len(),
            k <= n,
            tok@ == span_view(s@, sp),
            distinct(names_view(names@)),
            forall|q: int| 0 <= q < k ==> names@[q]@ != tok@,
        decreases n - k,
    {
        if same_bytes(names[k].as_slice(), tok) {
            return k;
        }
        k = k + 1;
    }
    let ghost old_names = names@;
    names.push(vstd::slice::slice_to_vec(tok));
    proof {
        let ns = names_view(names@);
        assert forall|i: int, j: int| 0 <= i < ns.len() && 0 <= j < ns.len() && i != j implies ns[i] != ns[j] by {
            if i < n && j < n {
                assert(ns[i] == names_view(old_names)[i]);
                assert(ns[j] == names_view(old_names)[j]);
            }
        }
    }
    n
}

/// The number of an optional token.
fn intern_opt(names: &mut Vec<Vec<u8>>, s: &[u8], o: Option<(usize, usize)>) -> (id: Option<usize>)
    requires
        opt_span_ok(s@, o),
        distinct(names_view(old(names)@)),
    ensures
        distinct(names_view(final(names)@)),
        opt_below(id, final(names)@.len()),
        opt_name(names_view(final(names)@), id) == opt_view(s@, o),
        final(names)@.len() >= old(names)@.len(),
        forall|k: int| 0 <= k < old(names)@.len() ==> #[trigger] final(names)@[k]@ == old(names)@[k]@,
{
    match o {
        None => None,
        Some(sp) => Some(intern(names, s, sp)),
    }
}

/// The entries of a plant, given by token numbers.
pub open spec fn id_entries_view(ns: Seq<Seq<u8>>, v: Seq<(usize, Option<usize>, Option<usize>, Option<usize>)>) -> Seq<Entry> {
    v.map_values(|e: (usize, Option<usize>, Option<usize>, Option<usize>)| (ns[e.0 as int], opt_name(ns, e.1), opt_name(ns, e.2), opt_name(ns, e.3)))
}

/// Entries whose token numbers are below `n`.
pub open spec fn ids_ok(v: Seq<(usize, Option<usize>, Option<usize>, Option<usize>)>, n: nat) -> bool {
    forall|j: int| 0 <= j < v.len() ==> {
        let e = #[trigger] v[j];
        e.0 < n && opt_below(e.1, n) && opt_below(e.2, n) && opt_below(e.3, n)
    }
}

/// The rule table of one plant: for each token number, what its last entry says.
fn rule_table(n: usize, es: &Vec<(usize, Option<usize>, Option<usize>, Option<usize>)>, Ghost(ns): Ghost<Seq<Seq<u8>>>) -> (t: Vec<Option<(Option<usize>, Option<usize>, Option<usize>)>>)
    requires
        ns.len() == n,
        distinct(ns),
        ids_ok(es@, n as nat),
    ensures
        table_ok(t@, ns, id_entries_view(ns, es@)),
{
    let mut t: Vec<Option<(Option<usize>, Option<usize>, Option<usize>)>> = Vec::new();
    let mut q: usize = 0;
    while q < n
        invariant
            q <= n,
            t@.len() == q,
            forall|id: int| 0 <= id < q ==> t@[id] is None,
        decreases n - q,
    {
        t.push(None);
        q = q + 1;
    }
    let ghost ev = id_entries_view(ns, es@);
    let mut j: usize = 0;
    while j < es.len()
        invariant
            j <= es@.len(),
            ns.len() == n,
            distinct(ns),
            ids_ok(es@, n as nat),
            ev == id_entries_view(ns, es@),
            table_ok(t@, ns, ev.take(j as int)),
        decreases es@.len() - j,
    {
        let (c, l, a, r) = es[j];
        proof {
            assert(ids_ok(es@, n as nat));
            assert(es@[j as int].0 < n);
        }
        let ghost old_t = t@;
        t.set(c, Some((l, a, r)));
        proof {
            let pre = ev.take(j as int);
            let now = ev.take(j + 1);
            assert(now.drop_last() =~= pre);
            assert(now.last() == ev[j as int]);
            assert forall|id: int| 0 <= id < t@.len() implies match #[trigger] t@[id] {
                None => lookup(now, ns[id]) is None,
                Some(tr) => opt_below(tr.0, ns.len()) && opt_below(tr.1, ns.len()) && opt_below(tr.2, ns.len()) && lookup(now, ns[id]) == Some(triple_view(ns, tr)),
            } by {
                if id == c {
                } else {
                    assert(ns[id] != ns[c as int]);
                    assert(t@[id] == old_t[id]);
                }
            }
        }
        j = j + 1;
    }
    proof {
        assert(ev.take(es@.len() as int) =~= ev);
    }
    t
}

/// Reads the plants' rules: the tokens get numbers, `00` first, and each plant a
/// table from token number to what that token grows.
pub fn parse_input(input: &[u8]) -> (g: Garden)
    ensures
        garden_ok(&g, input@),
{
    let spans = parse_spans(input);
    let mut root_name: Vec<u8> = Vec::new();
    root_name.push(48);
    root_name.push(48);
    let mut names: Vec<Vec<u8>> = Vec::new();
    names.push(root_name);
    proof {
        assert(names_view(names@)[0] =~= root());
    }
    let ghost pe = plant_entries(input@);
    let mut ids: Vec<Vec<(usize, Option<usize>, Option<usize>, Option<usize>)>> = Vec::new();
    let mut i: usize = 0;
    while i < spans.len()
        invariant
            i <= spans@.len() == pe.len(),
            pe == plant_entries(input@),
            forall|q: int| 0 <= q < spans@.len() ==> #[trigger] entries_view(input@, spans@[q]@) == pe[q],
            forall|q: int, j: int| 0 <= q < spans@.len() && 0 <= j < spans@[q]@.len() ==> {
                let e = #[trigger] spans@[q]@[j];
                span_ok(input@, e.0) && opt_span_ok(input@, e.1) && opt_span_ok(input@, e.2) && opt_span_ok(input@, e.3)
            },
            distinct(names_view(names@)),
            names@.len() > 0,
            names_view(names@)[0] == root(),
            ids@.len() == i,
            forall|q: int| 0 <= q < i ==> ids_ok(#[trigger] ids@[q]@, names@.len()),
            forall|q: int| 0 <= q < i ==> id_entries_view(names_view(names@), #[trigger] ids@[q]@) == pe[q],
        decreases spans@.len() - i,
    {
        let mut es: Vec<(usize, Option<usize>, Option<usize>, Option<usize>)> = Vec::new();
        let mut j: usize = 0;
        let ghost start_names = names@;
        while j < spans[i].len()
            invariant
                i < spans@.len(),
                j <= spans@[i as int]@.len(),
                forall|q: int, j: int| 0 <= q < spans@.len() && 0 <= j < spans@[q]@.len() ==> {
                    let e = #[trigger] spans@[q]@[j];
                    span_ok(input@, e.0) && opt_span_ok(input@, e.1) && opt_span_ok(input@, e.2) && opt_span_ok(input@, e.3)
                },
                distinct(names_view(names@)),
                names@.len() >= start_names.len(),
                forall|k: int| 0 <= k < start_names.len() ==> #[trigger] names@[k]@ == start_names[k]@,
                es@.len() == j,
                ids_ok(es@, names@.len()),
                id_entries_view(names_view(names@), es@) == entries_view(input@, spans@[i as int]@).take(j as int),
            decreases spans@[i as int]@.len() - j,
        {
            let e = spans[i][j];
            proof {
                assert(spans@[i as int]@[j as int] == e);
            }
            let ghost n0 = names@;
            let c = intern(&mut names, input, e.0);
            let l = intern_opt(&mut names, input, e.1);
            let a = intern_opt(&mut names, input, e.2);
            let r = intern_opt(&mut names, input, e.3);
            let ghost old_es = es@;
            es.push((c, l, a, r));
            proof {
                let ns = names_view(names@);
                let ns0 = names_view(n0);
                assert forall|k: int| 0 <= k < n0.len() implies #[trigger] ns[k] == ns0[k] by {
                    assert(names@[k]@ == n0[k]@);
                }
                assert(ids_ok(es@, names@.len())) by {
                    assert forall|q: int| 0 <= q < es@.len() implies {
                        let e = #[trigger] es@[q];
                        e.0 < names@.len() && opt_below(e.1, names@.len()) && opt_below(e.2, names@.len()) && opt_below(e.3, names@.len())
                    } by {
                        if q < j {
                            assert(es@[q] == old_es[q]);
                        }
                    }
                }
                let want = entries_view(input@, spans@[i as int]@).take(j + 1);
                assert forall|q: int| 0 <= q < es@.len() implies #[trigger] id_entries_view(ns, es@)[q] == want[q] by {
                    if q < j {
                        assert(es@[q] == old_es[q]);
                        assert(id_entries_view(ns0, old_es)[q] == want[q]);
                        let x = old_es[q];
                        assert(x.0 < n0.len());
                        assert(opt_name(ns, x.1) == opt_name(ns0, x.1));
                        assert(opt_name(ns, x.2) == opt_name(ns0, x.2));
                        assert(opt_name(ns, x.3) == opt_name(ns0, x.3));
                    }
                }
                assert(id_entries_view(ns, es@) =~= want);
                assert forall|k: int| 0 <= k < start_names.len() implies #[trigger] names@[k]@ == start_names[k]@ by {
                    assert(names@[k]@ == n0[k]@);
                }
            }
            j = j + 1;
        }
        proof {
            assert(entries_view(input@, spans@[i as int]@).take(j as int) =~= entries_view(input@, spans@[i as int]@));
        }
        let ghost old_ids = ids@;
        ids.push(es);
        proof {
            let ns = names_view(names@);
            let ns0 = names_view(start_names);
            assert forall|q: int| 0 <= q < i + 1 implies ids_ok(#[trigger] ids@[q]@, names@.len()) by {
                if q < i {
                    assert(ids@[q] == old_ids[q]);
                }
            }
            assert forall|q: int| 0 <= q < i + 1 implies id_entries_view(ns, #[trigger] ids@[q]@) == pe[q] by {
                if q < i {
                    assert(ids@[q] == old_ids[q]);
                    let v = old_ids[q]@;
                    assert(ids_ok(v, start_names.len()));
                    assert forall|x: int| 0 <= x < v.len() implies #[trigger] id_entries_view(ns, v)[x] == id_entries_view(ns0, v)[x] by {
                        let e = v[x];
                        assert(e.0 < start_names.len());
                        assert(names@[e.0 as int]@ == start_names[e.0 as int]@);
                        if e.1 is Some {
                            assert(names@[e.1->0 as int]@ == start_names[e.1->0 as int]@);
                        }
                        if e.2 is Some {
                            assert(names@[e.2->0 as int]@ == start_names[e.2->0 as int]@);
                        }
                        if e.3 is Some {
                            assert(names@[e.3->0 as int]@ == start_names[e.3->0 as int]@);
                        }
                    }
                    assert(id_entries_view(ns, v) =~= id_entries_view(ns0, v));
                }
            }
            assert(ns[0] == names_view(start_names)[0]) by {
                assert(names@[0]@ == start_names[0]@);
            }
        }
        i = i + 1;
    }
    let n: usize = names.len();
    let ghost ns = names_view(names@);
    let mut tables: Vec<Vec<Option<(Option<usize>, Option<usize>, Option<usize>)>>> = Vec::new();
    let mut q: usize = 0;
    while q < ids.len()
        invariant
            q <= ids@.len() == pe.len(),
            pe == plant_entries(input@),
            n == names@.len(),
            ns == names_view(names@),
            distinct(ns),
            forall|x: int| 0 <= x < ids@.len() ==> ids_ok(#[trigger] ids@[x]@, names@.len()),
            forall|x: int| 0 <= x < ids@.len() ==> id_entries_view(ns, #[trigger] ids@[x]@) == pe[x],
            tables@.len() == q,
            forall|x: int| 0 <= x < q ==> table_ok(#[trigger] tables@[x]@, ns, pe[x]),
        decreases ids@.len() - q,
    {
        let t = rule_table(n, &ids[q], Ghost(ns));
        let ghost old_t = tables@;
        tables.push(t);
        proof {
            assert forall|x: int| 0 <= x < q + 1 implies table_ok(#[trigger] tables@[x]@, ns, pe[x]) by {
                if x < q {
                    assert(tables@[x] == old_t[x]);
                }
            }
        }
        q = q + 1;
    }
    Garden { names, tables }
}


/// Cells whose row fits a byte and whose column fits an `i64`.
pub open spec fn in_range(p: (int, int)) -> bool {
    0 <= p.0 < 256 && i64::MIN <= p.1 <= i64::MAX
}

/// The key of a cell in a hash set: column and row packed in one number.
pub open spec fn cell_key(p: (int, int)) -> u128 {
    ((p.1 - i64::MIN) * 256 + p.0) as u128
}

proof fn lemma_cell_key_injective(p: (int, int), q: (int, int))
    requires
        in_range(p),
        in_range(q),
        cell_key(p) == cell_key(q),
    ensures
        p == q,
{
    assert(0 <= (p.1 - i64::MIN) * 256 + p.0 <= u128::MAX);
    assert(0 <= (q.1 - i64::MIN) * 256 + q.0 <= u128::MAX);
}

/// A hash set of keys holds exactly the keys of a set of cells in range.
pub open spec fn mirrors(h: Set<u128>, s: Set<(int, int)>) -> bool {
    &&& forall|p: (int, int)| #[trigger] s.contains(p) ==> in_range(p)
    &&& forall|p: (int, int)| in_range(p) ==> (#[trigger] h.contains(cell_key(p)) <==> s.contains(p))
}

proof fn lemma_mirrors_insert(h: Set<u128>, s: Set<(int, int)>, p: (int, int))
    requires
        mirrors(h, s),
        in_range(p),
    ensures
        mirrors(h.insert(cell_key(p)), s.insert(p)),
{
    assert forall|q: (int, int)| in_range(q) implies (#[trigger] h.insert(cell_key(p)).contains(cell_key(q)) <==> s.insert(p).contains(q)) by {
        if cell_key(q) == cell_key(p) {
            lemma_cell_key_injective(p, q);
        }
    }
}

/// The key of the cell at row `y`, column `x`.
fn key_of(y: i64, x: i64) -> (k: u128)
    requires
        0 <= y < 256,
    ensures
        k == cell_key((y as int, x as int)),
{
    let c: i128 = x as i128 - (i64::MIN as i128);
    (c as u128) * 256 + (y as u128)
}

/// The cell of a sprout.
pub open spec fn pos3(e: (i64, i64, usize)) -> (int, int) {
    (e.0 as int, e.1 as int)
}

/// The sprouts of a list, cell to token.
pub open spec fn sprout_map(l: Seq<(i64, i64, usize)>, ns: Seq<Seq<u8>>) -> Map<(int, int), Seq<u8>>
    decreases l.len(),
{
    if l.len() == 0 {
        Map::empty()
    } else {
        sprout_map(l.drop_last(), ns).insert(pos3(l.last()), ns[l.last().2 as int])
    }
}

/// No cell occurs twice in the list.
pub open spec fn apart3(l: Seq<(i64, i64, usize)>) -> bool {
    forall|i: int, j: int| 0 <= i < l.len() && 0 <= j < l.len() && i != j ==> pos3(l[i]) != pos3(l[j])
}

/// The stems of a list.
pub open spec fn stem_set(l: Seq<(i64, i64)>) -> Set<(int, int)>
    decreases l.len(),
{
    if l.len() == 0 {
        Set::empty()
    } else {
        stem_set(l.drop_last()).insert((l.last().0 as int, l.last().1 as int))
    }
}

/// No cell occurs twice in the list.
pub open spec fn apart2(l: Seq<(i64, i64)>) -> bool {
    forall|i: int, j: int| 0 <= i < l.len() && 0 <= j < l.len() && i != j ==> l[i] != l[j]
}

proof fn lemma_sprout_map(l: Seq<(i64, i64, usize)>, ns: Seq<Seq<u8>>)
    requires
        apart3(l),
    ensures
        sprout_map(l, ns).dom().finite(),
        sprout_map(l, ns).dom().len() == l.len(),
        forall|p: (int, int)| #[trigger] sprout_map(l, ns).dom().contains(p) <==> exists|k: int| 0 <= k < l.len() && pos3(l[k]) == p,
        forall|k: int| 0 <= k < l.len() ==> #[trigger] sprout_map(l, ns)[pos3(l[k])] == ns[l[k].2 as int],
    decreases l.len(),
{
    if l.len() > 0 {
        let d = l.drop_last();
        assert(apart3(d));
        lemma_sprout_map(d, ns);
        let m = sprout_map(d, ns);
        assert(!m.dom().contains(pos3(l.last()))) by {
            if m.dom().contains(pos3(l.last())) {
                let k = choose|k: int| 0 <= k < d.len() && pos3(d[k]) == pos3(l.last());
                assert(l[k] == d[k]);
            }
        }
        assert forall|p: (int, int)| #[trigger] sprout_map(l, ns).dom().contains(p) <==> exists|k: int| 0 <= k < l.len() && pos3(l[k]) == p by {
            if m.dom().contains(p) {
                let k = choose|k: int| 0 <= k < d.len() && pos3(d[k]) == p;
                assert(l[k] == d[k]);
            }
            if exists|k: int| 0 <= k < l.len() && pos3(l[k]) == p {
                let k = choose|k: int| 0 <= k < l.len() && pos3(l[k]) == p;
                if k < d.len() {
                    assert(l[k] == d[k]);
                }
            }
        }
        assert forall|k: int| 0 <= k < l.len() implies #[trigger] sprout_map(l, ns)[pos3(l[k])] == ns[l[k].2 as int] by {
            if k < d.len() {
                assert(l[k] == d[k]);
                assert(pos3(l[k]) != pos3(l.last()));
            }
        }
    }
}

proof fn lemma_stem_set(l: Seq<(i64, i64)>)
    requires
        apart2(l),
    ensures
        stem_set(l).finite(),
        stem_set(l).len() == l.len(),
        forall|p: (int, int)| #[trigger] stem_set(l).contains(p) <==> exists|k: int| 0 <= k < l.len() && (l[k].0 as int, l[k].1 as int) == p,
    decreases l.len(),
{
    if l.len() > 0 {
        let d = l.drop_last();
        assert(apart2(d));
        lemma_stem_set(d);
        let m = stem_set(d);
        let last = (l.last().0 as int, l.last().1 as int);
        assert(!m.contains(last)) by {
            if m.contains(last) {
                let k = choose|k: int| 0 <= k < d.len() && (d[k].0 as int, d[k].1 as int) == last;
                assert(l[k] == d[k]);
                assert(l[k] == l.last());
            }
        }
        assert forall|p: (int, int)| #[trigger] stem_set(l).contains(p) <==> exists|k: int| 0 <= k < l.len() && (l[k].0 as int, l[k].1 as int) == p by {
            if m.contains(p) {
                let k = choose|k: int| 0 <= k < d.len() && (d[k].0 as int, d[k].1 as int) == p;
                assert(l[k] == d[k]);
            }
            if exists|k: int| 0 <= k < l.len() && (l[k].0 as int, l[k].1 as int) == p {
                let k = choose|k: int| 0 <= k < l.len() && (l[k].0 as int, l[k].1 as int) == p;
                if k < d.len() {
                    assert(l[k] == d[k]);
                }
            }
        }
    }
}

/// Setting a sprout's token in place changes only that cell's token.
proof fn lemma_sprout_map_update(l: Seq<(i64, i64, usize)>, ns: Seq<Seq<u8>>, i: int, v: (i64, i64, usize))
    requires
        apart3(l),
        0 <= i < l.len(),
        pos3(v) == pos3(l[i]),
    ensures
        sprout_map(l.update(i, v), ns) == sprout_map(l, ns).insert(pos3(v), ns[v.2 as int]),
    decreases l.len(),
{
    let u = l.update(i, v);
    if i == l.len() - 1 {
        assert(u.drop_last() =~= l.drop_last());
        lemma_sprout_map(l.drop_last(), ns);
        assert(apart3(l.drop_last()));
        assert(sprout_map(u, ns) =~= sprout_map(l, ns).insert(pos3(v), ns[v.2 as int]));
    } else {
        assert(u.drop_last() =~= l.drop_last().update(i, v));
        assert(apart3(l.drop_last()));
        lemma_sprout_map_update(l.drop_last(), ns, i, v);
        assert(pos3(l.last()) != pos3(l[i]));
        assert(sprout_map(u, ns) =~= sprout_map(l, ns).insert(pos3(v), ns[v.2 as int]));
    }
}

/// `a < b` for tokens given as byte strings.
fn token_less(a: &[u8], b: &[u8]) -> (r: bool)
    ensures
        r == token_lt(a@, b@),
{
    let mut i: usize = 0;
    proof {
        assert(a@.skip(0) =~= a@);
        assert(b@.skip(0) =~= b@);
    }
    while i < a.len() && i < b.len() && a[i] == b[i]
        invariant
            i <= a@.len(),
            i <= b@.len(),
            token_lt(a@, b@) == token_lt(a@.skip(i as int), b@.skip(i as int)),
        decreases a@.len() - i,
    {
        proof {
            assert(a@.skip(i as int).drop_first() =~= a@.skip(i + 1));
            assert(b@.skip(i as int).drop_first() =~= b@.skip(i + 1));
        }
        i = i + 1;
    }
    if i == a.len() {
        i < b.len()
    } else if i == b.len() {
        false
    } else {
        a[i] < b[i]
    }
}

/// The sprouts after one more child is offered to cell `p`: nothing changes if
/// there is no child or the cell is taken; else the cell keeps the larger token.
pub open spec fn place(m: Map<(int, int), Seq<u8>>, p: (int, int), o: Option<Seq<u8>>, occ: Set<(int, int)>) -> Map<(int, int), Seq<u8>> {
    if o is None || occ.contains(p) {
        m
    } else {
        let cur = if m.dom().contains(p) {
            Some(m[p])
        } else {
            None
        };
        m.insert(p, larger(cur, o)->0)
    }
}

/// The next sprouts with their lookup table: `slots` maps a cell's key to its
/// index in the list.
pub open spec fn slots_ok(slots: Map<u128, usize>, next: Seq<(i64, i64, usize)>) -> bool {
    &&& forall|i: int| 0 <= i < next.len() ==> in_range(#[trigger] pos3(next[i]))
    &&& forall|k: u128| #[trigger] slots.contains_key(k) ==> slots[k] < next.len() && cell_key(pos3(next[slots[k] as int])) == k
    &&& forall|i: int| 0 <= i < next.len() ==> #[trigger] slots.contains_key(cell_key(pos3(next[i]))) && slots[cell_key(pos3(next[i]))] == i
}

proof fn lemma_slots_same_cells(slots: Map<u128, usize>, a: Seq<(i64, i64, usize)>, b: Seq<(i64, i64, usize)>)
    requires
        slots_ok(slots, a),
        a.len() == b.len(),
        forall|j: int| 0 <= j < a.len() ==> #[trigger] pos3(b[j]) == pos3(a[j]),
    ensures
        slots_ok(slots, b),
{
    assert forall|i: int| 0 <= i < b.len() implies in_range(#[trigger] pos3(b[i])) by {
        assert(pos3(b[i]) == pos3(a[i]));
    }
    assert forall|k: u128| #[trigger] slots.contains_key(k) implies slots[k] < b.len() && cell_key(pos3(b[slots[k] as int])) == k by {
        assert(pos3(b[slots[k] as int]) == pos3(a[slots[k] as int]));
    }
    assert forall|i: int| 0 <= i < b.len() implies #[trigger] slots.contains_key(cell_key(pos3(b[i]))) && slots[cell_key(pos3(b[i]))] == i by {
        assert(pos3(b[i]) == pos3(a[i]));
    }
}

proof fn lemma_slots_apart(slots: Map<u128, usize>, next: Seq<(i64, i64, usize)>)
    requires
        slots_ok(slots, next),
    ensures
        apart3(next),
{
    assert forall|i: int, j: int| 0 <= i < next.len() && 0 <= j < next.len() && i != j implies pos3(next[i]) != pos3(next[j]) by {
        assert(slots.contains_key(cell_key(pos3(next[i]))));
        assert(slots.contains_key(cell_key(pos3(next[j]))));
    }
}

/// Offers `child` to the cell at row `y`, column `x`: nothing happens if there is
/// no child or the cell is blocked; a cell already offered a token keeps the larger.
fn grow(
    names: &Vec<Vec<u8>>,
    next: &mut Vec<(i64, i64, usize)>,
    slots: &mut HashMap<u128, usize>,
    blocked: &HashSet<u128>,
    y: i64,
    x: i64,
    child: Option<usize>,
    Ghost(occ): Ghost<Set<(int, int)>>,
)
    requires
        in_range((y as int, x as int)),
        mirrors(blocked@, occ),
        slots_ok(old(slots)@, old(next)@),
        opt_below(child, names@.len()),
        forall|i: int| 0 <= i < old(next)@.len() ==> (#[trigger] old(next)@[i]).2 < names@.len(),
    ensures
        slots_ok(final(slots)@, final(next)@),
        forall|i: int| 0 <= i < final(next)@.len() ==> (#[trigger] final(next)@[i]).2 < names@.len(),
        sprout_map(final(next)@, names_view(names@)) == place(sprout_map(old(next)@, names_view(names@)), (y as int, x as int), opt_name(names_view(names@), child), occ),
{
    let ghost ns = names_view(names@);
    let ghost p = (y as int, x as int);
    let c = match child {
        None => {
            return;
        },
        Some(c) => c,
    };
    let k = key_of(y, x);
    if blocked.contains(&k) {
        return;
    }
    proof {
        lemma_slots_apart(slots@, next@);
        lemma_sprout_map(next@, ns);
    }
    match slots.get(&k) {
        Some(i) => {
            let i: usize = *i;
            let cur: usize = next[i].2;
            proof {
                lemma_cell_key_injective(pos3(next@[i as int]), p);
                assert(sprout_map(next@, ns)[p] == ns[cur as int]);
                assert(sprout_map(next@, ns).dom().contains(p));
            }
            if token_less(names[cur].as_slice(), names[c].as_slice()) {
                let ghost old_next = next@;
                next.set(i, (y, x, c));
                proof {
                    assert forall|j: int| 0 <= j < next@.len() implies #[trigger] pos3(next@[j]) == pos3(old_next[j]) by {}
                    lemma_slots_same_cells(slots@, old_next, next@);
                    lemma_sprout_map_update(old_next, ns, i as int, (y, x, c));
                    assert(sprout_map(next@, ns) =~= place(sprout_map(old_next, ns), p, opt_name(ns, child), occ));
                }
            } else {
                proof {
                    assert(sprout_map(next@, ns) =~= place(sprout_map(next@, ns), p, opt_name(ns, child), occ));
                }
            }
        },
        None => {
            proof {
                if sprout_map(next@, ns).dom().contains(p) {
                    let j = choose|j: int| 0 <= j < next@.len() && pos3(next@[j]) == p;
                    assert(slots@.contains_key(cell_key(pos3(next@[j]))));
                }
            }
            let ghost old_next = next@;
            let ghost old_slots = slots@;
            let n: usize = next.len();
            slots.insert(k, n);
            next.push((y, x, c));
            proof {
                assert(next@.drop_last() =~= old_next);
                assert forall|k2: u128| #[trigger] slots@.contains_key(k2) implies slots@[k2] < next@.len() && cell_key(pos3(next@[slots@[k2] as int])) == k2 by {
                    if k2 != k {
                        assert(old_slots.contains_key(k2));
                        assert(next@[old_slots[k2] as int] == old_next[old_slots[k2] as int]);
                    }
                }
                assert forall|j: int| 0 <= j < next@.len() implies #[trigger] slots@.contains_key(cell_key(pos3(next@[j]))) && slots@[cell_key(pos3(next@[j]))] == j by {
                    if j < n {
                        assert(next@[j] == old_next[j]);
                        assert(old_slots.contains_key(cell_key(pos3(old_next[j]))));
                        if cell_key(pos3(old_next[j])) == k {
                            lemma_cell_key_injective(pos3(old_next[j]), p);
                            assert(sprout_map(old_next, ns).dom().contains(p));
                        }
                    }
                }
                assert forall|j: int| 0 <= j < next@.len() implies in_range(#[trigger] pos3(next@[j])) by {
                    if j < n {
                        assert(next@[j] == old_next[j]);
                    }
                }
                assert(slots_ok(slots@, next@));
                assert(sprout_map(next@, ns) =~= place(sprout_map(old_next, ns), p, opt_name(ns, child), occ));
            }
        },
    }
}


/// Adding one sprout to the old ones adds its three offers to the new sprouts.
proof fn lemma_grown_step(e: Seq<Entry>, sk: Map<(int, int), Seq<u8>>, q: (int, int), t: Seq<u8>, tr: Triple, occ: Set<(int, int)>)
    requires
        !sk.dom().contains(q),
        lookup(e, t) == Some(tr),
    ensures
        grown(e, sk.insert(q, t), occ) == place(
            place(place(grown(e, sk, occ), (q.0, q.1 - 1), tr.0, occ), (q.0, q.1 + 1), tr.2, occ),
            (q.0 + 1, q.1),
            tr.1,
            occ,
        ),
{
    let s2 = sk.insert(q, t);
    let pl = (q.0, q.1 - 1);
    let pr = (q.0, q.1 + 1);
    let pa = (q.0 + 1, q.1);
    let m0 = grown(e, sk, occ);
    let m1 = place(m0, pl, tr.0, occ);
    let m2 = place(m1, pr, tr.2, occ);
    let m3 = place(m2, pa, tr.1, occ);
    let g = grown(e, s2, occ);
    assert forall|p: (int, int)| #[trigger] g.dom().contains(p) == m3.dom().contains(p) && (g.dom().contains(p) ==> g[p] == m3[p]) by {
        let l = offer(e, sk, (p.0, p.1 + 1), 0);
        let r = offer(e, sk, (p.0, p.1 - 1), 2);
        let a = offer(e, sk, (p.0 - 1, p.1), 1);
        let old_c = candidate(e, sk, p);
        let new_c = candidate(e, s2, p);
        if p == pl {
            assert(offer(e, sk, q, 0) is None);
            lemma_larger_associates(tr.0, r, a);
            lemma_larger_commutes(tr.0, larger(r, a));
            assert(new_c == larger(old_c, tr.0));
        } else if p == pr {
            assert(offer(e, sk, q, 2) is None);
            lemma_larger_associates(l, tr.2, a);
            lemma_larger_commutes(tr.2, a);
            lemma_larger_associates(l, a, tr.2);
            assert(new_c == larger(old_c, tr.2));
        } else if p == pa {
            assert(offer(e, sk, q, 1) is None);
            assert(new_c == larger(old_c, tr.1));
        } else {
            assert(new_c == old_c);
        }
    }
    assert(g =~= m3);
}

/// The new sprouts of one plant: every sprout offers its children, in list order.
fn grow_plant(
    names: &Vec<Vec<u8>>,
    table: &Vec<Option<(Option<usize>, Option<usize>, Option<usize>)>>,
    sprouts: &Vec<(i64, i64, usize)>,
    blocked: &HashSet<u128>,
    Ghost(e): Ghost<Seq<Entry>>,
    Ghost(occ): Ghost<Set<(int, int)>>,
) -> (next: Vec<(i64, i64, usize)>)
    requires
        distinct(names_view(names@)),
        table_ok(table@, names_view(names@), e),
        apart3(sprouts@),
        forall|i: int| 0 <= i < sprouts@.len() ==> (#[trigger] sprouts@[i]).2 < names@.len(),
        forall|i: int| 0 <= i < sprouts@.len() ==> {
            let sp = #[trigger] sprouts@[i];
            0 <= sp.0 && sp.0 + 1 < 256 && i64::MIN < sp.1 < i64::MAX
        },
        ready(e, sprout_map(sprouts@, names_view(names@))),
        mirrors(blocked@, occ),
    ensures
        apart3(next@),
        forall|i: int| 0 <= i < next@.len() ==> (#[trigger] next@[i]).2 < names@.len(),
        forall|i: int| 0 <= i < next@.len() ==> in_range(#[trigger] pos3(next@[i])),
        sprout_map(next@, names_view(names@)) == grown(e, sprout_map(sprouts@, names_view(names@)), occ),
{
    let ghost ns = names_view(names@);
    let mut next: Vec<(i64, i64, usize)> = Vec::new();
    let mut slots: HashMap<u128, usize> = HashMap::new();
    proof {
        lemma_sprout_map(sprouts@, ns);
        assert(sprout_map(next@, ns) =~= grown(e, sprout_map(sprouts@.take(0), ns), occ)) by {
            assert(sprouts@.take(0) =~= Seq::<(i64, i64, usize)>::empty());
        }
    }
    let mut k: usize = 0;
    while k < sprouts.len()
        invariant
            k <= sprouts@.len(),
            ns == names_view(names@),
            distinct(ns),
            table_ok(table@, ns, e),
            apart3(sprouts@),
            forall|i: int| 0 <= i < sprouts@.len() ==> (#[trigger] sprouts@[i]).2 < names@.len(),
            forall|i: int| 0 <= i < sprouts@.len() ==> {
                let sp = #[trigger] sprouts@[i];
                0 <= sp.0 && sp.0 + 1 < 256 && i64::MIN < sp.1 < i64::MAX
            },
            ready(e, sprout_map(sprouts@, ns)),
            forall|i: int| 0 <= i < sprouts@.len() ==> #[trigger] sprout_map(sprouts@, ns)[pos3(sprouts@[i])] == ns[sprouts@[i].2 as int],
            forall|p: (int, int)| #[trigger] sprout_map(sprouts@, ns).dom().contains(p) <==> exists|i: int| 0 <= i < sprouts@.len() && pos3(sprouts@[i]) == p,
            mirrors(blocked@, occ),
            slots_ok(slots@, next@),
            forall|i: int| 0 <= i < next@.len() ==> (#[trigger] next@[i]).2 < names@.len(),
            sprout_map(next@, ns) == grown(e, sprout_map(sprouts@.take(k as int), ns), occ),
        decreases sprouts@.len() - k,
    {
        let (y, x, id) = sprouts[k];
        let ghost q = (y as int, x as int);
        let ghost sk = sprout_map(sprouts@.take(k as int), ns);
        proof {
            assert(sprout_map(sprouts@, ns).dom().contains(q));
            assert(sprout_map(sprouts@, ns)[q] == ns[id as int]);
            assert(lookup(e, ns[id as int]) is Some);
            assert(sprouts@.take(k + 1).drop_last() =~= sprouts@.take(k as int));
            assert(sprouts@.take(k + 1).last() == sprouts@[k as int]);
            assert(!sk.dom().contains(q)) by {
                let t = sprouts@.take(k as int);
                assert(apart3(t));
                lemma_sprout_map(t, ns);
                if sk.dom().contains(q) {
                    let j = choose|j: int| 0 <= j < t.len() && pos3(t[j]) == q;
                    assert(t[j] == sprouts@[j]);
                }
            }
        }
        let rule = table[id];
        proof {
            assert(table@[id as int] is Some);
        }
        let (l, a, r) = rule.unwrap();
        let ghost tr = triple_view(ns, (l, a, r));
        proof {
            lemma_grown_step(e, sk, q, ns[id as int], tr, occ);
        }
        grow(names, &mut next, &mut slots, blocked, y, x - 1, l, Ghost(occ));
        grow(names, &mut next, &mut slots, blocked, y, x + 1, r, Ghost(occ));
        grow(names, &mut next, &mut slots, blocked, y + 1, x, a, Ghost(occ));
        k = k + 1;
    }
    proof {
        assert(sprouts@.take(sprouts@.len() as int) =~= sprouts@);
        lemma_slots_apart(slots@, next@);
    }
    next
}


proof fn lemma_shade_monotone(blockers: Set<(int, int)>, x: int, lo: int, a: int, b: int)
    requires
        a <= b,
    ensures
        shade(blockers, x, lo, a) <= shade(blockers, x, lo, b),
    decreases b - a,
{
    if a < b {
        lemma_shade_monotone(blockers, x, lo, a, b - 1);
    }
}

/// The energy of the stem at row `y`, column `x` in season `age`.
fn stem_energy_of(blockers: &HashSet<u128>, y: i64, x: i64, age: i64, Ghost(bl): Ghost<Set<(int, int)>>) -> (r: u128)
    requires
        mirrors(blockers@, bl),
        0 <= y <= age < 256,
    ensures
        r == stem_energy((y as int, x as int), bl, age as int),
        r <= 30,
{
    let mut c: u128 = 0;
    let mut yy: i64 = y + 1;
    while yy <= age && c < 3
        invariant
            mirrors(blockers@, bl),
            0 <= y < yy <= age + 1,
            age < 256,
            c == shade(bl, x as int, y as int, yy - 1),
            c <= 3,
        decreases age + 1 - yy,
    {
        let k = key_of(yy, x);
        proof {
            assert(in_range((yy as int, x as int)));
        }
        if blockers.contains(&k) {
            c = c + 1;
        }
        yy = yy + 1;
    }
    proof {
        lemma_shade_monotone(bl, x as int, y as int, yy - 1, age as int);
    }
    let h: u128 = if y + 1 < 10 {
        (y + 1) as u128
    } else {
        10
    };
    assert(h * (3 - c) <= 30) by (nonlinear_arith)
        requires
            h <= 10,
            c <= 3,
    ;
    h * (3 - c)
}

proof fn lemma_add_energy_commutes(bl: Set<(int, int)>, age: int)
    ensures
        vstd::set::fold::is_fun_commutative(add_energy(bl, age)),
{
    let f = add_energy(bl, age);
    assert forall|a1: (int, int), a2: (int, int), b: int| #[trigger] f(f(b, a2), a1) == f(f(b, a1), a2) by {}
}

/// The energy the stems harvest in season `age`, shaded by the blockers.
fn harvested_energy(stems: &Vec<(i64, i64)>, blockers: &HashSet<u128>, age: i64, Ghost(bl): Ghost<Set<(int, int)>>) -> (r: u128)
    requires
        apart2(stems@),
        mirrors(blockers@, bl),
        age < 256,
        forall|i: int| 0 <= i < stems@.len() ==> 0 <= (#[trigger] stems@[i]).0 <= age,
    ensures
        r == harvest(stem_set(stems@), bl, age as int),
{
    let ghost f = add_energy(bl, age as int);
    proof {
        lemma_add_energy_commutes(bl, age as int);
        assert(stems@.take(0) =~= Seq::<(i64, i64)>::empty());
        vstd::set::fold::lemma_fold_empty(0int, f);
    }
    let mut total: u128 = 0;
    let mut k: usize = 0;
    while k < stems.len()
        invariant
            k <= stems@.len(),
            apart2(stems@),
            mirrors(blockers@, bl),
            age < 256,
            forall|i: int| 0 <= i < stems@.len() ==> 0 <= (#[trigger] stems@[i]).0 <= age,
            f == add_energy(bl, age as int),
            vstd::set::fold::is_fun_commutative(f),
            total == harvest(stem_set(stems@.take(k as int)), bl, age as int),
            total <= 30 * k,
        decreases stems@.len() - k,
    {
        let (y, x) = stems[k];
        let e = stem_energy_of(blockers, y, x, age, Ghost(bl));
        proof {
            let t = stems@.take(k as int);
            let t1 = stems@.take(k + 1);
            assert(t1.drop_last() =~= t);
            assert(t1.last() == stems@[k as int]);
            assert(apart2(t));
            lemma_stem_set(t);
            let p = (y as int, x as int);
            assert(!stem_set(t).contains(p)) by {
                if stem_set(t).contains(p) {
                    let j = choose|j: int| 0 <= j < t.len() && (t[j].0 as int, t[j].1 as int) == p;
                    assert(t[j] == stems@[j]);
                    assert(stems@[j] == stems@[k as int]);
                }
            }
            vstd::set::fold::lemma_fold_insert(stem_set(t), 0int, f, p);
            assert(stem_set(t1) == stem_set(t).insert(p));
            assert(e <= 30);
        }
        total = total + e;
        k = k + 1;
    }
    proof {
        assert(stems@.take(stems@.len() as int) =~= stems@);
    }
    total
}

/// The energy a plant requests: 3 for each of its cells.
fn requested_energy(sprouts: &Vec<(i64, i64, usize)>, stems: &Vec<(i64, i64)>, Ghost(ns): Ghost<Seq<Seq<u8>>>) -> (r: u128)
    requires
        apart3(sprouts@),
        apart2(stems@),
    ensures
        r == request((sprout_map(sprouts@, ns), stem_set(stems@), false)),
{
    proof {
        lemma_sprout_map(sprouts@, ns);
        lemma_stem_set(stems@);
    }
    3 * ((sprouts.len() as u128) + (stems.len() as u128))
}


/// The plants that the lists hold.
pub open spec fn plants_view(sps: Seq<Vec<(i64, i64, usize)>>, sts: Seq<Vec<(i64, i64)>>, dead: Seq<bool>, ns: Seq<Seq<u8>>) -> Seq<Plant> {
    Seq::new(sps.len(), |i: int| (sprout_map(sps[i]@, ns), stem_set(sts[i]@), dead[i]))
}

/// Cell `p` is within `t` steps of the plant's root column `o`: rows grow up from
/// 0 and every step moves one cell.
pub open spec fn near(p: (int, int), o: int, t: int) -> bool {
    0 <= p.0 <= t && o - t <= p.1 <= o + t
}

/// The cell of a stem.
pub open spec fn pos2(e: (i64, i64)) -> (int, int) {
    (e.0 as int, e.1 as int)
}

/// The lists of one plant are sound: no cell twice, no cell both sprout and stem,
/// token numbers below `n`, and every cell near the root column `o`.
pub open spec fn plant_ok(sp: Seq<(i64, i64, usize)>, st: Seq<(i64, i64)>, n: nat, o: int, t: int) -> bool {
    &&& apart3(sp)
    &&& apart2(st)
    &&& forall|k: int| 0 <= k < sp.len() ==> (#[trigger] sp[k]).2 < n && near(pos3(sp[k]), o, t)
    &&& forall|k: int| 0 <= k < st.len() ==> near(pos2(#[trigger] st[k]), o, t)
    &&& forall|a: int, b: int| 0 <= a < sp.len() && 0 <= b < st.len() ==> pos3(#[trigger] sp[a]) != pos2(#[trigger] st[b])
}

proof fn lemma_evolve_prefix(rs: Seq<Seq<Entry>>, ps: Seq<Plant>, t: int, t2: int)
    requires
        evolve(rs, ps, t) is Some,
        t2 <= t,
    ensures
        evolve(rs, ps, t2) is Some,
    decreases t - t2,
{
    if t2 < t {
        lemma_evolve_prefix(rs, ps, t - 1, t2);
    }
}

proof fn lemma_grow_all_prefix(rs: Seq<Seq<Entry>>, ps: Seq<Plant>, occ: Set<(int, int)>, j: int, j2: int)
    requires
        grow_all(rs, ps, occ, j) is Some,
        j2 <= j,
    ensures
        grow_all(rs, ps, occ, j2) is Some,
    decreases j - j2,
{
    if j2 < j {
        lemma_grow_all_prefix(rs, ps, occ, j - 1, j2);
    }
}

proof fn lemma_grow_all_len(rs: Seq<Seq<Entry>>, ps: Seq<Plant>, occ: Set<(int, int)>, j: int)
    requires
        0 <= j <= ps.len(),
        grow_all(rs, ps, occ, j) is Some,
    ensures
        (grow_all(rs, ps, occ, j)->0).0.len() == ps.len(),
    decreases j,
{
    if j > 0 {
        lemma_grow_all_len(rs, ps, occ, j - 1);
    }
}

proof fn lemma_all_cells_has(ps: Seq<Plant>, i: int)
    requires
        0 <= i < ps.len(),
    ensures
        cells(ps[i]).subset_of(all_cells(ps)),
    decreases ps.len(),
{
    if i < ps.len() - 1 {
        lemma_all_cells_has(ps.drop_last(), i);
        assert(ps.drop_last()[i] == ps[i]);
    }
}

proof fn lemma_all_cells_in(ps: Seq<Plant>, p: (int, int))
    requires
        all_cells(ps).contains(p),
    ensures
        exists|i: int| 0 <= i < ps.len() && cells(ps[i]).contains(p),
    decreases ps.len(),
{
    if !cells(ps.last()).contains(p) {
        lemma_all_cells_in(ps.drop_last(), p);
        let i = choose|i: int| 0 <= i < ps.len() - 1 && cells(ps.drop_last()[i]).contains(p);
        assert(ps.drop_last()[i] == ps[i]);
    }
}

/// Growing one plant's cells by `x` grows the cells of all plants by `x`.
proof fn lemma_all_cells_update(ps: Seq<Plant>, i: int, pl: Plant, x: Set<(int, int)>)
    requires
        0 <= i < ps.len(),
        cells(pl) == cells(ps[i]).union(x),
    ensures
        all_cells(ps.update(i, pl)) == all_cells(ps).union(x),
    decreases ps.len(),
{
    let u = ps.update(i, pl);
    if i == ps.len() - 1 {
        assert(u.drop_last() =~= ps.drop_last());
    } else {
        assert(u.drop_last() =~= ps.drop_last().update(i, pl));
        lemma_all_cells_update(ps.drop_last(), i, pl, x);
    }
    assert(all_cells(u) =~= all_cells(ps).union(x));
}

/// Growing one plant's stems by `x` grows the stems of all plants by `x`.
proof fn lemma_stem_cells_update(ps: Seq<Plant>, i: int, pl: Plant, x: Set<(int, int)>)
    requires
        0 <= i < ps.len(),
        pl.1 == ps[i].1.union(x),
    ensures
        stem_cells(ps.update(i, pl)) == stem_cells(ps).union(x),
    decreases ps.len(),
{
    let u = ps.update(i, pl);
    if i == ps.len() - 1 {
        assert(u.drop_last() =~= ps.drop_last());
    } else {
        assert(u.drop_last() =~= ps.drop_last().update(i, pl));
        lemma_stem_cells_update(ps.drop_last(), i, pl, x);
    }
    assert(stem_cells(u) =~= stem_cells(ps).union(x));
}

/// Stems and stopped flags do not change the cells' sprouts: the stems of plants
/// that differ only in their flags are the same.
proof fn lemma_stem_cells_flags(ps: Seq<Plant>, qs: Seq<Plant>)
    requires
        ps.len() == qs.len(),
        forall|i: int| 0 <= i < ps.len() ==> (#[trigger] ps[i]).1 == qs[i].1,
    ensures
        stem_cells(ps) == stem_cells(qs),
    decreases ps.len(),
{
    if ps.len() > 0 {
        lemma_stem_cells_flags(ps.drop_last(), qs.drop_last());
    }
}

/// A new sprout sits next to an old one.
proof fn lemma_grown_near(e: Seq<Entry>, sp: Map<(int, int), Seq<u8>>, occ: Set<(int, int)>, p: (int, int))
    requires
        grown(e, sp, occ).dom().contains(p),
    ensures
        sp.dom().contains((p.0, p.1 + 1)) || sp.dom().contains((p.0, p.1 - 1)) || sp.dom().contains((p.0 - 1, p.1)),
        !occ.contains(p),
{
}


/// Plant `j` grows: its sprouts become stems and the cells they offer, if free,
/// become its new sprouts; the other plants stay as they are.
pub open spec fn grow_step(e: Seq<Entry>, qs: Seq<Plant>, j: int, o: Set<(int, int)>) -> Seq<Plant> {
    qs.update(j, (grown(e, qs[j].0, o), qs[j].1.union(qs[j].0.dom()), false))
}

/// One season for plant `j`: its sprouts turn into stems and the free cells they
/// offer become its new sprouts.
fn grow_one(
    names: &Vec<Vec<u8>>,
    table: &Vec<Option<(Option<usize>, Option<usize>, Option<usize>)>>,
    all_sprouts: &mut Vec<Vec<(i64, i64, usize)>>,
    all_stems: &mut Vec<Vec<(i64, i64)>>,
    occ: &mut HashSet<u128>,
    flat: &mut HashSet<u128>,
    j: usize,
    Ghost(e): Ghost<Seq<Entry>>,
    Ghost(o): Ghost<Set<(int, int)>>,
    Ghost(dead): Ghost<Seq<bool>>,
    Ghost(origin): Ghost<int>,
    Ghost(t): Ghost<int>,
)
    requires
        j < old(all_sprouts)@.len(),
        old(all_sprouts)@.len() == old(all_stems)@.len(),
        old(all_sprouts)@.len() == dead.len(),
        distinct(names_view(names@)),
        table_ok(table@, names_view(names@), e),
        !dead[j as int],
        ready(e, sprout_map(old(all_sprouts)@[j as int]@, names_view(names@))),
        plant_ok(old(all_sprouts)@[j as int]@, old(all_stems)@[j as int]@, names@.len(), origin, t),
        0 <= t < 100,
        -0x4000_0000_0000_0000 <= origin <= 0x4000_0000_0000_0000,
        mirrors(old(occ)@, o),
        cells(plants_view(old(all_sprouts)@, old(all_stems)@, dead, names_view(names@))[j as int]).subset_of(o),
        mirrors(old(flat)@, stem_cells(plants_view(old(all_sprouts)@, old(all_stems)@, dead, names_view(names@)))),
    ensures
        final(all_sprouts)@.len() == old(all_sprouts)@.len(),
        final(all_stems)@.len() == old(all_stems)@.len(),
        forall|i: int| 0 <= i < old(all_sprouts)@.len() && i != j ==> #[trigger] final(all_sprouts)@[i] == old(all_sprouts)@[i] && final(all_stems)@[i] == old(all_stems)@[i],
        plant_ok(final(all_sprouts)@[j as int]@, final(all_stems)@[j as int]@, names@.len(), origin, t + 1),
        plants_view(final(all_sprouts)@, final(all_stems)@, dead, names_view(names@)) == grow_step(e, plants_view(old(all_sprouts)@, old(all_stems)@, dead, names_view(names@)), j as int, o),
        mirrors(final(occ)@, o.union(grown(e, sprout_map(old(all_sprouts)@[j as int]@, names_view(names@)), o).dom())),
        mirrors(final(flat)@, stem_cells(plants_view(old(all_sprouts)@, old(all_stems)@, dead, names_view(names@))).union(sprout_map(old(all_sprouts)@[j as int]@, names_view(names@)).dom())),
{
    let ghost ns = names_view(names@);
    let ghost qs = plants_view(all_sprouts@, all_stems@, dead, ns);
    let ghost old_sps = all_sprouts@;
    let ghost old_sts = all_stems@;
    let mut sp: Vec<(i64, i64, usize)> = Vec::new();
    all_sprouts.set_and_swap(j, &mut sp);
    let mut st: Vec<(i64, i64)> = Vec::new();
    all_stems.set_and_swap(j, &mut st);
    let ghost sm = sprout_map(sp@, ns);
    let ghost st0 = st@;
    proof {
        assert(sp@ == old_sps[j as int]@);
        assert(st@ == old_sts[j as int]@);
        lemma_sprout_map(sp@, ns);
        lemma_stem_set(st@);
        assert forall|i: int| 0 <= i < sp@.len() implies {
            let x = #[trigger] sp@[i];
            0 <= x.0 && x.0 + 1 < 256 && i64::MIN < x.1 < i64::MAX
        } by {
            assert(near(pos3(sp@[i]), origin, t));
        }
    }
    let next = grow_plant(names, table, &sp, occ, Ghost(e), Ghost(o));
    let ghost g = grown(e, sm, o);
    let ghost fl0 = stem_cells(qs);
    let mut k: usize = 0;
    while k < sp.len()
        invariant
            k <= sp@.len(),
            ns == names_view(names@),
            sm == sprout_map(sp@, ns),
            plant_ok(sp@, st0, names@.len(), origin, t),
            0 <= t < 100,
            forall|p: (int, int)| #[trigger] sm.dom().contains(p) <==> exists|i: int| 0 <= i < sp@.len() && pos3(sp@[i]) == p,
            apart2(st@),
            st@.len() == st0.len() + k,
            forall|i: int| 0 <= i < st0.len() ==> #[trigger] st@[i] == st0[i],
            forall|i: int| 0 <= i < k ==> #[trigger] st@[st0.len() + i] == (sp@[i].0, sp@[i].1),
            stem_set(st@) == stem_set(st0).union(sprout_map(sp@.take(k as int), ns).dom()),
            mirrors(flat@, fl0.union(sprout_map(sp@.take(k as int), ns).dom())),
        decreases sp@.len() - k,
    {
        let (y, x, _id) = sp[k];
        let ghost old_st = st@;
        let ghost old_flat = flat@;
        st.push((y, x));
        let key = key_of(y, x);
        flat.insert(key);
        proof {
            let p = (y as int, x as int);
            assert(near(p, origin, t));
            assert(in_range(p));
            assert(sp@.take(k + 1).drop_last() =~= sp@.take(k as int));
            assert(sp@.take(k + 1).last() == sp@[k as int]);
            assert(sprout_map(sp@.take(k + 1), ns).dom() =~= sprout_map(sp@.take(k as int), ns).dom().insert(p));
            assert(st@.drop_last() =~= old_st);
            lemma_mirrors_insert(old_flat, fl0.union(sprout_map(sp@.take(k as int), ns).dom()), p);
            assert(fl0.union(sprout_map(sp@.take(k as int), ns).dom()).insert(p) =~= fl0.union(sprout_map(sp@.take(k + 1), ns).dom()));
            assert(stem_set(st@) =~= stem_set(st0).union(sprout_map(sp@.take(k + 1), ns).dom()));
            assert forall|a: int, b: int| 0 <= a < st@.len() && 0 <= b < st@.len() && a != b implies st@[a] != st@[b] by {
                if a < old_st.len() && b < old_st.len() {
                    assert(st@[a] == old_st[a]);
                    assert(st@[b] == old_st[b]);
                } else if a >= st0.len() && b >= st0.len() {
                    let ia = a - st0.len();
                    let ib = b - st0.len();
                    if ia < k && ib < k {
                        assert(st@[a] == old_st[a]);
                        assert(st@[b] == old_st[b]);
                        assert(old_st[st0.len() + ia] == (sp@[ia].0, sp@[ia].1));
                        assert(old_st[st0.len() + ib] == (sp@[ib].0, sp@[ib].1));
                        assert(pos3(sp@[ia]) != pos3(sp@[ib]));
                    } else if ia < k {
                        assert(st@[a] == old_st[a]);
                        assert(old_st[st0.len() + ia] == (sp@[ia].0, sp@[ia].1));
                        assert(pos3(sp@[ia]) != pos3(sp@[k as int]));
                    } else {
                        assert(st@[b] == old_st[b]);
                        assert(old_st[st0.len() + ib] == (sp@[ib].0, sp@[ib].1));
                        assert(pos3(sp@[ib]) != pos3(sp@[k as int]));
                    }
                } else if a < st0.len() {
                    assert(st@[a] == st0[a]);
                    let ib = b - st0.len();
                    assert(pos3(sp@[ib]) != pos2(st0[a]));
                    if ib < k {
                        assert(st@[b] == old_st[b]);
                        assert(old_st[st0.len() + ib] == (sp@[ib].0, sp@[ib].1));
                    }
                } else {
                    assert(st@[b] == st0[b]);
                    let ia = a - st0.len();
                    assert(pos3(sp@[ia]) != pos2(st0[b]));
                    if ia < k {
                        assert(st@[a] == old_st[a]);
                        assert(old_st[st0.len() + ia] == (sp@[ia].0, sp@[ia].1));
                    }
                }
            }
        }
        k = k + 1;
    }
    proof {
        assert(sp@.take(sp@.len() as int) =~= sp@);
        lemma_sprout_map(next@, ns);
    }
    let mut m: usize = 0;
    let ghost occ0 = occ@;
    while m < next.len()
        invariant
            m <= next@.len(),
            ns == names_view(names@),
            forall|i: int| 0 <= i < next@.len() ==> in_range(#[trigger] pos3(next@[i])),
            apart3(next@),
            mirrors(occ0, o),
            mirrors(occ@, o.union(sprout_map(next@.take(m as int), ns).dom())),
        decreases next@.len() - m,
    {
        let (y, x, _id) = next[m];
        proof {
            assert(in_range(pos3(next@[m as int])));
        }
        let ghost old_occ = occ@;
        let key = key_of(y, x);
        occ.insert(key);
        proof {
            let p = (y as int, x as int);
            assert(in_range(pos3(next@[m as int])));
            assert(next@.take(m + 1).drop_last() =~= next@.take(m as int));
            assert(next@.take(m + 1).last() == next@[m as int]);
            lemma_mirrors_insert(old_occ, o.union(sprout_map(next@.take(m as int), ns).dom()), p);
            assert(o.union(sprout_map(next@.take(m as int), ns).dom()).insert(p) =~= o.union(sprout_map(next@.take(m + 1), ns).dom()));
        }
        m = m + 1;
    }
    proof {
        assert(next@.take(next@.len() as int) =~= next@);
    }
    let ghost next_v = next@;
    let ghost st_v = st@;
    all_sprouts.set(j, next);
    all_stems.set(j, st);
    proof {
        let nq = plants_view(all_sprouts@, all_stems@, dead, ns);
        let want = grow_step(e, qs, j as int, o);
        assert(qs[j as int].0 == sm);
        assert(qs[j as int].1 == stem_set(st0));
        assert(nq.len() == want.len());
        assert forall|i: int| 0 <= i < nq.len() implies #[trigger] nq[i] == want[i] by {
            if i != j {
                assert(all_sprouts@[i] == old_sps[i]);
                assert(all_stems@[i] == old_sts[i]);
            }
        }
        assert(nq =~= want);
        // The new plant's lists are sound one season later.
        assert(cells(qs[j as int]).subset_of(o));
        lemma_stem_set(st_v);
        assert forall|i: int| 0 <= i < next_v.len() implies (#[trigger] next_v[i]).2 < names@.len() && near(pos3(next_v[i]), origin, t + 1) by {
            let p = pos3(next_v[i]);
            assert(sprout_map(next_v, ns).dom().contains(p));
            lemma_grown_near(e, sm, o, p);
            if sm.dom().contains((p.0, p.1 + 1)) {
                let w = choose|w: int| 0 <= w < sp@.len() && pos3(sp@[w]) == (p.0, p.1 + 1);
                assert(near(pos3(sp@[w]), origin, t));
            } else if sm.dom().contains((p.0, p.1 - 1)) {
                let w = choose|w: int| 0 <= w < sp@.len() && pos3(sp@[w]) == (p.0, p.1 - 1);
                assert(near(pos3(sp@[w]), origin, t));
            } else {
                let w = choose|w: int| 0 <= w < sp@.len() && pos3(sp@[w]) == (p.0 - 1, p.1);
                assert(near(pos3(sp@[w]), origin, t));
            }
        }
        assert forall|i: int| 0 <= i < st_v.len() implies near(pos2(#[trigger] st_v[i]), origin, t + 1) by {
            if i < st0.len() {
                assert(st_v[i] == st0[i]);
            } else {
                let w = i - st0.len();
                assert(st_v[st0.len() + w] == (sp@[w].0, sp@[w].1));
                assert(st0.len() + w == i);
                assert(near(pos3(sp@[w]), origin, t));
            }
        }
        assert forall|a: int, b: int| 0 <= a < next_v.len() && 0 <= b < st_v.len() implies pos3(#[trigger] next_v[a]) != pos2(#[trigger] st_v[b]) by {
            let p = pos3(next_v[a]);
            assert(sprout_map(next_v, ns).dom().contains(p));
            lemma_grown_near(e, sm, o, p);
            assert(stem_set(st_v).contains(pos2(st_v[b])));
            assert(cells(qs[j as int]).contains(pos2(st_v[b])));
        }
    }
}


proof fn lemma_all_cells_flags(ps: Seq<Plant>, qs: Seq<Plant>)
    requires
        ps.len() == qs.len(),
        forall|i: int| 0 <= i < ps.len() ==> (#[trigger] ps[i]).0 == qs[i].0 && ps[i].1 == qs[i].1,
    ensures
        all_cells(ps) == all_cells(qs),
    decreases ps.len(),
{
    if ps.len() > 0 {
        lemma_all_cells_flags(ps.drop_last(), qs.drop_last());
    }
}

proof fn lemma_plant_ok_later(sp: Seq<(i64, i64, usize)>, st: Seq<(i64, i64)>, n: nat, o: int, t: int)
    requires
        plant_ok(sp, st, n, o, t),
    ensures
        plant_ok(sp, st, n, o, t + 1),
{
    assert forall|k: int| 0 <= k < sp.len() implies (#[trigger] sp[k]).2 < n && near(pos3(sp[k]), o, t + 1) by {
        assert(near(pos3(sp[k]), o, t));
    }
    assert forall|k: int| 0 <= k < st.len() implies near(pos2(#[trigger] st[k]), o, t + 1) by {
        assert(near(pos2(st[k]), o, t));
    }
}

/// From season 5 on, the plants whose stems harvest less than they request stop.
fn wither_all(
    all_sprouts: &Vec<Vec<(i64, i64, usize)>>,
    all_stems: &Vec<Vec<(i64, i64)>>,
    dead: &mut Vec<bool>,
    flat: &HashSet<u128>,
    age: i64,
    Ghost(ns): Ghost<Seq<Seq<u8>>>,
    Ghost(origins): Ghost<Seq<int>>,
    Ghost(n): Ghost<nat>,
)
    requires
        5 <= age <= 100,
        all_sprouts@.len() == all_stems@.len(),
        all_sprouts@.len() == old(dead)@.len(),
        all_sprouts@.len() == origins.len(),
        forall|i: int| 0 <= i < all_sprouts@.len() ==> plant_ok(#[trigger] all_sprouts@[i]@, all_stems@[i]@, n, origins[i], age as int),
        mirrors(flat@, stem_cells(plants_view(all_sprouts@, all_stems@, old(dead)@, ns))),
    ensures
        final(dead)@.len() == old(dead)@.len(),
        plants_view(all_sprouts@, all_stems@, final(dead)@, ns) == wither(plants_view(all_sprouts@, all_stems@, old(dead)@, ns), age as int),
{
    let ghost qs = plants_view(all_sprouts@, all_stems@, dead@, ns);
    let ghost d0 = dead@;
    let ghost bl = stem_cells(qs);
    let mut j: usize = 0;
    while j < dead.len()
        invariant
            5 <= age <= 100,
            j <= dead@.len(),
            dead@.len() == d0.len(),
            all_sprouts@.len() == all_stems@.len(),
            all_sprouts@.len() == d0.len(),
            all_sprouts@.len() == origins.len(),
            qs == plants_view(all_sprouts@, all_stems@, d0, ns),
            bl == stem_cells(qs),
            forall|i: int| 0 <= i < all_sprouts@.len() ==> plant_ok(#[trigger] all_sprouts@[i]@, all_stems@[i]@, n, origins[i], age as int),
            mirrors(flat@, bl),
            forall|i: int| j <= i < dead@.len() ==> #[trigger] dead@[i] == d0[i],
            forall|i: int| 0 <= i < j ==> #[trigger] dead@[i] == (d0[i] || harvest(qs[i].1, bl, age as int) < request(qs[i])),
        decreases dead@.len() - j,
    {
        proof {
            assert(plant_ok(all_sprouts@[j as int]@, all_stems@[j as int]@, n, origins[j as int], age as int));
            let st = all_stems@[j as int]@;
            assert forall|i: int| 0 <= i < st.len() implies 0 <= (#[trigger] st[i]).0 <= age by {
                assert(near(pos2(st[i]), origins[j as int], age as int));
            }
        }
        let h = harvested_energy(&all_stems[j], flat, age, Ghost(bl));
        let r = requested_energy(&all_sprouts[j], &all_stems[j], Ghost(ns));
        if h < r {
            dead.set(j, true);
        }
        j = j + 1;
    }
    proof {
        let want = wither(qs, age as int);
        let got = plants_view(all_sprouts@, all_stems@, dead@, ns);
        assert(got =~= want);
    }
}

proof fn lemma_stem_cells_empty(ps: Seq<Plant>)
    requires
        forall|i: int| 0 <= i < ps.len() ==> (#[trigger] ps[i]).1 == Set::<(int, int)>::empty(),
    ensures
        stem_cells(ps) == Set::<(int, int)>::empty(),
    decreases ps.len(),
{
    if ps.len() > 0 {
        lemma_stem_cells_empty(ps.drop_last());
        assert(stem_cells(ps) =~= Set::<(int, int)>::empty());
    }
}

/// The start of a growth: each plant's sprouts, no stems, none stopped.
pub open spec fn start_view(sps: Seq<Vec<(i64, i64, usize)>>, ns: Seq<Seq<u8>>) -> Seq<Plant> {
    Seq::new(sps.len(), |i: int| (sprout_map(sps[i]@, ns), Set::<(int, int)>::empty(), false))
}

/// Grows the plants side by side for 100 seasons: each season every plant that
/// has not stopped grows, in order, into the cells that are still free, and from
/// season 5 on the plants short of energy stop. Plant `i` follows the rules of
/// table `owners[i]`. Returns the stems; the sprouts are left in `all_sprouts`.
fn evolve_p2(garden: &Garden, owners: &Vec<usize>, all_sprouts: &mut Vec<Vec<(i64, i64, usize)>>, Ghost(rs): Ghost<Seq<Seq<Entry>>>) -> (all_stems: Vec<Vec<(i64, i64)>>)
    requires
        distinct(names_view(garden.names@)),
        old(all_sprouts)@.len() == owners@.len(),
        owners@.len() == rs.len(),
        forall|i: int| 0 <= i < owners@.len() ==> #[trigger] owners@[i] < garden.tables@.len() && table_ok(garden.tables@[owners@[i] as int]@, names_view(garden.names@), rs[i]),
        forall|i: int| 0 <= i < old(all_sprouts)@.len() ==> {
            let l = #[trigger] old(all_sprouts)@[i]@;
            &&& l.len() == 1
            &&& l[0].0 == 0
            &&& -0x4000_0000_0000_0000 <= l[0].1 <= 0x4000_0000_0000_0000
            &&& l[0].2 < garden.names@.len()
        },
        evolve(rs, start_view(old(all_sprouts)@, names_view(garden.names@)), 100) is Some,
    ensures
        final(all_sprouts)@.len() == old(all_sprouts)@.len(),
        all_stems@.len() == old(all_sprouts)@.len(),
        evolve(rs, start_view(old(all_sprouts)@, names_view(garden.names@)), 100) matches Some(qs) && qs.len() == all_stems@.len() && forall|i: int| 0 <= i < qs.len() ==> (#[trigger] qs[i]).0 == sprout_map(final(all_sprouts)@[i]@, names_view(garden.names@)) && qs[i].1 == stem_set(all_stems@[i]@),
        forall|i: int| 0 <= i < all_stems@.len() ==> plant_ok(#[trigger] final(all_sprouts)@[i]@, all_stems@[i]@, garden.names@.len(), old(all_sprouts)@[i]@[0].1 as int, 100),
{
    let names = &garden.names;
    let ghost ns = names_view(names@);
    let ghost init = all_sprouts@;
    let ghost p0 = start_view(init, ns);
    let ghost origins = Seq::new(init.len(), |i: int| init[i]@[0].1 as int);
    let n: usize = all_sprouts.len();
    let mut all_stems: Vec<Vec<(i64, i64)>> = Vec::new();
    let mut dead: Vec<bool> = Vec::new();
    let mut occ: HashSet<u128> = HashSet::new();
    let flat: HashSet<u128> = HashSet::new();
    let mut flat = flat;
    let mut i: usize = 0;
    while i < n
        invariant
            i <= n,
            n == all_sprouts@.len(),
            all_sprouts@ == init,
            ns == names_view(names@),
            origins == Seq::new(init.len(), |i: int| init[i]@[0].1 as int),
            forall|i: int| 0 <= i < init.len() ==> {
                let l = #[trigger] init[i]@;
                &&& l.len() == 1
                &&& l[0].0 == 0
                &&& -0x4000_0000_0000_0000 <= l[0].1 <= 0x4000_0000_0000_0000
                &&& l[0].2 < names@.len()
            },
            all_stems@.len() == i,
            dead@.len() == i,
            forall|k: int| 0 <= k < i ==> (#[trigger] all_stems@[k])@.len() == 0,
            forall|k: int| 0 <= k < i ==> !#[trigger] dead@[k],
            flat@ == Set::<u128>::empty(),
            mirrors(occ@, all_cells(plants_view(init.take(i as int), all_stems@, dead@, ns))),
        decreases n - i,
    {
        let (y, x, _id) = all_sprouts[i][0];
        proof {
            assert(all_sprouts@[i as int]@[0] == init[i as int]@[0]);
        }
        let ghost old_occ = occ@;
        let ghost old_stems = all_stems@;
        let ghost old_dead = dead@;
        let key = key_of(y, x);
        occ.insert(key);
        all_stems.push(Vec::new());
        dead.push(false);
        proof {
            let before = plants_view(init.take(i as int), old_stems, old_dead, ns);
            let after = plants_view(init.take(i + 1), all_stems@, dead@, ns);
            assert(after.drop_last() =~= before) by {
                assert forall|k: int| 0 <= k < i implies #[trigger] after.drop_last()[k] == before[k] by {
                    assert(all_stems@[k] == old_stems[k]);
                    assert(dead@[k] == old_dead[k]);
                }
            }
            let l = init[i as int]@;
            assert(l.drop_last() =~= Seq::<(i64, i64, usize)>::empty());
            assert(l.last() == l[0]);
            assert(l[0] == all_sprouts@[i as int]@[0]);
            assert(pos3(l.last()) == (y as int, x as int));
            assert(sprout_map(l.drop_last(), ns) == Map::<(int, int), Seq<u8>>::empty());
            assert(sprout_map(l, ns).dom() =~= set![(y as int, x as int)]);
            assert(stem_set(all_stems@[i as int]@) =~= Set::<(int, int)>::empty());
            assert(cells(after.last()) =~= set![(y as int, x as int)]);
            lemma_mirrors_insert(old_occ, all_cells(before), (y as int, x as int));
            assert(all_cells(after) =~= all_cells(before).insert((y as int, x as int)));
        }
        i = i + 1;
    }
    proof {
        assert(init.take(n as int) =~= init);
        let v = plants_view(all_sprouts@, all_stems@, dead@, ns);
        assert forall|k: int| 0 <= k < n implies #[trigger] v[k] == p0[k] by {
            assert(stem_set(all_stems@[k]@) =~= Set::<(int, int)>::empty());
        }
        assert(v =~= p0);
        lemma_stem_cells_empty(p0);
        assert forall|k: int| 0 <= k < n implies plant_ok(#[trigger] all_sprouts@[k]@, all_stems@[k]@, names@.len(), origins[k], 0) by {
            let l = init[k]@;
            assert(l[0] == all_sprouts@[k]@[0]);
            assert(near(pos3(l[0]), origins[k], 0));
        }
    }
    let mut age: i64 = 1;
    while age <= 100
        invariant
            1 <= age <= 101,
            n == all_sprouts@.len(),
            n == all_stems@.len(),
            n == dead@.len(),
            n == owners@.len(),
            n == rs.len(),
            n == origins.len(),
            ns == names_view(names@),
            names == &garden.names,
            distinct(ns),
            p0 == start_view(init, ns),
            forall|i: int| 0 <= i < owners@.len() ==> #[trigger] owners@[i] < garden.tables@.len() && table_ok(garden.tables@[owners@[i] as int]@, ns, rs[i]),
            forall|i: int| 0 <= i < n ==> -0x4000_0000_0000_0000 <= #[trigger] origins[i] <= 0x4000_0000_0000_0000,
            forall|i: int| 0 <= i < n ==> plant_ok(#[trigger] all_sprouts@[i]@, all_stems@[i]@, names@.len(), origins[i], age - 1),
            evolve(rs, p0, 100) is Some,
            evolve(rs, p0, age - 1) == Some(plants_view(all_sprouts@, all_stems@, dead@, ns)),
            mirrors(occ@, all_cells(plants_view(all_sprouts@, all_stems@, dead@, ns))),
            mirrors(flat@, stem_cells(plants_view(all_sprouts@, all_stems@, dead@, ns))),
        decreases 101 - age,
    {
        let ghost start = plants_view(all_sprouts@, all_stems@, dead@, ns);
        let ghost o0 = all_cells(start);
        let ghost mut o = o0;
        proof {
            lemma_evolve_prefix(rs, p0, 100, age as int);
            assert(season(rs, start, age as int) is Some);
            lemma_grow_all_len(rs, start, o0, n as int);
        }
        let mut j: usize = 0;
        while j < n
            invariant
                1 <= age <= 100,
                j <= n,
                n == all_sprouts@.len(),
                n == all_stems@.len(),
                n == dead@.len(),
                n == owners@.len(),
                n == rs.len(),
                n == origins.len(),
                ns == names_view(names@),
                names == &garden.names,
                distinct(ns),
                forall|i: int| 0 <= i < owners@.len() ==> #[trigger] owners@[i] < garden.tables@.len() && table_ok(garden.tables@[owners@[i] as int]@, ns, rs[i]),
                forall|i: int| 0 <= i < n ==> -0x4000_0000_0000_0000 <= #[trigger] origins[i] <= 0x4000_0000_0000_0000,
                forall|i: int| 0 <= i < n ==> plant_ok(#[trigger] all_sprouts@[i]@, all_stems@[i]@, names@.len(), origins[i], age as int),
                forall|i: int| j <= i < n ==> plant_ok(#[trigger] all_sprouts@[i]@, all_stems@[i]@, names@.len(), origins[i], age - 1),
                o0 == all_cells(start),
                grow_all(rs, start, o0, n as int) is Some,
                grow_all(rs, start, o0, j as int) == Some((plants_view(all_sprouts@, all_stems@, dead@, ns), o)),
                all_cells(plants_view(all_sprouts@, all_stems@, dead@, ns)) == o,
                mirrors(occ@, o),
                mirrors(flat@, stem_cells(plants_view(all_sprouts@, all_stems@, dead@, ns))),
            decreases n - j,
        {
            let ghost qs = plants_view(all_sprouts@, all_stems@, dead@, ns);
            proof {
                lemma_grow_all_prefix(rs, start, o0, n as int, j + 1);
            }
            if !dead[j] {
                let w: usize = owners[j];
                proof {
                    assert(qs[j as int].2 == dead@[j as int]);
                    assert(ready(rs[j as int], qs[j as int].0));
                    lemma_all_cells_has(qs, j as int);
                    assert(table_ok(garden.tables@[owners@[j as int] as int]@, ns, rs[j as int]));
                }
                let ghost g = grown(rs[j as int], qs[j as int].0, o);
                let ghost sps_before = all_sprouts@;
                let ghost sts_before = all_stems@;
                grow_one(names, &garden.tables[w], all_sprouts, &mut all_stems, &mut occ, &mut flat, j, Ghost(rs[j as int]), Ghost(o), Ghost(dead@), Ghost(origins[j as int]), Ghost(age - 1));
                proof {
                    let nq = plants_view(all_sprouts@, all_stems@, dead@, ns);
                    assert(nq == grow_step(rs[j as int], qs, j as int, o));
                    let pl = qs[j as int];
                    let npl = (g, pl.1.union(pl.0.dom()), false);
                    assert(cells(npl) =~= cells(pl).union(g.dom()));
                    lemma_all_cells_update(qs, j as int, npl, g.dom());
                    lemma_stem_cells_update(qs, j as int, npl, pl.0.dom());
                    o = o.union(g.dom());
                    assert forall|i: int| 0 <= i < n implies plant_ok(#[trigger] all_sprouts@[i]@, all_stems@[i]@, names@.len(), origins[i], age as int) by {
                        if i != j {
                            assert(all_sprouts@[i] == sps_before[i]);
                            assert(all_stems@[i] == sts_before[i]);
                        }
                    }
                    assert forall|i: int| j + 1 <= i < n implies plant_ok(#[trigger] all_sprouts@[i]@, all_stems@[i]@, names@.len(), origins[i], age - 1) by {
                        assert(all_sprouts@[i] == sps_before[i]);
                        assert(all_stems@[i] == sts_before[i]);
                    }
                }
            } else {
                proof {
                    lemma_plant_ok_later(all_sprouts@[j as int]@, all_stems@[j as int]@, names@.len(), origins[j as int], age - 1);
                }
            }
            j = j + 1;
        }
        proof {
            assert(grow_all(rs, start, o0, n as int) == Some((plants_view(all_sprouts@, all_stems@, dead@, ns), o)));
        }
        if age >= 5 {
            let ghost before = plants_view(all_sprouts@, all_stems@, dead@, ns);
            wither_all(&all_sprouts, &all_stems, &mut dead, &flat, age, Ghost(ns), Ghost(origins), Ghost(names@.len()));
            proof {
                let after = plants_view(all_sprouts@, all_stems@, dead@, ns);
                lemma_all_cells_flags(before, after);
                lemma_stem_cells_flags(before, after);
            }
        }
        age = age + 1;
    }
    proof {
        let v = plants_view(all_sprouts@, all_stems@, dead@, ns);
        assert(evolve(rs, p0, 100) == Some(v));
        assert forall|i: int| 0 <= i < v.len() implies (#[trigger] v[i]).0 == sprout_map(all_sprouts@[i]@, ns) && v[i].1 == stem_set(all_stems@[i]@) by {}
    }
    all_stems
}


/// Plant `k` grown alone from a sprout `00` at column 0.
pub open spec fn alone(s: Seq<u8>, k: int) -> Option<Seq<Plant>> {
    evolve(seq![plant_entries(s)[k]], seq![seedling(0)], 100)
}

/// Every plant grown alone has a rule for each of its sprouts.
pub open spec fn part1_ok(s: Seq<u8>) -> bool {
    forall|k: int| 0 <= k < plant_entries(s).len() ==> #[trigger] alone(s, k) is Some
}

/// The cells of the first `k` plants, each grown alone.
pub open spec fn part1_total(s: Seq<u8>, k: int) -> int
    decreases k,
{
    if k <= 0 {
        0
    } else {
        part1_total(s, k - 1) + count(alone(s, k - 1)->0)
    }
}

/// Part 1: the cells all plants take, each grown alone.
pub open spec fn part1_answer(s: Seq<u8>) -> int {
    part1_total(s, plant_entries(s).len() as int)
}

/// A row of `n` seedlings, ten columns apart.
pub open spec fn seedlings(n: nat) -> Seq<Plant> {
    Seq::new(n, |i: int| seedling(10 * i))
}

/// Part 2: all plants grown side by side.
pub open spec fn part2_result(s: Seq<u8>) -> Option<Seq<Plant>> {
    evolve(plant_entries(s), seedlings(plant_entries(s).len()), 100)
}

/// Part 2's answer: the cells they take.
pub open spec fn part2_answer(s: Seq<u8>) -> int {
    count(part2_result(s)->0)
}

proof fn lemma_count_prefix(qs: Seq<Plant>, k: int)
    requires
        0 <= k <= qs.len(),
    ensures
        0 <= count(qs.take(k)) <= count(qs),
    decreases qs.len(),
{
    if k < qs.len() {
        assert(qs.drop_last().take(k) =~= qs.take(k));
        lemma_count_prefix(qs.drop_last(), k);
    } else {
        assert(qs.take(k) =~= qs);
        if qs.len() > 0 {
            lemma_count_prefix(qs.drop_last(), k - 1);
            assert(qs.drop_last().take(k - 1) =~= qs.drop_last());
        }
    }
}

proof fn lemma_part1_total_monotone(s: Seq<u8>, k: int, m: int)
    requires
        0 <= k <= m,
    ensures
        part1_total(s, k) <= part1_total(s, m),
    decreases m - k,
{
    if k < m {
        lemma_part1_total_monotone(s, k, m - 1);
        lemma_count_nonneg(alone(s, m - 1)->0);
    }
}

proof fn lemma_count_nonneg(qs: Seq<Plant>)
    ensures
        count(qs) >= 0,
    decreases qs.len(),
{
    if qs.len() > 0 {
        lemma_count_nonneg(qs.drop_last());
    }
}

/// Counts the cells of grown plants: their sprouts and their stems.
fn count_cells(all_sprouts: &Vec<Vec<(i64, i64, usize)>>, all_stems: &Vec<Vec<(i64, i64)>>, Ghost(qs): Ghost<Seq<Plant>>, Ghost(ns): Ghost<Seq<Seq<u8>>>) -> (r: usize)
    requires
        qs.len() == all_sprouts@.len(),
        qs.len() == all_stems@.len(),
        forall|i: int| 0 <= i < qs.len() ==> (#[trigger] qs[i]).0 == sprout_map(all_sprouts@[i]@, ns) && qs[i].1 == stem_set(all_stems@[i]@),
        forall|i: int| 0 <= i < qs.len() ==> apart3(#[trigger] all_sprouts@[i]@) && apart2(all_stems@[i]@),
        count(qs) <= usize::MAX,
    ensures
        r == count(qs),
{
    let mut total: usize = 0;
    let mut i: usize = 0;
    while i < all_sprouts.len()
        invariant
            i <= qs.len(),
            qs.len() == all_sprouts@.len(),
            qs.len() == all_stems@.len(),
            forall|i: int| 0 <= i < qs.len() ==> (#[trigger] qs[i]).0 == sprout_map(all_sprouts@[i]@, ns) && qs[i].1 == stem_set(all_stems@[i]@),
            forall|i: int| 0 <= i < qs.len() ==> apart3(#[trigger] all_sprouts@[i]@) && apart2(all_stems@[i]@),
            count(qs) <= usize::MAX,
            total == count(qs.take(i as int)),
        decreases qs.len() - i,
    {
        proof {
            assert(apart3(all_sprouts@[i as int]@) && apart2(all_stems@[i as int]@));
            lemma_sprout_map(all_sprouts@[i as int]@, ns);
            lemma_stem_set(all_stems@[i as int]@);
            assert(qs.take(i + 1).drop_last() =~= qs.take(i as int));
            assert(qs.take(i + 1).last() == qs[i as int]);
            lemma_count_prefix(qs, i + 1);
        }
        total = total + all_sprouts[i].len() + all_stems[i].len();
        i = i + 1;
    }
    proof {
        assert(qs.take(qs.len() as int) =~= qs);
    }
    total
}

/// Grows each plant alone for 100 seasons and counts the cells they take.
pub fn solve_part1(input: &[u8]) -> (r: usize)
    requires
        part1_ok(input@),
        part1_answer(input@) <= usize::MAX,
    ensures
        r == part1_answer(input@),
{
    let garden = parse_input(input);
    let ghost ns = names_view(garden.names@);
    let ghost pe = plant_entries(input@);
    let mut total: usize = 0;
    let mut k: usize = 0;
    while k < garden.tables.len()
        invariant
            k <= garden.tables@.len(),
            garden_ok(&garden, input@),
            ns == names_view(garden.names@),
            pe == plant_entries(input@),
            part1_ok(input@),
            part1_answer(input@) <= usize::MAX,
            total == part1_total(input@, k as int),
        decreases garden.tables@.len() - k,
    {
        let mut owners: Vec<usize> = Vec::new();
        owners.push(k);
        let mut sprouts: Vec<Vec<(i64, i64, usize)>> = Vec::new();
        let mut first: Vec<(i64, i64, usize)> = Vec::new();
        first.push((0, 0, 0));
        sprouts.push(first);
        let ghost rs = seq![pe[k as int]];
        proof {
            let sv = start_view(sprouts@, ns);
            let l = sprouts@[0]@;
            assert(l.drop_last() =~= Seq::<(i64, i64, usize)>::empty());
            assert(sprout_map(l.drop_last(), ns) == Map::<(int, int), Seq<u8>>::empty());
            assert(sprout_map(l, ns) =~= Map::empty().insert((0int, 0int), root()));
            assert(sv =~= seq![seedling(0)]);
            assert(alone(input@, k as int) is Some);
            assert(table_ok(garden.tables@[k as int]@, ns, pe[k as int]));
        }
        let stems = evolve_p2(&garden, &owners, &mut sprouts, Ghost(rs));
        proof {
            let qs = alone(input@, k as int)->0;
            lemma_part1_total_monotone(input@, k + 1, pe.len() as int);
            assert(part1_total(input@, k + 1) == total + count(qs));
            assert(count(qs) == count(qs.drop_last()) + qs[0].0.dom().len() + qs[0].1.len());
            assert(qs.drop_last().len() == 0);
            assert(plant_ok(sprouts@[0]@, stems@[0]@, garden.names@.len(), 0, 100));
            lemma_sprout_map(sprouts@[0]@, ns);
            lemma_stem_set(stems@[0]@);
        }
        total = total + sprouts[0].len() + stems[0].len();
        k = k + 1;
    }
    total
}

/// Grows all plants side by side, ten columns apart, and counts the cells they take.
pub fn solve_part2(input: &[u8]) -> (r: usize)
    requires
        10 * plant_entries(input@).len() <= 0x4000_0000_0000_0000,
        part2_result(input@) is Some,
        part2_answer(input@) <= usize::MAX,
    ensures
        r == part2_answer(input@),
{
    let garden = parse_input(input);
    let ghost ns = names_view(garden.names@);
    let ghost pe = plant_entries(input@);
    let n: usize = garden.tables.len();
    let mut owners: Vec<usize> = Vec::new();
    let mut sprouts: Vec<Vec<(i64, i64, usize)>> = Vec::new();
    let mut i: usize = 0;
    while i < n
        invariant
            i <= n,
            n == garden.tables@.len(),
            garden_ok(&garden, input@),
            ns == names_view(garden.names@),
            pe == plant_entries(input@),
            10 * n <= 0x4000_0000_0000_0000,
            owners@.len() == i,
            sprouts@.len() == i,
            forall|k: int| 0 <= k < i ==> #[trigger] owners@[k] == k,
            forall|k: int| 0 <= k < i ==> #[trigger] sprouts@[k]@ == seq![(0i64, (10 * k) as i64, 0usize)],
        decreases n - i,
    {
        owners.push(i);
        let mut first: Vec<(i64, i64, usize)> = Vec::new();
        first.push((0, 10 * (i as i64), 0));
        sprouts.push(first);
        i = i + 1;
    }
    proof {
        let sv = start_view(sprouts@, ns);
        assert forall|k: int| 0 <= k < n implies #[trigger] sv[k] == seedlings(n as nat)[k] by {
            let l = sprouts@[k]@;
            assert(l.drop_last() =~= Seq::<(i64, i64, usize)>::empty());
            assert(sprout_map(l.drop_last(), ns) == Map::<(int, int), Seq<u8>>::empty());
            assert(sprout_map(l, ns) =~= Map::empty().insert((0int, 10 * k), root()));
        }
        assert(sv =~= seedlings(n as nat));
        assert forall|k: int| 0 <= k < owners@.len() implies #[trigger] owners@[k] < garden.tables@.len() && table_ok(garden.tables@[owners@[k] as int]@, ns, pe[k]) by {
            assert(owners@[k] == k);
        }
    }
    let stems = evolve_p2(&garden, &owners, &mut sprouts, Ghost(pe));
    proof {
        let qs = part2_result(input@)->0;
        assert forall|k: int| 0 <= k < qs.len() implies apart3(#[trigger] sprouts@[k]@) && apart2(stems@[k]@) by {
            assert(plant_ok(sprouts@[k]@, stems@[k]@, garden.names@.len(), 10 * k, 100));
        }
    }
    count_cells(&sprouts, &stems, Ghost(part2_result(input@)->0), Ghost(ns))
}


/// No cell holds sprouts of two plants.
pub open spec fn separate(ps: Seq<Plant>) -> bool {
    forall|i: int, j: int, p: (int, int)|
        0 <= i < ps.len() && 0 <= j < ps.len() && i != j && #[trigger] ps[i].0.dom().contains(p) ==> !#[trigger] ps[j].0.dom().contains(p)
}

proof fn lemma_grow_all_separate(rs: Seq<Seq<Entry>>, ps: Seq<Plant>, occ: Set<(int, int)>, j: int)
    requires
        0 <= j <= ps.len(),
        separate(ps),
        all_cells(ps).subset_of(occ),
        grow_all(rs, ps, occ, j) is Some,
    ensures
        separate((grow_all(rs, ps, occ, j)->0).0),
        all_cells((grow_all(rs, ps, occ, j)->0).0).subset_of((grow_all(rs, ps, occ, j)->0).1),
        (grow_all(rs, ps, occ, j)->0).0.len() == ps.len(),
    decreases j,
{
    if j > 0 {
        lemma_grow_all_separate(rs, ps, occ, j - 1);
        let (qs, o) = grow_all(rs, ps, occ, j - 1)->0;
        let pl = qs[j - 1];
        if !pl.2 {
            let g = grown(rs[j - 1], pl.0, o);
            let npl = (g, pl.1.union(pl.0.dom()), false);
            let nq = qs.update(j - 1, npl);
            assert(cells(npl) =~= cells(pl).union(g.dom()));
            lemma_all_cells_update(qs, j - 1, npl, g.dom());
            assert forall|a: int, b: int, p: (int, int)|
                0 <= a < nq.len() && 0 <= b < nq.len() && a != b && #[trigger] nq[a].0.dom().contains(p) implies !#[trigger] nq[b].0.dom().contains(p) by {
                if a == j - 1 {
                    lemma_grown_near(rs[j - 1], pl.0, o, p);
                    lemma_all_cells_has(qs, b);
                } else if b == j - 1 {
                    lemma_all_cells_has(qs, a);
                    assert(o.contains(p));
                    if nq[b].0.dom().contains(p) {
                        lemma_grown_near(rs[j - 1], pl.0, o, p);
                    }
                }
            }
            assert(separate(nq));
            assert(grow_all(rs, ps, occ, j) == Some((nq, o.union(g.dom()))));
        }
    }
}

/// The seasons keep plants apart: if no two plants share a sprout cell at the
/// start, none do after any number of seasons, and no plant is lost or added.
pub proof fn lemma_evolve_separate(rs: Seq<Seq<Entry>>, ps: Seq<Plant>, t: int)
    requires
        separate(ps),
        evolve(rs, ps, t) is Some,
    ensures
        separate(evolve(rs, ps, t)->0),
        (evolve(rs, ps, t)->0).len() == ps.len(),
    decreases t,
{
    if t > 0 {
        lemma_evolve_separate(rs, ps, t - 1);
        let qs = evolve(rs, ps, t - 1)->0;
        lemma_grow_all_separate(rs, qs, all_cells(qs), qs.len() as int);
        let gs = (grow_all(rs, qs, all_cells(qs), qs.len() as int)->0).0;
        let w = wither(gs, t);
        assert(w.len() == gs.len());
        assert forall|i: int| 0 <= i < w.len() implies (#[trigger] w[i]).0 == gs[i].0 by {}
    }
}

/// No cell is claimed twice: the cells of two different plants (sprouts and stems)
/// never meet, and no plant has a sprout on one of its own stems.
pub open spec fn claims_apart(ps: Seq<Plant>) -> bool {
    &&& forall|i: int, j: int, p: (int, int)|
        0 <= i < ps.len() && 0 <= j < ps.len() && i != j && #[trigger] cells(ps[i]).contains(p) ==> !#[trigger] cells(ps[j]).contains(p)
    &&& forall|i: int, p: (int, int)| 0 <= i < ps.len() && #[trigger] ps[i].0.dom().contains(p) ==> !ps[i].1.contains(p)
}

proof fn lemma_grow_all_apart(rs: Seq<Seq<Entry>>, ps: Seq<Plant>, occ: Set<(int, int)>, j: int)
    requires
        0 <= j <= ps.len(),
        claims_apart(ps),
        all_cells(ps).subset_of(occ),
        grow_all(rs, ps, occ, j) is Some,
    ensures
        claims_apart((grow_all(rs, ps, occ, j)->0).0),
        all_cells((grow_all(rs, ps, occ, j)->0).0).subset_of((grow_all(rs, ps, occ, j)->0).1),
        (grow_all(rs, ps, occ, j)->0).0.len() == ps.len(),
    decreases j,
{
    if j > 0 {
        lemma_grow_all_apart(rs, ps, occ, j - 1);
        let (qs, o) = grow_all(rs, ps, occ, j - 1)->0;
        let pl = qs[j - 1];
        if !pl.2 {
            let g = grown(rs[j - 1], pl.0, o);
            let npl = (g, pl.1.union(pl.0.dom()), false);
            let nq = qs.update(j - 1, npl);
            assert(cells(npl) =~= cells(pl).union(g.dom()));
            lemma_all_cells_update(qs, j - 1, npl, g.dom());
            lemma_all_cells_has(qs, j - 1);
            assert forall|a: int, b: int, p: (int, int)|
                0 <= a < nq.len() && 0 <= b < nq.len() && a != b && #[trigger] cells(nq[a]).contains(p) implies !#[trigger] cells(nq[b]).contains(p) by {
                if a == j - 1 {
                    lemma_all_cells_has(qs, b);
                    if g.dom().contains(p) {
                        lemma_grown_near(rs[j - 1], pl.0, o, p);
                    }
                } else if b == j - 1 {
                    lemma_all_cells_has(qs, a);
                    if g.dom().contains(p) {
                        lemma_grown_near(rs[j - 1], pl.0, o, p);
                    }
                }
            }
            assert forall|a: int, p: (int, int)| 0 <= a < nq.len() && #[trigger] nq[a].0.dom().contains(p) implies !nq[a].1.contains(p) by {
                if a == j - 1 {
                    lemma_grown_near(rs[j - 1], pl.0, o, p);
                    assert(cells(pl).contains(p) ==> o.contains(p));
                }
            }
            assert(claims_apart(nq));
            assert(grow_all(rs, ps, occ, j) == Some((nq, o.union(g.dom()))));
        }
    }
}

/// The seasons never let a cell be claimed twice: if no cell is claimed twice at the
/// start, none is after any number of seasons, and no plant is lost or added.
pub proof fn law_evolve_claims_apart(rs: Seq<Seq<Entry>>, ps: Seq<Plant>, t: int)
    requires
        claims_apart(ps),
        evolve(rs, ps, t) is Some,
    ensures
        claims_apart(evolve(rs, ps, t)->0),
        (evolve(rs, ps, t)->0).len() == ps.len(),
    decreases t,
{
    if t > 0 {
        law_evolve_claims_apart(rs, ps, t - 1);
        let qs = evolve(rs, ps, t - 1)->0;
        lemma_grow_all_apart(rs, qs, all_cells(qs), qs.len() as int);
        let gs = (grow_all(rs, qs, all_cells(qs), qs.len() as int)->0).0;
        let w = wither(gs, t);
        assert(w.len() == gs.len());
        assert forall|i: int| 0 <= i < w.len() implies (#[trigger] w[i]).0 == gs[i].0 && w[i].1 == gs[i].1 by {}
        assert forall|i: int| 0 <= i < w.len() implies #[trigger] cells(w[i]) == cells(gs[i]) by {}
    }
}

/// Part 2 never claims a cell twice: the seedlings stand on distinct cells, so after
/// the hundred seasons the sprouts and stems of different plants never meet.
pub proof fn law_part2_claims_apart(s: Seq<u8>)
    requires
        part2_result(s) is Some,
    ensures
        claims_apart(part2_result(s)->0),
{
    let n = plant_entries(s).len();
    let ps = seedlings(n);
    assert forall|i: int, j: int, p: (int, int)|
        0 <= i < ps.len() && 0 <= j < ps.len() && i != j && #[trigger] cells(ps[i]).contains(p) implies !#[trigger] cells(ps[j]).contains(p) by {
        assert(cells(ps[i]) =~= set![(0int, 10 * i)]);
        assert(cells(ps[j]) =~= set![(0int, 10 * j)]);
    }
    law_evolve_claims_apart(plant_entries(s), ps, 100);
}

/// The column of a collected sprout `(plant, (row, column))`.
pub open spec fn col(e: (usize, (i64, i64))) -> int {
    e.1.1 as int
}

/// `a` comes no later than `b` when sorted by column, the higher row first.
pub open spec fn column_le(a: (usize, (i64, i64)), b: (usize, (i64, i64))) -> bool {
    a.1.1 < b.1.1 || (a.1.1 == b.1.1 && a.1.0 >= b.1.0)
}

/// The elements whose column does not occur earlier, in order.
pub open spec fn firsts(v: Seq<(usize, (i64, i64))>) -> Seq<(usize, (i64, i64))>
    decreases v.len(),
{
    if v.len() == 0 {
        v
    } else if exists|k: int| 0 <= k < v.len() - 1 && col(v[k]) == col(v.last()) {
        firsts(v.drop_last())
    } else {
        firsts(v.drop_last()).push(v.last())
    }
}

/// Plant `i` has the highest sprout of column `x`.
pub open spec fn tops(ps: Seq<Plant>, i: int, x: int) -> bool {
    &&& 0 <= i < ps.len()
    &&& exists|y: int| #[trigger] ps[i].0.dom().contains((y, x)) && forall|j: int, y2: int| 0 <= j < ps.len() && #[trigger] ps[j].0.dom().contains((y2, x)) ==> y2 <= y
}

/// A replanting: one `(plant, column)` pair for each column that holds a sprout,
/// columns in increasing order, each with the plant that has its highest sprout.
pub open spec fn replanting(ps: Seq<Plant>, r: Seq<(int, int)>) -> bool {
    &&& forall|a: int, b: int| 0 <= a < b < r.len() ==> #[trigger] r[a].1 < #[trigger] r[b].1
    &&& forall|k: int| 0 <= k < r.len() ==> tops(ps, #[trigger] r[k].0, r[k].1)
    &&& forall|i: int, p: (int, int)| 0 <= i < ps.len() && #[trigger] ps[i].0.dom().contains(p) ==> exists|k: int| 0 <= k < r.len() && #[trigger] r[k].1 == p.1
}

/// The replanting of the plants (there is one and only one when no cell holds two
/// plants' sprouts).
pub open spec fn replant(ps: Seq<Plant>) -> Seq<(int, int)> {
    choose|r: Seq<(int, int)>| replanting(ps, r)
}

/// One round of part 3: replant the highest sprout of every column, each with the
/// rules of the plant it came from, and grow the new plants for 100 seasons.
pub open spec fn round(rs: Seq<Seq<Entry>>, ps: Seq<Plant>) -> Option<(Seq<Seq<Entry>>, Seq<Plant>)> {
    let r = replant(ps);
    let rs2 = Seq::new(r.len(), |k: int| rs[r[k].0]);
    match evolve(rs2, Seq::new(r.len(), |k: int| seedling(r[k].1)), 100) {
        None => None,
        Some(qs) => Some((rs2, qs)),
    }
}

/// Part 3: the plants of part 2, replanted and grown twice.
pub open spec fn part3_result(s: Seq<u8>) -> Option<Seq<Plant>> {
    match part2_result(s) {
        None => None,
        Some(p2) => match round(plant_entries(s), p2) {
            None => None,
            Some((rs2, q2)) => match round(rs2, q2) {
                None => None,
                Some((_rs3, q3)) => Some(q3),
            },
        },
    }
}

/// Part 3's answer: the cells the last plants take.
pub open spec fn part3_answer(s: Seq<u8>) -> int {
    count(part3_result(s)->0)
}


/// Sorted by column, the higher row first.
pub open spec fn column_sorted(v: Seq<(usize, (i64, i64))>) -> bool {
    forall|a: int, b: int| 0 <= a < b < v.len() ==> column_le(#[trigger] v[a], #[trigger] v[b])
}

proof fn lemma_firsts_from(v: Seq<(usize, (i64, i64))>)
    ensures
        forall|k: int| 0 <= k < firsts(v).len() ==> exists|idx: int| 0 <= idx < v.len() && #[trigger] firsts(v)[k] == v[idx] && forall|m: int| 0 <= m < idx ==> col(#[trigger] v[m]) != col(v[idx]),
    decreases v.len(),
{
    if v.len() > 0 {
        let t = v.drop_last();
        let e = v.last();
        let ft = firsts(t);
        lemma_firsts_from(t);
        let f = firsts(v);
        let old_col = exists|k: int| 0 <= k < v.len() - 1 && col(v[k]) == col(e);
        assert forall|k: int| 0 <= k < f.len() implies exists|idx: int| 0 <= idx < v.len() && #[trigger] f[k] == v[idx] && forall|m: int| 0 <= m < idx ==> col(#[trigger] v[m]) != col(v[idx]) by {
            if k < ft.len() {
                let idx = choose|idx: int| 0 <= idx < t.len() && #[trigger] ft[k] == t[idx] && forall|m: int| 0 <= m < idx ==> col(#[trigger] t[m]) != col(t[idx]);
                assert(f[k] == ft[k]);
                assert(t[idx] == v[idx]);
                assert forall|m: int| 0 <= m < idx implies col(#[trigger] v[m]) != col(v[idx]) by {
                    assert(t[m] == v[m]);
                }
            } else {
                assert(!old_col);
                assert(f[k] == v[v.len() - 1]);
                assert forall|m: int| 0 <= m < v.len() - 1 implies col(#[trigger] v[m]) != col(v[v.len() - 1]) by {}
            }
        }
    }
}

proof fn lemma_firsts_cover(v: Seq<(usize, (i64, i64))>)
    ensures
        forall|m: int| 0 <= m < v.len() ==> exists|k: int| 0 <= k < firsts(v).len() && col(#[trigger] firsts(v)[k]) == col(#[trigger] v[m]),
    decreases v.len(),
{
    if v.len() > 0 {
        let t = v.drop_last();
        let e = v.last();
        let ft = firsts(t);
        lemma_firsts_cover(t);
        let f = firsts(v);
        let old_col = exists|k: int| 0 <= k < v.len() - 1 && col(v[k]) == col(e);
        assert forall|m: int| 0 <= m < v.len() implies exists|k: int| 0 <= k < f.len() && col(#[trigger] f[k]) == col(#[trigger] v[m]) by {
            if m < v.len() - 1 {
                assert(t[m] == v[m]);
                let k = choose|k: int| 0 <= k < ft.len() && col(#[trigger] ft[k]) == col(#[trigger] t[m]);
                assert(f[k] == ft[k]);
            } else if old_col {
                let k0 = choose|k: int| 0 <= k < v.len() - 1 && col(v[k]) == col(e);
                assert(t[k0] == v[k0]);
                let k = choose|k: int| 0 <= k < ft.len() && col(#[trigger] ft[k]) == col(#[trigger] t[k0]);
                assert(f[k] == ft[k]);
            } else {
                assert(f[ft.len() as int] == e);
            }
        }
    }
}

proof fn lemma_firsts_sorted(v: Seq<(usize, (i64, i64))>)
    requires
        column_sorted(v),
    ensures
        forall|a: int, b: int| 0 <= a < b < firsts(v).len() ==> col(#[trigger] firsts(v)[a]) < col(#[trigger] firsts(v)[b]),
    decreases v.len(),
{
    if v.len() > 0 {
        let t = v.drop_last();
        let e = v.last();
        let ft = firsts(t);
        assert(column_sorted(t)) by {
            assert forall|a: int, b: int| 0 <= a < b < t.len() implies column_le(#[trigger] t[a], #[trigger] t[b]) by {
                assert(t[a] == v[a]);
                assert(t[b] == v[b]);
            }
        }
        lemma_firsts_sorted(t);
        lemma_firsts_from(t);
        let f = firsts(v);
        let old_col = exists|k: int| 0 <= k < v.len() - 1 && col(v[k]) == col(e);
        assert forall|a: int, b: int| 0 <= a < b < f.len() implies col(#[trigger] f[a]) < col(#[trigger] f[b]) by {
            if b < ft.len() {
                assert(f[a] == ft[a]);
                assert(f[b] == ft[b]);
            } else {
                assert(!old_col);
                assert(f[a] == ft[a]);
                assert(f[b] == e);
                let idx = choose|idx: int| 0 <= idx < t.len() && #[trigger] ft[a] == t[idx] && forall|m: int| 0 <= m < idx ==> col(#[trigger] t[m]) != col(t[idx]);
                assert(t[idx] == v[idx]);
                assert(column_le(v[idx], v[v.len() - 1]));
                assert(col(v[idx]) != col(e));
            }
        }
    }
}

proof fn lemma_sorted_unique(s1: Seq<int>, s2: Seq<int>)
    requires
        forall|a: int, b: int| 0 <= a < b < s1.len() ==> #[trigger] s1[a] < #[trigger] s1[b],
        forall|a: int, b: int| 0 <= a < b < s2.len() ==> #[trigger] s2[a] < #[trigger] s2[b],
        forall|x: int| s1.contains(x) <==> s2.contains(x),
    ensures
        s1 == s2,
    decreases s1.len(),
{
    if s1.len() == 0 {
        if s2.len() > 0 {
            assert(s2.contains(s2[0]));
        }
        assert(s1 =~= s2);
    } else {
        assert(s1.contains(s1[0]));
        assert(s2.len() > 0);
        assert(s2.contains(s2[0]));
        let i2 = choose|i: int| 0 <= i < s2.len() && s2[i] == s1[0];
        let i1 = choose|i: int| 0 <= i < s1.len() && s1[i] == s2[0];
        if i2 > 0 {
            assert(s2[0] < s2[i2]);
        }
        if i1 > 0 {
            assert(s1[0] < s1[i1]);
        }
        assert(s1[0] == s2[0]);
        let t1 = s1.drop_first();
        let t2 = s2.drop_first();
        assert forall|x: int| t1.contains(x) <==> t2.contains(x) by {
            if t1.contains(x) {
                let i = choose|i: int| 0 <= i < t1.len() && t1[i] == x;
                assert(s1[i + 1] == x);
                assert(s1[0] < s1[i + 1]);
                assert(s1.contains(x));
                let j = choose|j: int| 0 <= j < s2.len() && s2[j] == x;
                assert(j != 0);
                assert(t2[j - 1] == x);
            }
            if t2.contains(x) {
                let i = choose|i: int| 0 <= i < t2.len() && t2[i] == x;
                assert(s2[i + 1] == x);
                assert(s2[0] < s2[i + 1]);
                assert(s2.contains(x));
                let j = choose|j: int| 0 <= j < s1.len() && s1[j] == x;
                assert(j != 0);
                assert(t1[j - 1] == x);
            }
        }
        assert forall|a: int, b: int| 0 <= a < b < t1.len() implies #[trigger] t1[a] < #[trigger] t1[b] by {
            assert(s1[a + 1] < s1[b + 1]);
        }
        assert forall|a: int, b: int| 0 <= a < b < t2.len() implies #[trigger] t2[a] < #[trigger] t2[b] by {
            assert(s2[a + 1] < s2[b + 1]);
        }
        lemma_sorted_unique(t1, t2);
        assert(s1 =~= s2) by {
            assert forall|k: int| 0 <= k < s1.len() implies s1[k] == s2[k] by {
                if k > 0 {
                    assert(t1[k - 1] == t2[k - 1]);
                }
            }
        }
    }
}

/// The columns of a replanting.
pub open spec fn columns(r: Seq<(int, int)>) -> Seq<int> {
    r.map_values(|e: (int, int)| e.1)
}

/// A replanting is determined by the plants: two sequences that both meet the
/// rules of a replanting are equal.
pub proof fn lemma_replanting_unique(ps: Seq<Plant>, r1: Seq<(int, int)>, r2: Seq<(int, int)>)
    requires
        separate(ps),
        replanting(ps, r1),
        replanting(ps, r2),
    ensures
        r1 == r2,
{
    let c1 = columns(r1);
    let c2 = columns(r2);
    assert forall|x: int| c1.contains(x) implies c2.contains(x) by {
        let k = choose|k: int| 0 <= k < c1.len() && c1[k] == x;
        assert(tops(ps, r1[k].0, r1[k].1));
        let y = choose|y: int| #[trigger] ps[r1[k].0].0.dom().contains((y, x)) && forall|j: int, y2: int| 0 <= j < ps.len() && #[trigger] ps[j].0.dom().contains((y2, x)) ==> y2 <= y;
        let m = choose|m: int| 0 <= m < r2.len() && #[trigger] r2[m].1 == (y, x).1;
        assert(c2[m] == x);
    }
    assert forall|x: int| c2.contains(x) implies c1.contains(x) by {
        let k = choose|k: int| 0 <= k < c2.len() && c2[k] == x;
        assert(tops(ps, r2[k].0, r2[k].1));
        let y = choose|y: int| #[trigger] ps[r2[k].0].0.dom().contains((y, x)) && forall|j: int, y2: int| 0 <= j < ps.len() && #[trigger] ps[j].0.dom().contains((y2, x)) ==> y2 <= y;
        let m = choose|m: int| 0 <= m < r1.len() && #[trigger] r1[m].1 == (y, x).1;
        assert(c1[m] == x);
    }
    assert forall|a: int, b: int| 0 <= a < b < c1.len() implies #[trigger] c1[a] < #[trigger] c1[b] by {
        assert(r1[a].1 < r1[b].1);
    }
    assert forall|a: int, b: int| 0 <= a < b < c2.len() implies #[trigger] c2[a] < #[trigger] c2[b] by {
        assert(r2[a].1 < r2[b].1);
    }
    lemma_sorted_unique(c1, c2);
    assert(c1.len() == r1.len());
    assert(c2.len() == r2.len());
    assert(r1.len() == r2.len());
    assert forall|k: int| 0 <= k < r1.len() implies r1[k] == r2[k] by {
        assert(c1[k] == c2[k]);
        let x = r1[k].1;
        assert(tops(ps, r1[k].0, x));
        assert(tops(ps, r2[k].0, x));
        let i1 = r1[k].0;
        let i2 = r2[k].0;
        let y1 = choose|y: int| #[trigger] ps[i1].0.dom().contains((y, x)) && forall|j: int, y2: int| 0 <= j < ps.len() && #[trigger] ps[j].0.dom().contains((y2, x)) ==> y2 <= y;
        let y2 = choose|y: int| #[trigger] ps[i2].0.dom().contains((y, x)) && forall|j: int, y2: int| 0 <= j < ps.len() && #[trigger] ps[j].0.dom().contains((y2, x)) ==> y2 <= y;
        assert(y1 == y2);
        if i1 != i2 {
            assert(!ps[i2].0.dom().contains((y1, x)));
        }
    }
    assert(r1 =~= r2);
}


/// The sort key of a collected sprout: its column, then its row from the highest.
fn column_key(e: &(usize, (i64, i64))) -> (k: (i64, i128))
    ensures
        k.0 == col(*e),
        k.1 == -(e.1.0 as int),
{
    let (_, (y, x)) = *e;
    (x, -(y as i128))
}

/// Calls `Itertools::sorted_by_key` with `column_key`: the result holds the same
/// elements, sorted by column and, within a column, from the highest row. That the
/// crate's sort is stable is not stated here.
#[verifier::external_body]
fn sorted_by_column(v: Vec<(usize, (i64, i64))>) -> (r: Vec<(usize, (i64, i64))>)
    ensures
        r@.to_multiset() == v@.to_multiset(),
        column_sorted(r@),
{
    v.into_iter().sorted_by_key(|e| column_key(e)).collect()
}

/// Calls `Itertools::unique_by` keyed by the column: it keeps, in order, each
/// element whose column has not occurred before.
#[verifier::external_body]
fn first_of_each_column(v: Vec<(usize, (i64, i64))>) -> (r: Vec<(usize, (i64, i64))>)
    ensures
        r@ == firsts(v@),
{
    v.into_iter().unique_by(|&(_, (_, x))| x).collect()
}

/// Every sprout as `(plant, (row, column))`, plant by plant.
fn collect_sprouts(all_sprouts: &Vec<Vec<(i64, i64, usize)>>) -> (v: Vec<(usize, (i64, i64))>)
    ensures
        forall|m: int| 0 <= m < v@.len() ==> (#[trigger] v@[m]).0 < all_sprouts@.len() && exists|k: int| 0 <= k < all_sprouts@[v@[m].0 as int]@.len() && #[trigger] pos3(all_sprouts@[v@[m].0 as int]@[k]) == (v@[m].1.0 as int, v@[m].1.1 as int),
        forall|i: int, k: int| 0 <= i < all_sprouts@.len() && 0 <= k < all_sprouts@[i]@.len() ==> v@.contains((i as usize, (#[trigger] all_sprouts@[i]@[k].0, all_sprouts@[i]@[k].1))),
{
    let mut v: Vec<(usize, (i64, i64))> = Vec::new();
    let mut i: usize = 0;
    while i < all_sprouts.len()
        invariant
            i <= all_sprouts@.len(),
            forall|m: int| 0 <= m < v@.len() ==> (#[trigger] v@[m]).0 < all_sprouts@.len() && exists|k: int| 0 <= k < all_sprouts@[v@[m].0 as int]@.len() && #[trigger] pos3(all_sprouts@[v@[m].0 as int]@[k]) == (v@[m].1.0 as int, v@[m].1.1 as int),
            forall|a: int, k: int| 0 <= a < i && 0 <= k < all_sprouts@[a]@.len() ==> v@.contains((a as usize, (#[trigger] all_sprouts@[a]@[k].0, all_sprouts@[a]@[k].1))),
        decreases all_sprouts@.len() - i,
    {
        let mut k: usize = 0;
        while k < all_sprouts[i].len()
            invariant
                i < all_sprouts@.len(),
                k <= all_sprouts@[i as int]@.len(),
                forall|m: int| 0 <= m < v@.len() ==> (#[trigger] v@[m]).0 < all_sprouts@.len() && exists|k: int| 0 <= k < all_sprouts@[v@[m].0 as int]@.len() && #[trigger] pos3(all_sprouts@[v@[m].0 as int]@[k]) == (v@[m].1.0 as int, v@[m].1.1 as int),
                forall|a: int, k: int| 0 <= a < i && 0 <= k < all_sprouts@[a]@.len() ==> v@.contains((a as usize, (#[trigger] all_sprouts@[a]@[k].0, all_sprouts@[a]@[k].1))),
                forall|q: int| 0 <= q < k ==> v@.contains((i, (#[trigger] all_sprouts@[i as int]@[q].0, all_sprouts@[i as int]@[q].1))),
            decreases all_sprouts@[i as int]@.len() - k,
        {
            let (y, x, _id) = all_sprouts[i][k];
            let ghost old_v = v@;
            v.push((i, (y, x)));
            proof {
                assert(v@[old_v.len() as int] == (i, (y, x)));
                assert forall|m: int| 0 <= m < v@.len() implies (#[trigger] v@[m]).0 < all_sprouts@.len() && exists|k: int| 0 <= k < all_sprouts@[v@[m].0 as int]@.len() && #[trigger] pos3(all_sprouts@[v@[m].0 as int]@[k]) == (v@[m].1.0 as int, v@[m].1.1 as int) by {
                    if m < old_v.len() {
                        assert(v@[m] == old_v[m]);
                    } else {
                        let kk = k as int;
                        assert(v@[m].0 == i);
                        assert(pos3(all_sprouts@[v@[m].0 as int]@[kk]) == (v@[m].1.0 as int, v@[m].1.1 as int));
                    }
                }
                assert forall|a: int, q: int| 0 <= a < i && 0 <= q < all_sprouts@[a]@.len() implies v@.contains((a as usize, (#[trigger] all_sprouts@[a]@[q].0, all_sprouts@[a]@[q].1))) by {
                    let w = (a as usize, (all_sprouts@[a]@[q].0, all_sprouts@[a]@[q].1));
                    assert(old_v.contains(w));
                    let z = choose|z: int| 0 <= z < old_v.len() && old_v[z] == w;
                    assert(v@[z] == w);
                }
                assert forall|q: int| 0 <= q < k + 1 implies v@.contains((i, (#[trigger] all_sprouts@[i as int]@[q].0, all_sprouts@[i as int]@[q].1))) by {
                    let w = (i, (all_sprouts@[i as int]@[q].0, all_sprouts@[i as int]@[q].1));
                    if q < k {
                        assert(old_v.contains(w));
                        let z = choose|z: int| 0 <= z < old_v.len() && old_v[z] == w;
                        assert(v@[z] == w);
                    } else {
                        assert(v@[old_v.len() as int] == w);
                    }
                }
            }
            k = k + 1;
        }
        i = i + 1;
    }
    v
}

/// The cell of a collected sprout.
pub open spec fn cell_of(e: (usize, (i64, i64))) -> (int, int) {
    (e.1.0 as int, e.1.1 as int)
}

/// Some plant has a sprout in column `x`.
pub open spec fn column_used(ps: Seq<Plant>, x: int) -> bool {
    exists|i: int, y: int| 0 <= i < ps.len() && #[trigger] ps[i].0.dom().contains((y, x))
}

proof fn lemma_same_elements(a: Seq<(usize, (i64, i64))>, b: Seq<(usize, (i64, i64))>)
    requires
        a.to_multiset() == b.to_multiset(),
    ensures
        forall|e: (usize, (i64, i64))| a.contains(e) <==> b.contains(e),
{
    a.to_multiset_ensures();
    b.to_multiset_ensures();
    assert forall|e: (usize, (i64, i64))| a.contains(e) <==> b.contains(e) by {
        let ca = a.to_multiset().count(e);
        let cb = b.to_multiset().count(e);
        assert(ca == cb);
        assert(a.contains(e) <==> ca > 0);
        assert(b.contains(e) <==> cb > 0);
    }
}

/// The `(plant, column)` pairs of collected sprouts.
pub open spec fn pairs_of_firsts(fv: Seq<(usize, (i64, i64))>) -> Seq<(int, int)> {
    Seq::new(fv.len(), |k: int| (fv[k].0 as int, fv[k].1.1 as int))
}

/// The sorted list holds exactly the plants' sprouts.
proof fn lemma_sorted_sprouts(all_sprouts: Vec<Vec<(i64, i64, usize)>>, ps: Seq<Plant>, ns: Seq<Seq<u8>>, vv: Seq<(usize, (i64, i64))>, sv: Seq<(usize, (i64, i64))>)
    requires
        ps.len() == all_sprouts@.len(),
        all_sprouts@.len() <= usize::MAX,
        forall|i: int| 0 <= i < ps.len() ==> (#[trigger] ps[i]).0 == sprout_map(all_sprouts@[i]@, ns),
        forall|i: int| 0 <= i < ps.len() ==> apart3(#[trigger] all_sprouts@[i]@),
        forall|m: int| 0 <= m < vv.len() ==> (#[trigger] vv[m]).0 < all_sprouts@.len() && exists|k: int| 0 <= k < all_sprouts@[vv[m].0 as int]@.len() && #[trigger] pos3(all_sprouts@[vv[m].0 as int]@[k]) == (vv[m].1.0 as int, vv[m].1.1 as int),
        forall|i: int, k: int| 0 <= i < all_sprouts@.len() && 0 <= k < all_sprouts@[i]@.len() ==> vv.contains((i as usize, (#[trigger] all_sprouts@[i]@[k].0, all_sprouts@[i]@[k].1))),
        sv.to_multiset() == vv.to_multiset(),
    ensures
        forall|m: int| 0 <= m < sv.len() ==> (#[trigger] sv[m]).0 < ps.len() && ps[sv[m].0 as int].0.dom().contains(cell_of(sv[m])),
        forall|i: int, p: (int, int)| 0 <= i < ps.len() && #[trigger] ps[i].0.dom().contains(p) ==> exists|m: int| 0 <= m < sv.len() && sv[m].0 == i && cell_of(#[trigger] sv[m]) == p,
{
    lemma_same_elements(sv, vv);
    assert forall|m: int| 0 <= m < sv.len() implies (#[trigger] sv[m]).0 < ps.len() && ps[sv[m].0 as int].0.dom().contains(cell_of(sv[m])) by {
        assert(sv.contains(sv[m]));
        assert(vv.contains(sv[m]));
        let z = choose|z: int| 0 <= z < vv.len() && vv[z] == sv[m];
        let i = vv[z].0 as int;
        let k = choose|k: int| 0 <= k < all_sprouts@[i]@.len() && #[trigger] pos3(all_sprouts@[i]@[k]) == (vv[z].1.0 as int, vv[z].1.1 as int);
        lemma_sprout_map(all_sprouts@[i]@, ns);
    }
    assert forall|i: int, p: (int, int)| 0 <= i < ps.len() && #[trigger] ps[i].0.dom().contains(p) implies exists|m: int| 0 <= m < sv.len() && sv[m].0 == i && cell_of(#[trigger] sv[m]) == p by {
        lemma_sprout_map(all_sprouts@[i]@, ns);
        let k = choose|k: int| 0 <= k < all_sprouts@[i]@.len() && pos3(all_sprouts@[i]@[k]) == p;
        let e = (i as usize, (all_sprouts@[i]@[k].0, all_sprouts@[i]@[k].1));
        assert(vv.contains(e));
        assert(sv.contains(e));
        let m = choose|m: int| 0 <= m < sv.len() && sv[m] == e;
        assert(cell_of(sv[m]) == p);
    }
}

/// The first sprout of each column of the sorted list is that column's highest.
proof fn lemma_rx_tops(ps: Seq<Plant>, sv: Seq<(usize, (i64, i64))>, fv: Seq<(usize, (i64, i64))>)
    requires
        forall|m: int| 0 <= m < sv.len() ==> (#[trigger] sv[m]).0 < ps.len() && ps[sv[m].0 as int].0.dom().contains(cell_of(sv[m])),
        forall|i: int, p: (int, int)| 0 <= i < ps.len() && #[trigger] ps[i].0.dom().contains(p) ==> exists|m: int| 0 <= m < sv.len() && sv[m].0 == i && cell_of(#[trigger] sv[m]) == p,
        column_sorted(sv),
        fv == firsts(sv),
    ensures
        forall|k: int| 0 <= k < fv.len() ==> tops(ps, #[trigger] pairs_of_firsts(fv)[k].0, pairs_of_firsts(fv)[k].1),
{
    lemma_firsts_from(sv);
    let rx = pairs_of_firsts(fv);
    assert forall|k: int| 0 <= k < fv.len() implies tops(ps, #[trigger] rx[k].0, rx[k].1) by {
        let idx = choose|idx: int| 0 <= idx < sv.len() && #[trigger] fv[k] == sv[idx] && forall|q: int| 0 <= q < idx ==> col(#[trigger] sv[q]) != col(sv[idx]);
        let x = rx[k].1;
        let y = sv[idx].1.0 as int;
        assert(sv[idx].0 < ps.len());
        assert(ps[rx[k].0].0.dom().contains((y, x)));
        assert forall|j: int, y2: int| 0 <= j < ps.len() && #[trigger] ps[j].0.dom().contains((y2, x)) implies y2 <= y by {
            let m = choose|m: int| 0 <= m < sv.len() && sv[m].0 == j && cell_of(#[trigger] sv[m]) == (y2, x);
            if m < idx {
                assert(col(sv[m]) != col(sv[idx]));
            } else if m > idx {
                assert(column_le(sv[idx], sv[m]));
            }
        }
    }
}

/// Every column with a sprout occurs among the firsts.
proof fn lemma_rx_cover(ps: Seq<Plant>, sv: Seq<(usize, (i64, i64))>, fv: Seq<(usize, (i64, i64))>)
    requires
        forall|i: int, p: (int, int)| 0 <= i < ps.len() && #[trigger] ps[i].0.dom().contains(p) ==> exists|m: int| 0 <= m < sv.len() && sv[m].0 == i && cell_of(#[trigger] sv[m]) == p,
        fv == firsts(sv),
    ensures
        forall|i: int, p: (int, int)| 0 <= i < ps.len() && #[trigger] ps[i].0.dom().contains(p) ==> exists|k: int| 0 <= k < fv.len() && #[trigger] pairs_of_firsts(fv)[k].1 == p.1,
{
    lemma_firsts_cover(sv);
    let rx = pairs_of_firsts(fv);
    assert forall|i: int, p: (int, int)| 0 <= i < ps.len() && #[trigger] ps[i].0.dom().contains(p) implies exists|k: int| 0 <= k < fv.len() && #[trigger] rx[k].1 == p.1 by {
        let m = choose|m: int| 0 <= m < sv.len() && sv[m].0 == i && cell_of(#[trigger] sv[m]) == p;
        let k = choose|k: int| 0 <= k < fv.len() && col(#[trigger] fv[k]) == col(#[trigger] sv[m]);
        assert(rx[k].1 == p.1);
    }
}

proof fn lemma_replanting_rx(ps: Seq<Plant>, sv: Seq<(usize, (i64, i64))>, fv: Seq<(usize, (i64, i64))>)
    requires
        forall|m: int| 0 <= m < sv.len() ==> (#[trigger] sv[m]).0 < ps.len() && ps[sv[m].0 as int].0.dom().contains(cell_of(sv[m])),
        forall|i: int, p: (int, int)| 0 <= i < ps.len() && #[trigger] ps[i].0.dom().contains(p) ==> exists|m: int| 0 <= m < sv.len() && sv[m].0 == i && cell_of(#[trigger] sv[m]) == p,
        column_sorted(sv),
        fv == firsts(sv),
    ensures
        replanting(ps, pairs_of_firsts(fv)),
        forall|m: int| 0 <= m < fv.len() ==> (#[trigger] fv[m]).0 < ps.len(),
{
    lemma_firsts_from(sv);
    lemma_firsts_sorted(sv);
    lemma_rx_tops(ps, sv, fv);
    lemma_rx_cover(ps, sv, fv);
    let rx = pairs_of_firsts(fv);
    assert forall|m: int| 0 <= m < fv.len() implies (#[trigger] fv[m]).0 < ps.len() by {
        let idx = choose|idx: int| 0 <= idx < sv.len() && #[trigger] fv[m] == sv[idx] && forall|q: int| 0 <= q < idx ==> col(#[trigger] sv[q]) != col(sv[idx]);
        assert(sv[idx].0 < ps.len());
    }
    assert forall|a: int, b: int| 0 <= a < b < rx.len() implies #[trigger] rx[a].1 < #[trigger] rx[b].1 by {
        assert(col(fv[a]) < col(fv[b]));
    }
    assert forall|k: int| 0 <= k < rx.len() implies tops(ps, #[trigger] rx[k].0, rx[k].1) by {
        assert(tops(ps, pairs_of_firsts(fv)[k].0, pairs_of_firsts(fv)[k].1));
    }
}

/// The sorted, deduplicated sprouts are the replanting of the plants.
proof fn lemma_replanting_found(all_sprouts: Vec<Vec<(i64, i64, usize)>>, ps: Seq<Plant>, ns: Seq<Seq<u8>>, vv: Seq<(usize, (i64, i64))>, sv: Seq<(usize, (i64, i64))>, fv: Seq<(usize, (i64, i64))>)
    requires
        ps.len() == all_sprouts@.len(),
        all_sprouts@.len() <= usize::MAX,
        separate(ps),
        forall|i: int| 0 <= i < ps.len() ==> (#[trigger] ps[i]).0 == sprout_map(all_sprouts@[i]@, ns),
        forall|i: int| 0 <= i < ps.len() ==> apart3(#[trigger] all_sprouts@[i]@),
        forall|m: int| 0 <= m < vv.len() ==> (#[trigger] vv[m]).0 < all_sprouts@.len() && exists|k: int| 0 <= k < all_sprouts@[vv[m].0 as int]@.len() && #[trigger] pos3(all_sprouts@[vv[m].0 as int]@[k]) == (vv[m].1.0 as int, vv[m].1.1 as int),
        forall|i: int, k: int| 0 <= i < all_sprouts@.len() && 0 <= k < all_sprouts@[i]@.len() ==> vv.contains((i as usize, (#[trigger] all_sprouts@[i]@[k].0, all_sprouts@[i]@[k].1))),
        sv.to_multiset() == vv.to_multiset(),
        column_sorted(sv),
        fv == firsts(sv),
    ensures
        replanting(ps, replant(ps)),
        replant(ps) == pairs_of_firsts(fv),
        forall|m: int| 0 <= m < fv.len() ==> (#[trigger] fv[m]).0 < ps.len(),
{
    lemma_sorted_sprouts(all_sprouts, ps, ns, vv, sv);
    lemma_replanting_rx(ps, sv, fv);
    lemma_replanting_unique(ps, replant(ps), pairs_of_firsts(fv));
}

/// The replanting of grown plants: for each column with a sprout, in increasing
/// order, a new sprout `00` at row 0 of that column, with the rules of the plant
/// that has the column's highest sprout.
fn replant_all(all_sprouts: &Vec<Vec<(i64, i64, usize)>>, owners: &Vec<usize>, Ghost(ps): Ghost<Seq<Plant>>, Ghost(ns): Ghost<Seq<Seq<u8>>>) -> (r: (Vec<usize>, Vec<Vec<(i64, i64, usize)>>))
    requires
        ps.len() == all_sprouts@.len(),
        owners@.len() == all_sprouts@.len(),
        separate(ps),
        forall|i: int| 0 <= i < ps.len() ==> (#[trigger] ps[i]).0 == sprout_map(all_sprouts@[i]@, ns),
        forall|i: int| 0 <= i < ps.len() ==> apart3(#[trigger] all_sprouts@[i]@),
    ensures
        r.0@.len() == replant(ps).len(),
        r.1@.len() == replant(ps).len(),
        replanting(ps, replant(ps)),
        forall|k: int| 0 <= k < r.0@.len() ==> 0 <= #[trigger] replant(ps)[k].0 < owners@.len() && r.0@[k] == owners@[replant(ps)[k].0],
        forall|k: int| 0 <= k < r.1@.len() ==> (#[trigger] r.1@[k])@ == seq![(0i64, replant(ps)[k].1 as i64, 0usize)],
        forall|k: int| 0 <= k < r.1@.len() ==> #[trigger] column_used(ps, replant(ps)[k].1),
{
    let n: usize = all_sprouts.len();
    let v = collect_sprouts(all_sprouts);
    let ghost vv = v@;
    let sorted = sorted_by_column(v);
    let ghost sv = sorted@;
    let f = first_of_each_column(sorted);
    let ghost fv = f@;
    let ghost rx = pairs_of_firsts(fv);
    proof {
        lemma_replanting_found(*all_sprouts, ps, ns, vv, sv, fv);
    }
    let mut new_owners: Vec<usize> = Vec::new();
    let mut new_sprouts: Vec<Vec<(i64, i64, usize)>> = Vec::new();
    let mut k: usize = 0;
    while k < f.len()
        invariant
            k <= fv.len(),
            fv == f@,
            rx == replant(ps),
            rx == pairs_of_firsts(fv),
            owners@.len() == ps.len(),
            forall|m: int| 0 <= m < fv.len() ==> (#[trigger] fv[m]).0 < ps.len(),
            new_owners@.len() == k,
            new_sprouts@.len() == k,
            forall|q: int| 0 <= q < k ==> 0 <= #[trigger] rx[q].0 < owners@.len() && new_owners@[q] == owners@[rx[q].0],
            forall|q: int| 0 <= q < k ==> (#[trigger] new_sprouts@[q])@ == seq![(0i64, rx[q].1 as i64, 0usize)],
        decreases fv.len() - k,
    {
        let (i, (_y, x)) = f[k];
        new_owners.push(owners[i]);
        let mut one: Vec<(i64, i64, usize)> = Vec::new();
        one.push((0, x, 0));
        let ghost old_s = new_sprouts@;
        new_sprouts.push(one);
        proof {
            assert(new_sprouts@[k as int]@ =~= seq![(0i64, rx[k as int].1 as i64, 0usize)]);
            assert forall|q: int| 0 <= q < k + 1 implies (#[trigger] new_sprouts@[q])@ == seq![(0i64, rx[q].1 as i64, 0usize)] by {
                if q < k {
                    assert(new_sprouts@[q] == old_s[q]);
                }
            }
        }
        k = k + 1;
    }
    proof {
        assert forall|k: int| 0 <= k < new_sprouts@.len() implies #[trigger] column_used(ps, replant(ps)[k].1) by {
            assert(tops(ps, rx[k].0, rx[k].1));
        }
    }
    (new_owners, new_sprouts)
}


/// Sprouts at row 0 of distinct columns: no cell holds two plants' sprouts.
proof fn lemma_seedlings_separate(xs: Seq<int>)
    requires
        forall|a: int, b: int| 0 <= a < xs.len() && 0 <= b < xs.len() && a != b ==> #[trigger] xs[a] != #[trigger] xs[b],
    ensures
        separate(Seq::new(xs.len(), |k: int| seedling(xs[k]))),
{
    let ps = Seq::new(xs.len(), |k: int| seedling(xs[k]));
    assert forall|i: int, j: int, p: (int, int)|
        0 <= i < ps.len() && 0 <= j < ps.len() && i != j && #[trigger] ps[i].0.dom().contains(p) implies !#[trigger] ps[j].0.dom().contains(p) by {
        assert(xs[i] != xs[j]);
    }
}

/// One round of part 3 on grown plants: replant and grow again.
fn grow_round(
    garden: &Garden,
    owners: &Vec<usize>,
    all_sprouts: &Vec<Vec<(i64, i64, usize)>>,
    Ghost(rs): Ghost<Seq<Seq<Entry>>>,
    Ghost(ps): Ghost<Seq<Plant>>,
    Ghost(bound): Ghost<int>,
) -> (r: (Vec<usize>, Vec<Vec<(i64, i64, usize)>>, Vec<Vec<(i64, i64)>>))
    requires
        distinct(names_view(garden.names@)),
        names_view(garden.names@)[0] == root(),
        garden.names@.len() > 0,
        separate(ps),
        ps.len() == all_sprouts@.len(),
        owners@.len() == all_sprouts@.len(),
        rs.len() == all_sprouts@.len(),
        forall|i: int| 0 <= i < ps.len() ==> (#[trigger] ps[i]).0 == sprout_map(all_sprouts@[i]@, names_view(garden.names@)),
        forall|i: int| 0 <= i < ps.len() ==> apart3(#[trigger] all_sprouts@[i]@),
        forall|i: int| 0 <= i < owners@.len() ==> #[trigger] owners@[i] < garden.tables@.len() && table_ok(garden.tables@[owners@[i] as int]@, names_view(garden.names@), rs[i]),
        forall|i: int, k: int| 0 <= i < all_sprouts@.len() && 0 <= k < all_sprouts@[i]@.len() ==> -bound <= #[trigger] all_sprouts@[i]@[k].1 <= bound,
        0 <= bound <= 0x4000_0000_0000_0000,
        round(rs, ps) is Some,
    ensures
        round(rs, ps) matches Some((rs2, qs)) && {
            &&& r.0@.len() == rs2.len()
            &&& r.1@.len() == rs2.len()
            &&& r.2@.len() == rs2.len()
            &&& qs.len() == rs2.len()
            &&& separate(qs)
            &&& forall|i: int| 0 <= i < r.0@.len() ==> #[trigger] r.0@[i] < garden.tables@.len() && table_ok(garden.tables@[r.0@[i] as int]@, names_view(garden.names@), rs2[i])
            &&& forall|i: int| 0 <= i < qs.len() ==> (#[trigger] qs[i]).0 == sprout_map(r.1@[i]@, names_view(garden.names@)) && qs[i].1 == stem_set(r.2@[i]@)
            &&& forall|i: int| 0 <= i < qs.len() ==> apart3(#[trigger] r.1@[i]@) && apart2(r.2@[i]@)
            &&& forall|i: int, k: int| 0 <= i < r.1@.len() && 0 <= k < r.1@[i]@.len() ==> -(bound + 100) <= #[trigger] r.1@[i]@[k].1 <= bound + 100
        },
{
    let ghost ns = names_view(garden.names@);
    let (owners2, mut sprouts2) = replant_all(all_sprouts, owners, Ghost(ps), Ghost(ns));
    let ghost rp = replant(ps);
    let ghost rs2 = Seq::new(rp.len(), |k: int| rs[rp[k].0]);
    let ghost start2 = Seq::new(rp.len(), |k: int| seedling(rp[k].1));
    proof {
        let sv = start_view(sprouts2@, ns);
        assert forall|k: int| 0 <= k < rp.len() implies #[trigger] sv[k] == start2[k] by {
            let l = sprouts2@[k]@;
            assert(l.drop_last() =~= Seq::<(i64, i64, usize)>::empty());
            assert(sprout_map(l.drop_last(), ns) == Map::<(int, int), Seq<u8>>::empty());
            assert(column_used(ps, rp[k].1));
            let (i, y) = choose|i: int, y: int| 0 <= i < ps.len() && #[trigger] ps[i].0.dom().contains((y, rp[k].1));
            lemma_sprout_map(all_sprouts@[i]@, ns);
            let w = choose|w: int| 0 <= w < all_sprouts@[i]@.len() && pos3(all_sprouts@[i]@[w]) == (y, rp[k].1);
            assert(-bound <= all_sprouts@[i]@[w].1 <= bound);
            assert((rp[k].1 as i64) as int == rp[k].1);
            assert(sprout_map(l, ns) =~= Map::empty().insert((0int, rp[k].1), root()));
        }
        assert(sv =~= start2);
        assert forall|k: int| 0 <= k < owners2@.len() implies #[trigger] owners2@[k] < garden.tables@.len() && table_ok(garden.tables@[owners2@[k] as int]@, ns, rs2[k]) by {
            assert(0 <= rp[k].0 < owners@.len());
            assert(owners2@[k] == owners@[rp[k].0]);
        }
        assert forall|k: int| 0 <= k < sprouts2@.len() implies {
            let l = #[trigger] sprouts2@[k]@;
            &&& l.len() == 1
            &&& l[0].0 == 0
            &&& -0x4000_0000_0000_0000 <= l[0].1 <= 0x4000_0000_0000_0000
            &&& l[0].2 < garden.names@.len()
        } by {
            assert(column_used(ps, rp[k].1));
            let (i, y) = choose|i: int, y: int| 0 <= i < ps.len() && #[trigger] ps[i].0.dom().contains((y, rp[k].1));
            lemma_sprout_map(all_sprouts@[i]@, ns);
            let w = choose|w: int| 0 <= w < all_sprouts@[i]@.len() && pos3(all_sprouts@[i]@[w]) == (y, rp[k].1);
            assert(-bound <= all_sprouts@[i]@[w].1 <= bound);
        }
        let xs = Seq::new(rp.len(), |k: int| rp[k].1);
        assert forall|a: int, b: int| 0 <= a < xs.len() && 0 <= b < xs.len() && a != b implies #[trigger] xs[a] != #[trigger] xs[b] by {
            if a < b {
                assert(rp[a].1 < rp[b].1);
            } else {
                assert(rp[b].1 < rp[a].1);
            }
        }
        lemma_seedlings_separate(xs);
        assert(start2 =~= Seq::new(xs.len(), |k: int| seedling(xs[k])));
        assert(round(rs, ps) == Some((rs2, evolve(rs2, start2, 100)->0)));
        lemma_evolve_separate(rs2, start2, 100);
    }
    let ghost init2 = sprouts2@;
    let stems2 = evolve_p2(garden, &owners2, &mut sprouts2, Ghost(rs2));
    proof {
        let qs = evolve(rs2, start2, 100)->0;
        assert forall|i: int| 0 <= i < qs.len() implies apart3(#[trigger] sprouts2@[i]@) && apart2(stems2@[i]@) by {
            assert(plant_ok(sprouts2@[i]@, stems2@[i]@, garden.names@.len(), init2[i]@[0].1 as int, 100));
        }
        assert forall|i: int, k: int| 0 <= i < sprouts2@.len() && 0 <= k < sprouts2@[i]@.len() implies -(bound + 100) <= #[trigger] sprouts2@[i]@[k].1 <= bound + 100 by {
            assert(plant_ok(sprouts2@[i]@, stems2@[i]@, garden.names@.len(), init2[i]@[0].1 as int, 100));
            assert(near(pos3(sprouts2@[i]@[k]), init2[i]@[0].1 as int, 100));
            assert(init2[i]@ == seq![(0i64, rp[i].1 as i64, 0usize)]);
            assert(column_used(ps, rp[i].1));
            let (j, y) = choose|j: int, y: int| 0 <= j < ps.len() && #[trigger] ps[j].0.dom().contains((y, rp[i].1));
            lemma_sprout_map(all_sprouts@[j]@, ns);
            let w = choose|w: int| 0 <= w < all_sprouts@[j]@.len() && pos3(all_sprouts@[j]@[w]) == (y, rp[i].1);
            assert(-bound <= all_sprouts@[j]@[w].1 <= bound);
        }
    }
    (owners2, sprouts2, stems2)
}

/// Grows the plants of part 2, then twice replants the highest sprout of every
/// column, with the rules of its plant, and grows the new plants; counts the cells
/// of the last plants.
pub fn solve_part3(input: &[u8]) -> (r: usize)
    requires
        10 * plant_entries(input@).len() + 300 <= 0x4000_0000_0000_0000,
        part3_result(input@) is Some,
        part3_answer(input@) <= usize::MAX,
    ensures
        r == part3_answer(input@),
{
    let garden = parse_input(input);
    let ghost ns = names_view(garden.names@);
    let ghost pe = plant_entries(input@);
    let n: usize = garden.tables.len();
    let mut owners: Vec<usize> = Vec::new();
    let mut sprouts: Vec<Vec<(i64, i64, usize)>> = Vec::new();
    let mut i: usize = 0;
    while i < n
        invariant
            i <= n,
            n == garden.tables@.len(),
            garden_ok(&garden, input@),
            ns == names_view(garden.names@),
            pe == plant_entries(input@),
            10 * n + 300 <= 0x4000_0000_0000_0000,
            owners@.len() == i,
            sprouts@.len() == i,
            forall|k: int| 0 <= k < i ==> #[trigger] owners@[k] == k,
            forall|k: int| 0 <= k < i ==> #[trigger] sprouts@[k]@ == seq![(0i64, (10 * k) as i64, 0usize)],
        decreases n - i,
    {
        owners.push(i);
        let mut first: Vec<(i64, i64, usize)> = Vec::new();
        first.push((0, 10 * (i as i64), 0));
        sprouts.push(first);
        i = i + 1;
    }
    let ghost p0 = seedlings(n as nat);
    proof {
        let sv = start_view(sprouts@, ns);
        assert forall|k: int| 0 <= k < n implies #[trigger] sv[k] == p0[k] by {
            let l = sprouts@[k]@;
            assert(l.drop_last() =~= Seq::<(i64, i64, usize)>::empty());
            assert(sprout_map(l.drop_last(), ns) == Map::<(int, int), Seq<u8>>::empty());
            assert(sprout_map(l, ns) =~= Map::empty().insert((0int, 10 * k), root()));
        }
        assert(sv =~= p0);
        assert forall|k: int| 0 <= k < owners@.len() implies #[trigger] owners@[k] < garden.tables@.len() && table_ok(garden.tables@[owners@[k] as int]@, ns, pe[k]) by {
            assert(owners@[k] == k);
        }
        let xs = Seq::new(n as nat, |k: int| 10 * k);
        lemma_seedlings_separate(xs);
        assert(p0 =~= Seq::new(xs.len(), |k: int| seedling(xs[k])));
        lemma_evolve_separate(pe, p0, 100);
    }
    let ghost init = sprouts@;
    let stems = evolve_p2(&garden, &owners, &mut sprouts, Ghost(pe));
    let ghost q1 = part2_result(input@)->0;
    let ghost b1: int = 10 * n + 100;
    proof {
        assert forall|k: int| 0 <= k < q1.len() implies apart3(#[trigger] sprouts@[k]@) && apart2(stems@[k]@) by {
            assert(plant_ok(sprouts@[k]@, stems@[k]@, garden.names@.len(), init[k]@[0].1 as int, 100));
        }
        assert forall|a: int, k: int| 0 <= a < sprouts@.len() && 0 <= k < sprouts@[a]@.len() implies -b1 <= #[trigger] sprouts@[a]@[k].1 <= b1 by {
            assert(plant_ok(sprouts@[a]@, stems@[a]@, garden.names@.len(), init[a]@[0].1 as int, 100));
            assert(near(pos3(sprouts@[a]@[k]), init[a]@[0].1 as int, 100));
        }
    }
    let (owners2, sprouts2, _stems2) = grow_round(&garden, &owners, &sprouts, Ghost(pe), Ghost(q1), Ghost(b1));
    let ghost rs2 = (round(pe, q1)->0).0;
    let ghost q2 = (round(pe, q1)->0).1;
    let (_owners3, sprouts3, stems3) = grow_round(&garden, &owners2, &sprouts2, Ghost(rs2), Ghost(q2), Ghost(b1 + 100));
    let ghost q3 = (round(rs2, q2)->0).1;
    proof {
        assert(part3_result(input@) == Some(q3));
    }
    count_cells(&sprouts3, &stems3, Ghost(q3), Ghost(ns))
}

/// The three answers.
pub fn solve(input: &[u8]) -> (r: (usize, usize, usize))
    requires
        part1_ok(input@),
        part1_answer(input@) <= usize::MAX,
        10 * plant_entries(input@).len() + 300 <= 0x4000_0000_0000_0000,
        part2_result(input@) is Some,
        part2_answer(input@) <= usize::MAX,
        part3_result(input@) is Some,
        part3_answer(input@) <= usize::MAX,
    ensures
        r.0 == part1_answer(input@),
        r.1 == part2_answer(input@),
        r.2 == part3_answer(input@),
{
    (solve_part1(input), solve_part2(input), solve_part3(input))
}

} // verus!
