//! Breadth-first search over a graph whose nodes are the indices below a bound.
use vstd::prelude::*;

verus! {

/// A graph on the nodes `0..size()`.
pub trait Graph {
    /// The number of nodes.
    spec fn size(&self) -> nat;

    /// The edge relation: `(self.edges())(i, j)` when an edge leads from `i` to `j`.
    spec fn edges(&self) -> spec_fn(int, int) -> bool;

    /// The number of nodes.
    fn node_count(&self) -> (n: usize)
        ensures
            n == self.size(),
    ;

    /// The nodes that edges from `i` lead to, each below `size()`.
    fn neighbours(&self, i: usize) -> (r: Vec<usize>)
        requires
            i < self.size(),
        ensures
            forall|k: int| 0 <= k < r@.len() ==> #[trigger] r@[k] < self.size() && (self.edges())(i as int, r@[k] as int),
            forall|j: int| 0 <= j < self.size() && #[trigger] (self.edges())(i as int, j) ==> exists|k: int| 0 <= k < r@.len() && r@[k] as int == j,
    ;
}

/// The nodes one edge away from some node of `s`.
pub open spec fn successors(n: nat, e: spec_fn(int, int) -> bool, s: Set<int>) -> Set<int> {
    Set::new(|j: int| 0 <= j < n && exists|i: int| s.contains(i) && #[trigger] e(i, j))
}

/// The nodes at most `d` edges from `start`.
pub open spec fn reach(n: nat, e: spec_fn(int, int) -> bool, start: int, d: nat) -> Set<int>
    decreases d,
{
    if d == 0 {
        set![start]
    } else {
        let r = reach(n, e, start, (d - 1) as nat);
        r.union(successors(n, e, r))
    }
}

/// `j` can be reached from `start`.
pub open spec fn reachable(n: nat, e: spec_fn(int, int) -> bool, start: int, j: int) -> bool {
    exists|d: nat| #[trigger] reach(n, e, start, d).contains(j)
}

/// `v` is the distance from `start` to `j`: the fewest edges of a path, or
/// `usize::MAX` where no path exists.
pub open spec fn is_distance(n: nat, e: spec_fn(int, int) -> bool, start: int, j: int, v: usize) -> bool {
    if v == usize::MAX {
        !reachable(n, e, start, j)
    } else {
        &&& reach(n, e, start, v as nat).contains(j)
        &&& forall|k: nat| k < v ==> !#[trigger] reach(n, e, start, k).contains(j)
    }
}

pub proof fn lemma_reach_mono(n: nat, ed: spec_fn(int, int) -> bool, start: int, d: nat, e: nat)
    requires
        d <= e,
    ensures
        reach(n, ed, start, d).subset_of(reach(n, ed, start, e)),
    decreases e - d,
{
    if d < e {
        lemma_reach_mono(n, ed, start, d, (e - 1) as nat);
    }
}

proof fn lemma_reach_stable(n: nat, ed: spec_fn(int, int) -> bool, start: int, d: nat, e: nat)
    requires
        reach(n, ed, start, d + 1) == reach(n, ed, start, d),
        e >= d,
    ensures
        reach(n, ed, start, e) == reach(n, ed, start, d),
    decreases e - d,
{
    if e > d {
        lemma_reach_stable(n, ed, start, d, (e - 1) as nat);
    }
}

/// The reached nodes of a distance table.
pub open spec fn reached(dist: Seq<usize>) -> Set<int> {
    Set::new(|j: int| 0 <= j < dist.len() && dist[j] != usize::MAX)
}

/// The distance from `start` to every node.
pub fn distances<G: Graph>(g: &G, start: usize) -> (dist: Vec<usize>)
    requires
        start < g.size(),
        g.size() < usize::MAX,
    ensures
        dist@.len() == g.size(),
        forall|j: int| 0 <= j < g.size() ==> is_distance(g.size(), g.edges(), start as int, j, #[trigger] dist@[j]),
{
    let n: usize = g.node_count();
    let ghost st = start as int;
    let ghost nn = g.size();
    let ghost ed = g.edges();
    let mut dist: Vec<usize> = Vec::new();
    let mut k: usize = 0;
    while k < n
        invariant
            k <= n,
            dist@ =~= Seq::new(k as nat, |j: int| usize::MAX),
        decreases n - k,
    {
        dist.push(usize::MAX);
        k = k + 1;
    }
    dist.set(start, 0);
    let mut count: usize = 1;
    let mut current: Vec<usize> = Vec::new();
    current.push(start);
    let mut d: usize = 0;
    proof {
        assert(reached(dist@) =~= set![st]);
        assert(current@[0] as int == st);
        assert forall|j: int| 0 <= j < n && #[trigger] dist@[j] == 0 implies exists|q: int| 0 <= q < current@.len() && current@[q] as int == j by {
            assert(j == st);
            assert(current@[0] as int == j);
        }
    }
    while current.len() > 0
        invariant
            n == g.size(),
            nn == g.size(),
            ed == g.edges(),
            n < usize::MAX,
            dist@.len() == n,
            reached(dist@) == reach(nn, ed, st, d as nat),
            reached(dist@).len() == count,
            count <= n,
            d < count || current@.len() == 0,
            d == 0 ==> current@.len() > 0,
            forall|q: int| 0 <= q < current@.len() ==> #[trigger] current@[q] < n && dist@[current@[q] as int] == d,
            forall|j: int| 0 <= j < n && #[trigger] dist@[j] == d ==> exists|q: int| 0 <= q < current@.len() && current@[q] as int == j,
            forall|j: int| 0 <= j < n && dist@[j] != usize::MAX ==> #[trigger] dist@[j] <= d && is_distance(nn, ed, st, j, dist@[j]),
            d > 0 ==> successors(nn, ed, reach(nn, ed, st, (d - 1) as nat)).subset_of(reach(nn, ed, st, d as nat)),
            d > 0 && current@.len() == 0 ==> reach(nn, ed, st, d as nat) == reach(nn, ed, st, (d - 1) as nat),
        decreases 2 * (n - count) + if current@.len() > 0 { 1int } else { 0int },
    {
        let ghost r0 = reached(dist@);
        let ghost count0 = count;
        let mut next: Vec<usize> = Vec::new();
        let mut t: usize = 0;
        while t < current.len()
            invariant
                n == g.size(),
            nn == g.size(),
            ed == g.edges(),
                n < usize::MAX,
                dist@.len() == n,
                d < count0 <= n,
                r0 == reach(nn, ed, st, d as nat),
                forall|q: int| 0 <= q < current@.len() ==> #[trigger] current@[q] < n && dist@[current@[q] as int] == d,
                t <= current@.len(),
                reached(dist@) == r0.union(successors(nn, ed, Set::new(|x: int| exists|q: int| 0 <= q < t && current@[q] as int == x))),
                reached(dist@).len() == count,
                count == count0 + next@.len(),
                forall|q: int| 0 <= q < next@.len() ==> #[trigger] next@[q] < n && dist@[next@[q] as int] == d + 1,
                forall|j: int| 0 <= j < n && #[trigger] dist@[j] == d + 1 ==> exists|q: int| 0 <= q < next@.len() && next@[q] as int == j,
                forall|j: int| 0 <= j < n && dist@[j] != usize::MAX && dist@[j] != d + 1 ==> r0.contains(j),
                forall|j: int| 0 <= j < n && r0.contains(j) ==> dist@[j] != usize::MAX && #[trigger] dist@[j] <= d && is_distance(nn, ed, st, j, dist@[j]),
            decreases current@.len() - t,
        {
            let i: usize = current[t];
            let nb = g.neighbours(i);
            let ghost before_t = reached(dist@);
            let mut q: usize = 0;
            while q < nb.len()
                invariant
                    n == g.size(),
            nn == g.size(),
            ed == g.edges(),
                    n < usize::MAX,
                    dist@.len() == n,
                    d < count0 <= n,
                    i < n,
                    r0 == reach(nn, ed, st, d as nat),
                    forall|k: int| 0 <= k < nb@.len() ==> #[trigger] nb@[k] < n && ed(i as int, nb@[k] as int),
                    q <= nb@.len(),
                    reached(dist@) == before_t.union(Set::new(|x: int| exists|k: int| 0 <= k < q && nb@[k] as int == x)),
                    r0.subset_of(before_t),
                    reached(dist@).len() == count,
                    count == count0 + next@.len(),
                    forall|k: int| 0 <= k < next@.len() ==> #[trigger] next@[k] < n && dist@[next@[k] as int] == d + 1,
                    forall|j: int| 0 <= j < n && #[trigger] dist@[j] == d + 1 ==> exists|k: int| 0 <= k < next@.len() && next@[k] as int == j,
                    forall|j: int| 0 <= j < n && dist@[j] != usize::MAX && dist@[j] != d + 1 ==> r0.contains(j),
                    forall|j: int| 0 <= j < n && r0.contains(j) ==> dist@[j] != usize::MAX && #[trigger] dist@[j] <= d && is_distance(nn, ed, st, j, dist@[j]),
                decreases nb@.len() - q,
            {
                let j: usize = nb[q];
                let ghost before = reached(dist@);
                let ghost next_before = next@;
                if dist[j] == usize::MAX {
                    proof {
                        vstd::set_lib::lemma_int_range(0, n as int);
                        vstd::set_lib::lemma_len_subset(before, vstd::set_lib::set_int_range(0, n as int));
                        assert(!before.contains(j as int));
                        assert(before.insert(j as int).len() == before.len() + 1);
                        vstd::set_lib::lemma_len_subset(before.insert(j as int), vstd::set_lib::set_int_range(0, n as int));
                    }
                    dist.set(j, d + 1);
                    next.push(j);
                    count = count + 1;
                    proof {
                        assert(reached(dist@) =~= before.insert(j as int));
                        assert forall|x: int| 0 <= x < n && #[trigger] dist@[x] == d + 1 implies exists|k: int| 0 <= k < next@.len() && next@[k] as int == x by {
                            if x == j {
                                assert(next@[next@.len() - 1] as int == x);
                            } else {
                                let k = choose|k: int| 0 <= k < next_before.len() && next_before[k] as int == x;
                                assert(next@[k] == next_before[k]);
                            }
                        }
                    }
                }
                proof {
                    assert(reached(dist@) =~= before_t.union(Set::new(|x: int| exists|k: int| 0 <= k < q + 1 && nb@[k] as int == x))) by {
                        assert forall|x: int| #[trigger] reached(dist@).contains(x) <==> before_t.union(Set::new(|x: int| exists|k: int| 0 <= k < q + 1 && nb@[k] as int == x)).contains(x) by {
                            if exists|k: int| 0 <= k < q + 1 && nb@[k] as int == x {
                                let k = choose|k: int| 0 <= k < q + 1 && nb@[k] as int == x;
                                if k < q {
                                    assert(exists|k: int| 0 <= k < q && nb@[k] as int == x);
                                }
                            }
                            if exists|k: int| 0 <= k < q && nb@[k] as int == x {
                                let k = choose|k: int| 0 <= k < q && nb@[k] as int == x;
                                assert(0 <= k < q + 1 && nb@[k] as int == x);
                            }
                            if x == j {
                                assert(0 <= q < q + 1 && nb@[q as int] as int == x);
                            }
                        }
                    }
                }
                q = q + 1;
            }
            proof {
                let pre = Set::new(|x: int| exists|q: int| 0 <= q < t && current@[q] as int == x);
                let post = Set::new(|x: int| exists|q: int| 0 <= q < t + 1 && current@[q] as int == x);
                let single = Set::new(|x: int| 0 <= x < n && ed(i as int, x));
                assert(Set::new(|x: int| exists|k: int| 0 <= k < nb@.len() && nb@[k] as int == x) =~= single);
                assert(successors(nn, ed, post) =~= successors(nn, ed, pre).union(single)) by {
                    assert forall|x: int| #[trigger] successors(nn, ed, post).contains(x) implies successors(nn, ed, pre).union(single).contains(x) by {
                        let y = choose|y: int| post.contains(y) && #[trigger] ed(y, x);
                        let k = choose|k: int| 0 <= k < t + 1 && current@[k] as int == y;
                        if k < t {
                            assert(pre.contains(y));
                        }
                    }
                    assert forall|x: int| #[trigger] successors(nn, ed, pre).union(single).contains(x) implies successors(nn, ed, post).contains(x) by {
                        if successors(nn, ed, pre).contains(x) {
                            let y = choose|y: int| pre.contains(y) && #[trigger] ed(y, x);
                            let k = choose|k: int| 0 <= k < t && current@[k] as int == y;
                            assert(post.contains(y));
                        } else {
                            assert(current@[t as int] as int == i as int);
                            assert(post.contains(i as int));
                        }
                    }
                }
                assert(reached(dist@) =~= r0.union(successors(nn, ed, post)));
            }
            t = t + 1;
        }
        proof {
            let cur = Set::new(|x: int| exists|q: int| 0 <= q < current@.len() && current@[q] as int == x);
            let rd = reach(nn, ed, st, d as nat);
            // the frontier holds exactly the nodes at distance d
            assert(successors(nn, ed, rd) =~= successors(nn, ed, cur).union(if d > 0 { successors(nn, ed, reach(nn, ed, st, (d - 1) as nat)) } else { Set::empty() })) by {
                assert forall|x: int| #[trigger] successors(nn, ed, rd).contains(x) implies successors(nn, ed, cur).union(if d > 0 { successors(nn, ed, reach(nn, ed, st, (d - 1) as nat)) } else { Set::empty() }).contains(x) by {
                    let y = choose|y: int| rd.contains(y) && #[trigger] ed(y, x);
                    if d == 0 {
                        assert(y == st);
                        assert(current@[0] as int == st) by {
                            assert(dist@[st] == 0);
                        }
                        assert(cur.contains(y));
                    } else if !reach(nn, ed, st, (d - 1) as nat).contains(y) {
                        assert(dist@[y] == d) by {
                            assert(is_distance(nn, ed, st, y, dist@[y]));
                            if dist@[y] < d {
                                assert(reach(nn, ed, st, dist@[y] as nat).contains(y));
                                lemma_reach_mono(nn, ed, st, dist@[y] as nat, (d - 1) as nat);
                            }
                        }
                        let q = choose|q: int| 0 <= q < current@.len() && current@[q] as int == y;
                        assert(cur.contains(y));
                    }
                }
                assert forall|x: int| #[trigger] successors(nn, ed, cur).contains(x) implies successors(nn, ed, rd).contains(x) by {
                    let y = choose|y: int| cur.contains(y) && #[trigger] ed(y, x);
                    let q = choose|q: int| 0 <= q < current@.len() && current@[q] as int == y;
                    assert(dist@[y] == d);
                }
                if d > 0 {
                    lemma_reach_mono(nn, ed, st, (d - 1) as nat, d as nat);
                    assert forall|x: int| #[trigger] successors(nn, ed, reach(nn, ed, st, (d - 1) as nat)).contains(x) implies successors(nn, ed, rd).contains(x) by {
                        let y = choose|y: int| reach(nn, ed, st, (d - 1) as nat).contains(y) && #[trigger] ed(y, x);
                    }
                }
            }
            assert(reached(dist@) =~= reach(nn, ed, st, (d + 1) as nat));
            assert forall|j: int| 0 <= j < n && dist@[j] != usize::MAX implies #[trigger] dist@[j] <= d + 1 && is_distance(nn, ed, st, j, dist@[j]) by {
                if dist@[j] == d + 1 {
                    assert(reach(nn, ed, st, (d + 1) as nat).contains(j));
                    assert(!r0.contains(j));
                    assert forall|e: nat| e < d + 1 implies !#[trigger] reach(nn, ed, st, e).contains(j) by {
                        lemma_reach_mono(nn, ed, st, e, d as nat);
                    }
                }
            }
            if next@.len() == 0 {
                assert(reached(dist@) =~= r0);
            }
            vstd::set_lib::lemma_int_range(0, n as int);
            vstd::set_lib::lemma_len_subset(reached(dist@), vstd::set_lib::set_int_range(0, n as int));
        }
        current = next;
        d = d + 1;
    }
    proof {
        assert(d > 0);
        assert forall|j: int| 0 <= j < n implies is_distance(nn, ed, st, j, #[trigger] dist@[j]) by {
            if dist@[j] == usize::MAX {
                assert(!reached(dist@).contains(j));
                assert forall|e: nat| !#[trigger] reach(nn, ed, st, e).contains(j) by {
                    if e >= d - 1 {
                        lemma_reach_stable(nn, ed, st, (d - 1) as nat, e);
                    } else {
                        lemma_reach_mono(nn, ed, st, e, d as nat);
                    }
                }
            }
        }
    }
    dist
}

} // verus!
