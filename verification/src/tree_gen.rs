//! Random-tree helper for structured test inputs: decoding a Prüfer
//! sequence into a tree, drawing a random tree, and rooting one.
//!
//! The decoder carries a verified acyclicity certificate: edges come out
//! "leaf-ordered" — once a node has stood as the first endpoint of an edge
//! it never appears again — so every prefix of the edge list is a forest
//! and the whole list a spanning tree.

use vstd::prelude::*;
use crate::rng::gen_index;

verus! {

/// How often `v` occurs in `s`.
pub open spec fn count_in(s: Seq<usize>, v: usize) -> int
    decreases s.len(),
{
    if s.len() == 0 {
        0
    } else {
        (if s[0] == v {
            1int
        } else {
            0int
        }) + count_in(s.drop_first(), v)
    }
}

/// The sum of all entries of `s`.
pub open spec fn sum_of(s: Seq<usize>) -> int
    decreases s.len(),
{
    if s.len() == 0 {
        0
    } else {
        s[0] + sum_of(s.drop_first())
    }
}

/// How many entries of `s` are nonzero.
pub open spec fn nonzero_count(s: Seq<usize>) -> int
    decreases s.len(),
{
    if s.len() == 0 {
        0
    } else {
        (if s[0] == 0 {
            0int
        } else {
            1int
        }) + nonzero_count(s.drop_first())
    }
}

proof fn lemma_count_bounds(s: Seq<usize>, v: usize)
    ensures
        0 <= count_in(s, v) <= s.len(),
    decreases s.len(),
{
    if s.len() > 0 {
        lemma_count_bounds(s.drop_first(), v);
    }
}

proof fn lemma_count_snoc(s: Seq<usize>, x: usize, v: usize)
    ensures
        count_in(s.push(x), v) == count_in(s, v) + if x == v {
            1int
        } else {
            0int
        },
    decreases s.len(),
{
    if s.len() == 0 {
        assert(s.push(x)[0] == x);
        assert(s.push(x).drop_first() =~= Seq::<usize>::empty());
        assert(count_in(Seq::<usize>::empty(), v) == 0);
        assert(count_in(s.push(x), v) == (if x == v { 1int } else { 0int })
            + count_in(s.push(x).drop_first(), v));
    } else {
        assert(s.push(x)[0] == s[0]);
        assert(s.push(x).drop_first() =~= s.drop_first().push(x));
        lemma_count_snoc(s.drop_first(), x, v);
        assert(count_in(s.push(x), v) == (if s[0] == v { 1int } else { 0int })
            + count_in(s.drop_first().push(x), v));
        assert(count_in(s, v) == (if s[0] == v { 1int } else { 0int })
            + count_in(s.drop_first(), v));
    }
}

proof fn lemma_count_pos(s: Seq<usize>, j: int, v: usize)
    requires
        0 <= j < s.len(),
        s[j] == v,
    ensures
        count_in(s, v) >= 1,
    decreases j,
{
    if j > 0 {
        assert(s.drop_first()[j - 1] == s[j]);
        lemma_count_pos(s.drop_first(), j - 1, v);
    } else {
        lemma_count_bounds(s.drop_first(), v);
    }
}

proof fn lemma_sum_snoc(s: Seq<usize>, x: usize)
    ensures
        sum_of(s.push(x)) == sum_of(s) + x,
    decreases s.len(),
{
    if s.len() == 0 {
        assert(s.push(x)[0] == x);
        assert(s.push(x).drop_first() =~= Seq::<usize>::empty());
        assert(sum_of(Seq::<usize>::empty()) == 0);
        assert(sum_of(s.push(x)) == x + sum_of(s.push(x).drop_first()));
    } else {
        assert(s.push(x)[0] == s[0]);
        assert(s.push(x).drop_first() =~= s.drop_first().push(x));
        lemma_sum_snoc(s.drop_first(), x);
        assert(sum_of(s.push(x)) == s[0] + sum_of(s.drop_first().push(x)));
        assert(sum_of(s) == s[0] + sum_of(s.drop_first()));
    }
}

proof fn lemma_nonzero_snoc(s: Seq<usize>, x: usize)
    ensures
        nonzero_count(s.push(x)) == nonzero_count(s) + if x == 0 {
            0int
        } else {
            1int
        },
    decreases s.len(),
{
    if s.len() == 0 {
        assert(s.push(x)[0] == x);
        assert(s.push(x).drop_first() =~= Seq::<usize>::empty());
        assert(nonzero_count(Seq::<usize>::empty()) == 0);
        assert(nonzero_count(s.push(x)) == (if x == 0 { 0int } else { 1int })
            + nonzero_count(s.push(x).drop_first()));
    } else {
        assert(s.push(x)[0] == s[0]);
        assert(s.push(x).drop_first() =~= s.drop_first().push(x));
        lemma_nonzero_snoc(s.drop_first(), x);
        assert(nonzero_count(s.push(x)) == (if s[0] == 0 { 0int } else { 1int })
            + nonzero_count(s.drop_first().push(x)));
        assert(nonzero_count(s) == (if s[0] == 0 { 0int } else { 1int })
            + nonzero_count(s.drop_first()));
    }
}

proof fn lemma_sum_update(s: Seq<usize>, j: int, x: usize)
    requires
        0 <= j < s.len(),
    ensures
        sum_of(s.update(j, x)) == sum_of(s) - s[j] + x,
    decreases s.len(),
{
    if j == 0 {
        assert(s.update(j, x).drop_first() =~= s.drop_first());
    } else {
        assert(s.update(j, x).drop_first() =~= s.drop_first().update(j - 1, x));
        lemma_sum_update(s.drop_first(), j - 1, x);
    }
}

proof fn lemma_nonzero_update(s: Seq<usize>, j: int, x: usize)
    requires
        0 <= j < s.len(),
    ensures
        nonzero_count(s.update(j, x)) == nonzero_count(s) - (if s[j] == 0 {
            0int
        } else {
            1int
        }) + (if x == 0 {
            0int
        } else {
            1int
        }),
    decreases s.len(),
{
    if j == 0 {
        assert(s.update(j, x).drop_first() =~= s.drop_first());
    } else {
        assert(s.update(j, x).drop_first() =~= s.drop_first().update(j - 1, x));
        lemma_nonzero_update(s.drop_first(), j - 1, x);
    }
}

proof fn lemma_sum_lower(s: Seq<usize>)
    requires
        forall|j: int| 0 <= j < s.len() ==> s[j] != 1,
    ensures
        sum_of(s) >= 2 * nonzero_count(s),
    decreases s.len(),
{
    if s.len() > 0 {
        assert forall|j: int| 0 <= j < s.drop_first().len() implies s.drop_first()[j]
            != 1 by {
            assert(s.drop_first()[j] == s[j + 1]);
        }
        lemma_sum_lower(s.drop_first());
    }
}

proof fn lemma_exists_leaf(s: Seq<usize>)
    requires
        sum_of(s) < 2 * nonzero_count(s),
    ensures
        exists|j: int| 0 <= j < s.len() && s[j] == 1,
{
    if !(exists|j: int| 0 <= j < s.len() && s[j] == 1) {
        assert forall|j: int| 0 <= j < s.len() implies s[j] != 1 by {
            if s[j] == 1 {
                assert(0 <= j < s.len() && s[j] == 1);
            }
        }
        lemma_sum_lower(s);
    }
}

/// How many entries of `s` are `true`.
pub open spec fn count_true(s: Seq<bool>) -> int
    decreases s.len(),
{
    if s.len() == 0 {
        0
    } else {
        (if s[0] {
            1int
        } else {
            0int
        }) + count_true(s.drop_first())
    }
}

proof fn lemma_ct_bounds(s: Seq<bool>)
    ensures
        0 <= count_true(s) <= s.len(),
    decreases s.len(),
{
    if s.len() > 0 {
        lemma_ct_bounds(s.drop_first());
    }
}

proof fn lemma_ct_snoc(s: Seq<bool>, x: bool)
    ensures
        count_true(s.push(x)) == count_true(s) + if x {
            1int
        } else {
            0int
        },
    decreases s.len(),
{
    if s.len() == 0 {
        assert(s.push(x)[0] == x);
        assert(s.push(x).drop_first() =~= Seq::<bool>::empty());
        assert(count_true(Seq::<bool>::empty()) == 0);
        assert(count_true(s.push(x)) == (if x { 1int } else { 0int })
            + count_true(s.push(x).drop_first()));
    } else {
        assert(s.push(x)[0] == s[0]);
        assert(s.push(x).drop_first() =~= s.drop_first().push(x));
        lemma_ct_snoc(s.drop_first(), x);
        assert(count_true(s.push(x)) == (if s[0] { 1int } else { 0int })
            + count_true(s.drop_first().push(x)));
        assert(count_true(s) == (if s[0] { 1int } else { 0int })
            + count_true(s.drop_first()));
    }
}

proof fn lemma_ct_update(s: Seq<bool>, j: int, x: bool)
    requires
        0 <= j < s.len(),
    ensures
        count_true(s.update(j, x)) == count_true(s) - (if s[j] {
            1int
        } else {
            0int
        }) + (if x {
            1int
        } else {
            0int
        }),
    decreases s.len(),
{
    if j == 0 {
        assert(s.update(j, x).drop_first() =~= s.drop_first());
    } else {
        assert(s.update(j, x).drop_first() =~= s.drop_first().update(j - 1, x));
        lemma_ct_update(s.drop_first(), j - 1, x);
    }
}

/// Consecutive entries of `p` are joined by an edge of `edges`, read in
/// either direction.
pub open spec fn is_path(edges: Seq<(usize, usize)>, p: Seq<usize>) -> bool {
    &&& p.len() >= 1
    &&& forall|i: int|
        0 <= i < p.len() - 1 ==> exists|k: int|
            0 <= k < edges.len() && (((#[trigger] edges[k]).0 == #[trigger] p[i]
                && edges[k].1 == p[i + 1]) || (edges[k].0 == p[i + 1] && edges[k].1
                == p[i]))
}

/// Some path of `edges` leads from `from` to `to`.
pub open spec fn reachable(edges: Seq<(usize, usize)>, from: usize, to: usize) -> bool {
    exists|p: Seq<usize>| #[trigger] is_path(edges, p) && p.first() == from && p.last() == to
}

proof fn lemma_reachable_self(edges: Seq<(usize, usize)>, v: usize)
    ensures
        reachable(edges, v, v),
{
    let p = seq![v];
    assert(is_path(edges, p));
}

proof fn lemma_reachable_step(
    edges: Seq<(usize, usize)>,
    from: usize,
    a: usize,
    b: usize,
    k: int,
)
    requires
        reachable(edges, from, a),
        0 <= k < edges.len(),
        (edges[k].0 == a && edges[k].1 == b) || (edges[k].0 == b && edges[k].1 == a),
    ensures
        reachable(edges, from, b),
{
    let p = choose|p: Seq<usize>|
        #[trigger] is_path(edges, p) && p.first() == from && p.last() == a;
    let q = p.push(b);
    assert forall|i: int| 0 <= i < q.len() - 1 implies exists|kk: int|
        0 <= kk < edges.len() && (((#[trigger] edges[kk]).0 == #[trigger] q[i]
            && edges[kk].1 == q[i + 1]) || (edges[kk].0 == q[i + 1] && edges[kk].1
            == q[i])) by {
        if i < p.len() - 1 {
            assert(q[i] == p[i] && q[i + 1] == p[i + 1]);
            assert(exists|kk: int|
                0 <= kk < edges.len() && (((#[trigger] edges[kk]).0 == p[i]
                    && edges[kk].1 == p[i + 1]) || (edges[kk].0 == p[i + 1]
                    && edges[kk].1 == p[i])));
        } else {
            assert(q[i] == a && q[i + 1] == b);
            assert(0 <= k < edges.len() && ((edges[k].0 == q[i] && edges[k].1 == q[i
                + 1]) || (edges[k].0 == q[i + 1] && edges[k].1 == q[i])));
        }
    }
    assert(is_path(edges, q) && q.first() == from && q.last() == b);
}

proof fn lemma_path_visited(edges: Seq<(usize, usize)>, visited: Seq<bool>, p: Seq<usize>)
    requires
        is_path(edges, p),
        forall|k: int|
            0 <= k < edges.len() ==> (#[trigger] edges[k]).0 < visited.len()
                && edges[k].1 < visited.len(),
        forall|k: int|
            0 <= k < edges.len() ==> visited[(#[trigger] edges[k]).0 as int]
                == visited[edges[k].1 as int],
        p.first() < visited.len(),
        visited[p.first() as int],
    ensures
        visited[p.last() as int],
        p.last() < visited.len(),
    decreases p.len(),
{
    if p.len() == 1 {
    } else {
        assert(exists|k: int|
            0 <= k < edges.len() && (((#[trigger] edges[k]).0 == p[0] && edges[k].1
                == p[1]) || (edges[k].0 == p[1] && edges[k].1 == p[0])));
        let k = choose|k: int|
            0 <= k < edges.len() && (((#[trigger] edges[k]).0 == p[0] && edges[k].1
                == p[1]) || (edges[k].0 == p[1] && edges[k].1 == p[0]));
        assert(p[1] < visited.len() && visited[p[1] as int]);
        let q = p.drop_first();
        assert forall|i: int| 0 <= i < q.len() - 1 implies exists|kk: int|
            0 <= kk < edges.len() && (((#[trigger] edges[kk]).0 == #[trigger] q[i]
                && edges[kk].1 == q[i + 1]) || (edges[kk].0 == q[i + 1] && edges[kk].1
                == q[i])) by {
            assert(q[i] == p[i + 1] && q[i + 1] == p[i + 2]);
            assert(exists|kk: int|
                0 <= kk < edges.len() && (((#[trigger] edges[kk]).0 == p[i + 1]
                    && edges[kk].1 == p[i + 2]) || (edges[kk].0 == p[i + 2]
                    && edges[kk].1 == p[i + 1])));
        }
        assert(is_path(edges, q));
        lemma_path_visited(edges, visited, q);
    }
}

/// An undirected tree with no root set, as a node count and an edge list.
pub struct Tree {
    n: usize,
    edges: Vec<(usize, usize)>,
}

impl Tree {
    /// Number of nodes.
    pub closed spec fn spec_n(self) -> int {
        self.n as int
    }

    /// The edge list.
    pub closed spec fn spec_edges(self) -> Seq<(usize, usize)> {
        self.edges@
    }

    /// Well-formed: every edge joins two distinct nodes below `n`, and the
    /// edge count is exactly `n - 1` (zero for the empty graph).
    pub open spec fn wf(self) -> bool {
        &&& (self.spec_n() == 0 ==> self.spec_edges().len() == 0)
        &&& (self.spec_n() >= 1 ==> self.spec_edges().len() == self.spec_n() - 1)
        &&& forall|k: int| 0 <= k < self.spec_edges().len()
            ==> (#[trigger] self.spec_edges()[k]).0 < self.spec_n()
                && self.spec_edges()[k].1 < self.spec_n()
                && self.spec_edges()[k].0 != self.spec_edges()[k].1
    }

    /// Acyclicity certificate: each edge's first endpoint appears in no
    /// later edge. Processing the list in order, every edge joins a fresh
    /// leaf to the rest, so no prefix of the list can close a cycle; with
    /// `n - 1` edges the list spans a tree.
    pub open spec fn leaf_ordered(self) -> bool {
        forall|k1: int, k2: int|
            0 <= k1 < k2 < self.spec_edges().len()
                ==> (#[trigger] self.spec_edges()[k1]).0
                    != (#[trigger] self.spec_edges()[k2]).0
                    && self.spec_edges()[k1].0 != self.spec_edges()[k2].1
    }

    /// The edge list.
    pub fn get_edges(&self) -> (r: &[(usize, usize)])
        ensures
            r@ == self.spec_edges(),
    {
        self.edges.as_slice()
    }

    /// Decodes a Prüfer sequence into the tree it describes, on
    /// `prufer.len() + 2` nodes; fails exactly when some entry is out of
    /// range. At each step the smallest remaining leaf is joined to the
    /// next sequence entry, so the edge list comes out leaf-ordered.
    pub fn from_prufer(prufer: &[usize]) -> (r: Option<Tree>)
        requires
            prufer@.len() + 2 <= usize::MAX,
        ensures
            r is Some <==> (forall|j: int|
                0 <= j < prufer@.len() ==> #[trigger] prufer@[j] < prufer@.len() + 2),
            r is Some ==> {
                let t = r->0;
                &&& t.wf()
                &&& t.leaf_ordered()
                &&& t.spec_n() == prufer@.len() + 2
                &&& t.spec_edges().len() == prufer@.len() + 1
            },
    {
        let len = prufer.len();
        let n = len + 2;
        // Reject any out-of-range entry before touching anything else.
        let mut i: usize = 0;
        while i < len
            invariant
                len == prufer@.len(),
                n == len + 2,
                i <= len,
                forall|j: int| 0 <= j < i ==> #[trigger] prufer@[j] < len + 2,
            decreases len - i,
        {
            let pi = prufer[i];
            if pi >= n {
                proof {
                    assert(prufer@[i as int] >= prufer@.len() + 2);
                }
                return None;
            }
            proof {
                assert(prufer@[i as int] < len + 2);
            }
            i = i + 1;
        }
        // degree[v] = 1 + occurrences of v in the sequence.
        let mut degree: Vec<usize> = Vec::new();
        let mut v0: usize = 0;
        while v0 < n
            invariant
                degree@.len() == v0,
                v0 <= n,
                forall|v: int| 0 <= v < v0 ==> degree@[v] == 1,
                sum_of(degree@) == v0,
                nonzero_count(degree@) == v0,
            decreases n - v0,
        {
            proof {
                lemma_sum_snoc(degree@, 1);
                lemma_nonzero_snoc(degree@, 1);
            }
            degree.push(1);
            v0 = v0 + 1;
        }
        let mut i: usize = 0;
        while i < len
            invariant
                len == prufer@.len(),
                n == len + 2,
                degree@.len() == n,
                i <= len,
                forall|j: int| 0 <= j < len ==> #[trigger] prufer@[j] < n,
                forall|v: int|
                    0 <= v < n ==> #[trigger] degree@[v] == 1 + count_in(
                        prufer@.take(i as int),
                        v as usize,
                    ),
                sum_of(degree@) == n + i,
                nonzero_count(degree@) == n,
            decreases len - i,
        {
            let a = prufer[i];
            proof {
                lemma_count_bounds(prufer@.take(i as int), a);
                lemma_sum_update(degree@, a as int, (degree@[a as int] + 1) as usize);
                lemma_nonzero_update(
                    degree@,
                    a as int,
                    (degree@[a as int] + 1) as usize,
                );
            }
            let da = degree[a];
            degree[a] = da + 1;
            i = i + 1;
            proof {
                assert(prufer@.take(i as int)
                    =~= prufer@.take(i - 1).push(prufer@[i - 1]));
                assert forall|v: int|
                    0 <= v < n implies #[trigger] degree@[v] == 1 + count_in(
                        prufer@.take(i as int),
                        v as usize,
                    ) by {
                    lemma_count_snoc(prufer@.take(i - 1), prufer@[i - 1], v as usize);
                }
            }
        }
        // Repeatedly join the smallest remaining leaf to the next entry.
        let mut edges: Vec<(usize, usize)> = Vec::new();
        let mut ptr: usize = 0;
        let mut cached: usize = n;
        let mut i: usize = 0;
        proof {
            assert(prufer@.take(len as int) =~= prufer@);
            assert(prufer@.skip(0) =~= prufer@);
            assert forall|v: int| 0 <= v < n implies #[trigger] degree@[v] >= 1 by {
                lemma_count_bounds(prufer@, v as usize);
            }
        }
        while i < len
            invariant
                len == prufer@.len(),
                n == len + 2,
                degree@.len() == n,
                i <= len,
                ptr <= n,
                cached <= n,
                edges@.len() == i,
                forall|j: int| 0 <= j < len ==> #[trigger] prufer@[j] < n,
                forall|v: int|
                    0 <= v < n ==> #[trigger] degree@[v] == 0 || degree@[v] == 1
                        + count_in(prufer@.skip(i as int), v as usize),
                forall|v: int|
                    0 <= v < n && #[trigger] degree@[v] == 0 ==> count_in(
                        prufer@.skip(i as int),
                        v as usize,
                    ) == 0,
                sum_of(degree@) == 2 * (n - i) - 2,
                nonzero_count(degree@) == n - i,
                forall|v: int|
                    0 <= v < ptr ==> #[trigger] degree@[v] != 1 || v == cached,
                cached < n ==> degree@[cached as int] == 1 && cached < ptr,
                forall|k: int|
                    0 <= k < edges@.len() ==> degree@[(#[trigger] edges@[k]).0 as int]
                        == 0,
                forall|k: int|
                    0 <= k < edges@.len() ==> (#[trigger] edges@[k]).0 < n
                        && edges@[k].1 < n && edges@[k].0 != edges@[k].1,
                forall|k1: int, k2: int|
                    0 <= k1 < k2 < edges@.len() ==> (#[trigger] edges@[k1]).0 != (
                    #[trigger] edges@[k2]).0 && edges@[k1].0 != edges@[k2].1,
            decreases len - i,
        {
            let u: usize;
            if cached < n {
                u = cached;
                cached = n;
            } else {
                proof {
                    lemma_exists_leaf(degree@);
                    let jw = choose|j: int| 0 <= j < degree@.len() && degree@[j] == 1;
                    assert(jw >= ptr);
                    assert(ptr <= jw < n && degree@[jw] == 1);
                }
                while ptr < n && degree[ptr] != 1
                    invariant
                        degree@.len() == n,
                        ptr <= n,
                        exists|j: int| ptr <= j < n && #[trigger] degree@[j] == 1,
                        forall|v: int| 0 <= v < ptr ==> #[trigger] degree@[v] != 1,
                    decreases n - ptr,
                {
                    ptr = ptr + 1;
                }
                u = ptr;
                ptr = ptr + 1;
            }
            assert(u < n && degree@[u as int] == 1);
            let a = prufer[i];
            proof {
                assert(prufer@.skip(i as int)[0] == prufer@[i as int]);
                lemma_count_pos(prufer@.skip(i as int), 0, a);
                assert(degree@[a as int] >= 2);
            }
            let ghost deg0 = degree@;
            degree[u] = 0;
            let da = degree[a];
            degree[a] = da - 1;
            let ghost deg1 = deg0.update(u as int, 0);
            proof {
                lemma_sum_update(deg0, u as int, 0);
                lemma_nonzero_update(deg0, u as int, 0);
                lemma_sum_update(deg1, a as int, (deg1[a as int] - 1) as usize);
                lemma_nonzero_update(deg1, a as int, (deg1[a as int] - 1) as usize);
                assert(degree@ =~= deg1.update(a as int, (deg1[a as int] - 1) as usize));
            }
            let ghost old_edges = edges@;
            edges.push((u, a));
            if degree[a] == 1 && a < ptr {
                cached = a;
            } else {
                cached = n;
            }
            i = i + 1;
            proof {
                // One sequence entry is consumed: counts shift by one use of `a`.
                assert(prufer@.skip(i - 1).drop_first() =~= prufer@.skip(i as int));
                assert forall|v: int|
                    0 <= v < n implies #[trigger] count_in(prufer@.skip(i as int), v as usize)
                        == count_in(prufer@.skip(i - 1), v as usize) - (if a == v {
                        1int
                    } else {
                        0int
                    }) by {
                    assert(count_in(prufer@.skip(i - 1), v as usize) == (if prufer@.skip(
                        i - 1,
                    )[0] == v as usize {
                        1int
                    } else {
                        0int
                    }) + count_in(prufer@.skip(i - 1).drop_first(), v as usize));
                }
                assert(edges@ =~= old_edges.push((u, a)));
            }
        }
        // Two leaves remain; join them, the smaller first.
        proof {
            assert(prufer@.skip(len as int) =~= Seq::<usize>::empty());
            lemma_exists_leaf(degree@);
        }
        let u: usize;
        if cached < n {
            u = cached;
        } else {
            proof {
                let jw = choose|j: int| 0 <= j < degree@.len() && degree@[j] == 1;
                assert(jw >= ptr);
                assert(ptr <= jw < n && degree@[jw] == 1);
            }
            while ptr < n && degree[ptr] != 1
                invariant
                    degree@.len() == n,
                    ptr <= n,
                    exists|j: int| ptr <= j < n && #[trigger] degree@[j] == 1,
                    forall|v: int| 0 <= v < ptr ==> #[trigger] degree@[v] != 1,
                decreases n - ptr,
            {
                ptr = ptr + 1;
            }
            u = ptr;
            ptr = ptr + 1;
        }
        assert(u < n && degree@[u as int] == 1);
        assert(forall|v: int|
            0 <= v < ptr ==> #[trigger] degree@[v] != 1 || v == u as int);
        // A second leaf exists and stands at or above the scan pointer.
        proof {
            let dg = degree@.update(u as int, 0);
            lemma_sum_update(degree@, u as int, 0);
            lemma_nonzero_update(degree@, u as int, 0);
            lemma_exists_leaf(dg);
            let j2 = choose|j: int| 0 <= j < dg.len() && dg[j] == 1;
            assert(degree@[j2] == 1 && j2 != u);
            assert(j2 >= ptr);
            assert(ptr <= j2 < n && degree@[j2] == 1 && j2 != u as int);
        }
        let mut ptr2: usize = ptr;
        while ptr2 < n && (degree[ptr2] != 1 || ptr2 == u)
            invariant
                degree@.len() == n,
                ptr2 <= n,
                exists|j: int|
                    ptr2 <= j < n && #[trigger] degree@[j] == 1 && j != u as int,
            decreases n - ptr2,
        {
            ptr2 = ptr2 + 1;
        }
        let v = ptr2;
        edges.push((u, v));
        let t = Tree { n, edges };
        proof {
            assert(t.wf());
            assert(t.leaf_ordered());
        }
        Some(t)
    }

    /// Draws a random tree on `n` nodes by decoding a random Prüfer
    /// sequence; the one- and two-node trees are immediate.
    pub fn random_tree(n: usize, rng: &mut rand::rngs::ThreadRng) -> (t: Tree)
        ensures
            t.wf(),
            t.leaf_ordered(),
            t.spec_n() == n,
    {
        if n <= 1 {
            let edges: Vec<(usize, usize)> = Vec::new();
            return Tree { n, edges };
        }
        if n == 2 {
            let mut edges: Vec<(usize, usize)> = Vec::new();
            edges.push((0, 1));
            return Tree { n, edges };
        }
        let mut prufer: Vec<usize> = Vec::new();
        let mut i: usize = 0;
        while i < n - 2
            invariant
                n >= 3,
                i <= n - 2,
                prufer@.len() == i,
                forall|j: int| 0 <= j < i ==> #[trigger] prufer@[j] < n,
            decreases n - 2 - i,
        {
            let x = gen_index(rng, 0, n);
            prufer.push(x);
            i = i + 1;
        }
        match Self::from_prufer(prufer.as_slice()) {
            Some(t) => t,
            None => {
                proof {
                    assert(forall|j: int|
                        0 <= j < prufer@.len() ==> #[trigger] prufer@[j] < prufer@.len()
                            + 2);
                    assert(false);
                }
                vstd::pervasive::unreached()
            },
        }
    }

    /// Roots the tree at `root`: hands back, per node, its parent on the
    /// path towards the root. A node holds a parent exactly when the edges
    /// connect it to the root and it is not the root itself, and every
    /// recorded parent link is one of the tree's edges.
    pub fn set_root(&self, root: usize) -> (parent: Vec<Option<usize>>)
        requires
            self.wf(),
            root < self.spec_n(),
        ensures
            parent@.len() == self.spec_n(),
            parent@[root as int] is None,
            forall|v: int|
                0 <= v < parent@.len() ==> ((#[trigger] parent@[v]) is Some <==> (v
                    != root && reachable(self.spec_edges(), root, v as usize))),
            forall|v: int|
                0 <= v < parent@.len() && (#[trigger] parent@[v]) is Some ==> {
                    let p = parent@[v]->0;
                    &&& (p as int) < self.spec_n()
                    &&& v != root
                    &&& exists|k: int|
                        0 <= k < self.spec_edges().len() && (((
                        #[trigger] self.spec_edges()[k]).0 == p
                            && self.spec_edges()[k].1 == v as usize) || (
                        self.spec_edges()[k].0 == v as usize && self.spec_edges()[k].1
                            == p))
                },
    {
        let n = self.n;
        let mut parent: Vec<Option<usize>> = Vec::new();
        let mut visited: Vec<bool> = Vec::new();
        let mut v0: usize = 0;
        while v0 < n
            invariant
                v0 <= n,
                parent@.len() == v0,
                visited@.len() == v0,
                forall|v: int| 0 <= v < v0 ==> (#[trigger] parent@[v]) is None,
                forall|v: int| 0 <= v < v0 ==> !(#[trigger] visited@[v]),
                count_true(visited@) == 0,
            decreases n - v0,
        {
            proof {
                lemma_ct_snoc(visited@, false);
            }
            parent.push(None);
            visited.push(false);
            v0 = v0 + 1;
        }
        proof {
            lemma_ct_update(visited@, root as int, true);
            lemma_reachable_self(self.spec_edges(), root);
        }
        visited[root] = true;
        let mut num_visited: usize = 1;
        loop
            invariant
                n == self.spec_n(),
                self.wf(),
                root < n,
                parent@.len() == n,
                visited@.len() == n,
                1 <= num_visited <= n,
                count_true(visited@) == num_visited,
                visited@[root as int],
                parent@[root as int] is None,
                forall|v: int|
                    0 <= v < n ==> ((#[trigger] visited@[v]) <==> (v == root
                        || parent@[v] is Some)),
                forall|v: int|
                    0 <= v < n && #[trigger] visited@[v] ==> reachable(
                        self.spec_edges(),
                        root,
                        v as usize,
                    ),
                forall|v: int|
                    0 <= v < n && (#[trigger] parent@[v]) is Some ==> {
                        let p = parent@[v]->0;
                        &&& (p as int) < n
                        &&& v != root
                        &&& exists|k: int|
                            0 <= k < self.spec_edges().len() && (((
                            #[trigger] self.spec_edges()[k]).0 == p
                                && self.spec_edges()[k].1 == v as usize) || (
                            self.spec_edges()[k].0 == v as usize
                                && self.spec_edges()[k].1 == p))
                    },
            ensures
                forall|kk: int|
                    0 <= kk < self.spec_edges().len() ==> visited@[(
                    #[trigger] self.spec_edges()[kk]).0 as int] == visited@[
                        self.spec_edges()[kk].1 as int],
            decreases n - num_visited,
        {
            let entry_visited = num_visited;
            let mut changed = false;
            let mut k: usize = 0;
            let m = self.edges.len();
            while k < m
                invariant
                    n == self.spec_n(),
                    self.wf(),
                    root < n,
                    m == self.spec_edges().len(),
                    k <= m,
                    parent@.len() == n,
                    visited@.len() == n,
                    1 <= num_visited <= n,
                    entry_visited <= num_visited,
                    count_true(visited@) == num_visited,
                    changed ==> num_visited > entry_visited,
                    !changed ==> forall|kk: int|
                        0 <= kk < k ==> visited@[(#[trigger] self.spec_edges()[kk]).0
                            as int] == visited@[self.spec_edges()[kk].1 as int],
                    visited@[root as int],
                    parent@[root as int] is None,
                    forall|v: int|
                        0 <= v < n ==> ((#[trigger] visited@[v]) <==> (v == root
                            || parent@[v] is Some)),
                    forall|v: int|
                        0 <= v < n && #[trigger] visited@[v] ==> reachable(
                            self.spec_edges(),
                            root,
                            v as usize,
                        ),
                    forall|v: int|
                        0 <= v < n && (#[trigger] parent@[v]) is Some ==> {
                            let p = parent@[v]->0;
                            &&& (p as int) < n
                            &&& v != root
                            &&& exists|kk: int|
                                0 <= kk < self.spec_edges().len() && (((
                                #[trigger] self.spec_edges()[kk]).0 == p
                                    && self.spec_edges()[kk].1 == v as usize) || (
                                self.spec_edges()[kk].0 == v as usize
                                    && self.spec_edges()[kk].1 == p))
                        },
                decreases m - k,
            {
                let (eu, ev) = self.edges[k];
                proof {
                    assert(self.spec_edges()[k as int].0 == eu
                        && self.spec_edges()[k as int].1 == ev);
                }
                if visited[eu] && !visited[ev] {
                    proof {
                        lemma_ct_update(visited@, ev as int, true);
                        lemma_ct_bounds(visited@.update(ev as int, true));
                        lemma_reachable_step(self.spec_edges(), root, eu, ev, k as int);
                    }
                    visited[ev] = true;
                    parent[ev] = Some(eu);
                    num_visited = num_visited + 1;
                    changed = true;
                } else if visited[ev] && !visited[eu] {
                    proof {
                        lemma_ct_update(visited@, eu as int, true);
                        lemma_ct_bounds(visited@.update(eu as int, true));
                        lemma_reachable_step(self.spec_edges(), root, ev, eu, k as int);
                    }
                    visited[eu] = true;
                    parent[eu] = Some(ev);
                    num_visited = num_visited + 1;
                    changed = true;
                }
                k = k + 1;
            }
            if !changed {
                break;
            }
        }
        // At the fixpoint the visited set is closed under the edges, so it
        // holds exactly the nodes the edges connect to the root.
        proof {
            assert forall|v: int|
                0 <= v < n implies ((#[trigger] parent@[v]) is Some <==> (v != root
                    && reachable(self.spec_edges(), root, v as usize))) by {
                if parent@[v] is Some {
                    assert(visited@[v]);
                } else {
                    if v != root && reachable(self.spec_edges(), root, v as usize) {
                        let pth = choose|pth: Seq<usize>|
                            #[trigger] is_path(self.spec_edges(), pth) && pth.first()
                                == root && pth.last() == v as usize;
                        lemma_path_visited(self.spec_edges(), visited@, pth);
                        assert(visited@[v]);
                        assert(false);
                    }
                }
            }
        }
        parent
    }
}

} // verus!
