//! The mathematical model of routes: a graph is a sequence of adjacency
//! lists over dense indices, and a route is a sequence of indices joined by
//! edges.

use vstd::prelude::*;

verus! {

/// There is a one-way link from `u` to `v` in `g`.
pub open spec fn edge(g: Seq<Seq<usize>>, u: usize, v: usize) -> bool {
    &&& (u as int) < g.len()
    &&& (v as int) < g.len()
    &&& g[u as int].contains(v)
}

/// `p` visits nodes of `g`, each one linked to the next.
pub open spec fn is_path(g: Seq<Seq<usize>>, p: Seq<usize>) -> bool {
    &&& p.len() >= 1
    &&& forall|k: int| 0 <= k < p.len() ==> (#[trigger] p[k] as int) < g.len()
    &&& forall|k: int| 0 <= k < p.len() - 1 ==> #[trigger] edge(g, p[k], p[k + 1])
}

/// `p` is a path of `g` from `s` to `t`.
pub open spec fn path_between(g: Seq<Seq<usize>>, p: Seq<usize>, s: usize, t: usize) -> bool {
    &&& is_path(g, p)
    &&& p[0] == s
    &&& p.last() == t
}

/// Some path of `g` leads from `s` to `t`.
pub open spec fn reachable(g: Seq<Seq<usize>>, s: usize, t: usize) -> bool {
    exists|p: Seq<usize>| path_between(g, p, s, t)
}

/// The fewest links on a path from `s` to `t` number `d`.
#[verifier::opaque]
pub open spec fn is_dist(g: Seq<Seq<usize>>, s: usize, t: usize, d: nat) -> bool {
    &&& exists|p: Seq<usize>| #[trigger] path_between(g, p, s, t) && p.len() == d + 1
    &&& forall|p: Seq<usize>| #[trigger] path_between(g, p, s, t) ==> p.len() >= d + 1
}

/// `p` is a path from `s` to `t` with no path between them shorter.
#[verifier::opaque]
pub open spec fn is_shortest_path(g: Seq<Seq<usize>>, p: Seq<usize>, s: usize, t: usize) -> bool {
    &&& path_between(g, p, s, t)
    &&& is_dist(g, s, t, (p.len() - 1) as nat)
}

/// A shortest distance, where one exists, is unique.
pub proof fn lemma_dist_unique(g: Seq<Seq<usize>>, s: usize, t: usize, d1: nat, d2: nat)
    requires
        is_dist(g, s, t, d1),
        is_dist(g, s, t, d2),
    ensures
        d1 == d2,
{
    reveal(is_dist);
    let p1 = choose|p: Seq<usize>| path_between(g, p, s, t) && p.len() == d1 + 1;
    let p2 = choose|p: Seq<usize>| path_between(g, p, s, t) && p.len() == d2 + 1;
}

/// A path extended by one edge is a path to the new end.
pub proof fn lemma_path_push(g: Seq<Seq<usize>>, p: Seq<usize>, s: usize, u: usize, v: usize)
    requires
        path_between(g, p, s, u),
        edge(g, u, v),
    ensures
        path_between(g, p.push(v), s, v),
{
    let q = p.push(v);
    assert forall|k: int| 0 <= k < q.len() - 1 implies #[trigger] edge(g, q[k], q[k + 1]) by {
        if k < p.len() - 1 {
            assert(q[k] == p[k] && q[k + 1] == p[k + 1]);
        }
    }
    assert forall|k: int| 0 <= k < q.len() implies (#[trigger] q[k] as int) < g.len() by {
        if k < p.len() {
            assert(q[k] == p[k]);
        }
    }
}

/// A node put in front of a path, with an edge to its start, gives a path.
pub proof fn lemma_path_cons(g: Seq<Seq<usize>>, p: Seq<usize>, u: usize, t: usize)
    requires
        is_path(g, p),
        p.last() == t,
        edge(g, u, p[0]),
    ensures
        path_between(g, seq![u] + p, u, t),
{
    let q = seq![u] + p;
    assert forall|k: int| 0 <= k < q.len() - 1 implies #[trigger] edge(g, q[k], q[k + 1]) by {
        if k > 0 {
            let j = k - 1;
            assert(edge(g, p[j], p[j + 1]));
            assert(q[k] == p[j] && q[k + 1] == p[j + 1]);
        } else {
            assert(q[0] == u && q[1] == p[0]);
        }
    }
    assert forall|k: int| 0 <= k < q.len() implies (#[trigger] q[k] as int) < g.len() by {
        if k > 0 {
            assert(q[k] == p[k - 1]);
        }
    }
}

/// Every prefix of a path is a path to the node where it stops.
pub proof fn lemma_path_prefix(g: Seq<Seq<usize>>, p: Seq<usize>, s: usize, t: usize, k: int)
    requires
        path_between(g, p, s, t),
        0 <= k < p.len(),
    ensures
        path_between(g, p.take(k + 1), s, p[k]),
{
    let q = p.take(k + 1);
    assert forall|i: int| 0 <= i < q.len() - 1 implies #[trigger] edge(g, q[i], q[i + 1]) by {
        assert(q[i] == p[i] && q[i + 1] == p[i + 1]);
    }
    assert forall|i: int| 0 <= i < q.len() implies (#[trigger] q[i] as int) < g.len() by {
        assert(q[i] == p[i]);
    }
}

/// Every suffix of a path is a path from the node where it starts.
pub proof fn lemma_path_suffix(g: Seq<Seq<usize>>, p: Seq<usize>, s: usize, t: usize, k: int)
    requires
        path_between(g, p, s, t),
        0 <= k < p.len(),
    ensures
        path_between(g, p.skip(k), p[k], t),
{
    let q = p.skip(k);
    assert forall|i: int| 0 <= i < q.len() - 1 implies #[trigger] edge(g, q[i], q[i + 1]) by {
        assert(q[i] == p[i + k] && q[i + 1] == p[i + k + 1]);
    }
    assert forall|i: int| 0 <= i < q.len() implies (#[trigger] q[i] as int) < g.len() by {
        assert(q[i] == p[i + k]);
    }
}

/// A path that starts inside a set of nodes and ends outside it leaves the
/// set along some edge.
pub proof fn lemma_path_exit(g: Seq<Seq<usize>>, p: Seq<usize>, inside: spec_fn(usize) -> bool)
    requires
        is_path(g, p),
        inside(p[0]),
        !inside(p.last()),
    ensures
        exists|k: int| 0 <= k < p.len() - 1 && inside(#[trigger] p[k]) && !inside(p[k + 1]),
    decreases p.len(),
{
    let q = p.drop_last();
    if inside(q.last()) {
        assert(inside(p[p.len() - 2]) && !inside(p[p.len() - 1]));
    } else {
        assert forall|k: int| 0 <= k < q.len() - 1 implies #[trigger] edge(g, q[k], q[k + 1]) by {
            assert(q[k] == p[k] && q[k + 1] == p[k + 1]);
        }
        assert forall|k: int| 0 <= k < q.len() implies (#[trigger] q[k] as int) < g.len() by {
            assert(q[k] == p[k]);
        }
        lemma_path_exit(g, q, inside);
        let k = choose|k: int| 0 <= k < q.len() - 1 && inside(#[trigger] q[k]) && !inside(q[k + 1]);
        assert(p[k] == q[k] && p[k + 1] == q[k + 1]);
    }
}

/// A set of nodes that holds `s` and is closed under edges holds every node
/// reachable from `s`.
pub proof fn lemma_closed_holds_reachable(
    g: Seq<Seq<usize>>,
    inside: spec_fn(usize) -> bool,
    s: usize,
    t: usize,
)
    requires
        inside(s),
        forall|u: usize, v: usize| inside(u) && #[trigger] edge(g, u, v) ==> inside(v),
        reachable(g, s, t),
    ensures
        inside(t),
{
    let p = choose|p: Seq<usize>| path_between(g, p, s, t);
    if !inside(t) {
        lemma_path_exit(g, p, inside);
        let k = choose|k: int| 0 <= k < p.len() - 1 && inside(#[trigger] p[k]) && !inside(p[k + 1]);
        assert(edge(g, p[k], p[k + 1]));
    }
}

/// On a shortest path of `d > 0` links, the second node is linked from the
/// first and the rest of the path is a shortest path from it.
pub proof fn lemma_shortest_tail(g: Seq<Seq<usize>>, p: Seq<usize>, s: usize, t: usize)
    requires
        is_shortest_path(g, p, s, t),
        p.len() >= 2,
    ensures
        edge(g, s, p[1]),
        is_shortest_path(g, p.skip(1), p[1], t),
        is_dist(g, p[1], t, (p.len() - 2) as nat),
{
    reveal(is_dist);
    reveal(is_shortest_path);
    let z: int = 0;
    assert(edge(g, p[z], p[z + 1]));
    lemma_path_suffix(g, p, s, t, 1);
    assert forall|q: Seq<usize>| #[trigger] path_between(g, q, p[1], t) implies q.len() >= p.len()
        - 1 by {
        lemma_path_cons(g, q, s, t);
        assert(path_between(g, seq![s] + q, s, t));
    }
    assert(p.skip(1).len() == p.len() - 1);
}

/// A shortest path from `v`, put behind a link from `s`, is a shortest path
/// from `s` where the distances agree.
pub proof fn lemma_shortest_cons(g: Seq<Seq<usize>>, q: Seq<usize>, s: usize, v: usize, t: usize, d: nat)
    requires
        is_dist(g, s, t, d),
        edge(g, s, v),
        path_between(g, q, v, t),
        q.len() == d,
    ensures
        is_shortest_path(g, seq![s] + q, s, t),
{
    reveal(is_dist);
    reveal(is_shortest_path);
    lemma_path_cons(g, q, s, t);
}

/// A shortest path is a path whose length is the distance.
pub proof fn lemma_shortest_path_len(g: Seq<Seq<usize>>, p: Seq<usize>, s: usize, t: usize, d: nat)
    requires
        is_dist(g, s, t, d),
    ensures
        is_shortest_path(g, p, s, t) <==> path_between(g, p, s, t) && p.len() == d + 1,
{
    reveal(is_dist);
    reveal(is_shortest_path);
    if is_shortest_path(g, p, s, t) {
        lemma_dist_unique(g, s, t, d, (p.len() - 1) as nat);
    }
}

/// A distance is the length of some path.
pub proof fn lemma_dist_witness(g: Seq<Seq<usize>>, s: usize, t: usize, d: nat) -> (p: Seq<usize>)
    requires
        is_dist(g, s, t, d),
    ensures
        path_between(g, p, s, t),
        p.len() == d + 1,
        reachable(g, s, t),
{
    reveal(is_dist);
    choose|p: Seq<usize>| #[trigger] path_between(g, p, s, t) && p.len() == d + 1
}

/// Two paths that meet join into one.
pub proof fn lemma_path_join(g: Seq<Seq<usize>>, p: Seq<usize>, q: Seq<usize>, s: usize, v: usize, t: usize)
    requires
        path_between(g, p, s, v),
        path_between(g, q, v, t),
    ensures
        path_between(g, p + q.skip(1), s, t),
{
    let r = p + q.skip(1);
    assert forall|k: int| 0 <= k < r.len() implies (#[trigger] r[k] as int) < g.len() by {
        if k >= p.len() {
            assert(r[k] == q[k - p.len() + 1]);
        }
    }
    assert forall|k: int| 0 <= k < r.len() - 1 implies #[trigger] edge(g, r[k], r[k + 1]) by {
        if k < p.len() - 1 {
            assert(r[k] == p[k] && r[k + 1] == p[k + 1]);
        } else if k == p.len() - 1 {
            let z: int = 0;
            assert(edge(g, q[z], q[z + 1]));
            assert(r[k] == q[0] && r[k + 1] == q[1]);
        } else {
            let m = k - p.len() + 1;
            assert(edge(g, q[m], q[m + 1]));
            assert(r[k] == q[m] && r[k + 1] == q[m + 1]);
        }
    }
    if q.len() > 1 {
        assert(r.last() == q.last());
    }
}

} // verus!
