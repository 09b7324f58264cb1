//! The all-pairs table: the distance from every system to every other, and
//! for each pair every next system that lies on a shortest route.

use crate::graph::StarMap;
use crate::paths::{edge, is_dist, lemma_dist_unique, reachable};
use crate::search::{bfs, settled};
use crate::table::{table_cells, APSPTable, Hop, MAX_TABLE_SIDE};
use vstd::prelude::*;

verus! {

/// The cell for the route from `s` to `t` holds the distance, or none where
/// `t` cannot be reached.
pub open spec fn dist_cell_ok(g: Seq<Seq<usize>>, s: usize, t: usize, cell: Option<Hop>) -> bool {
    match cell {
        None => !reachable(g, s, t),
        Some(h) => is_dist(g, s, t, h.dist as nat),
    }
}

/// `v` is a next system on a shortest route of `d` links from `s` to `t`.
pub open spec fn is_next_hop(g: Seq<Seq<usize>>, s: usize, t: usize, d: nat, v: usize) -> bool {
    &&& d > 0
    &&& edge(g, s, v)
    &&& is_dist(g, v, t, (d - 1) as nat)
}

/// The cell for the route from `s` to `t` is right: the distance, and each
/// next system of a shortest route exactly once.
pub open spec fn hop_ok(g: Seq<Seq<usize>>, s: usize, t: usize, cell: Option<Hop>) -> bool {
    &&& dist_cell_ok(g, s, t, cell)
    &&& cell matches Some(h) ==> {
        &&& h.next@.no_duplicates()
        &&& forall|v: usize| #[trigger] h.next@.contains(v) <==> is_next_hop(g, s, t, h.dist as nat, v)
    }
}

/// `t` is the all-pairs table of `map`.
#[verifier::opaque]
pub open spec fn table_ok(map: &StarMap, t: APSPTable) -> bool {
    let c = table_cells(t);
    let n = map.graph().len();
    &&& c.len() == n
    &&& forall|i: int| 0 <= i < n ==> (#[trigger] c[i]).len() == n
    &&& forall|i: int, j: int|
        0 <= i < n && 0 <= j < n ==> hop_ok(map.graph(), i as usize, j as usize, #[trigger] c[i][j])
}

/// Each cell of an all-pairs table is right.
pub proof fn lemma_table_cell(map: &StarMap, t: APSPTable, i: int, j: int)
    requires
        table_ok(map, t),
        0 <= i < map.graph().len(),
        0 <= j < map.graph().len(),
    ensures
        table_cells(t).len() == map.graph().len(),
        table_cells(t)[i].len() == map.graph().len(),
        hop_ok(map.graph(), i as usize, j as usize, table_cells(t)[i][j]),
{
    reveal(table_ok);
}

/// `v` holds `x`.
fn vec_contains(v: &Vec<usize>, x: usize) -> (r: bool)
    ensures
        r == v@.contains(x),
{
    let mut k: usize = 0;
    while k < v.len()
        invariant
            k <= v@.len(),
            forall|i: int| 0 <= i < k ==> v@[i] != x,
        decreases v@.len() - k,
    {
        if v[k] == x {
            return true;
        }
        k = k + 1;
    }
    false
}

/// The next systems from `s` toward `t` at distance `d`, read off the
/// distances to `t` of the systems that `s` links to.
fn next_hops(map: &StarMap, apsp: &APSPTable, s: usize, t: usize, d: usize) -> (r: Vec<usize>)
    requires
        map.wf(),
        (s as int) < map.graph().len(),
        (t as int) < map.graph().len(),
        table_cells(*apsp).len() == map.graph().len(),
        forall|i: int|
            0 <= i < map.graph().len() ==> (#[trigger] table_cells(*apsp)[i]).len()
                == map.graph().len(),
        forall|i: int|
            0 <= i < map.graph().len() ==> dist_cell_ok(
                map.graph(),
                i as usize,
                t,
                #[trigger] table_cells(*apsp)[i][t as int],
            ),
    ensures
        r@.no_duplicates(),
        forall|v: usize| #[trigger] r@.contains(v) <==> is_next_hop(map.graph(), s, t, d as nat, v),
{
    proof {
        map.lemma_shape();
    }
    let ghost g = map.graph();
    let links = map.links(s);
    let mut next: Vec<usize> = Vec::new();
    if d == 0 {
        return next;
    }
    let mut k: usize = 0;
    while k < links.len()
        invariant
            map.wf(),
            g == map.graph(),
            links@ == g[s as int],
            d > 0,
            (s as int) < g.len(),
            (t as int) < g.len(),
            k <= links@.len(),
            forall|i: int, m: int|
                0 <= i < g.len() && 0 <= m < g[i].len() ==> (#[trigger] g[i][m] as int) < g.len(),
            table_cells(*apsp).len() == g.len(),
            forall|i: int| 0 <= i < g.len() ==> (#[trigger] table_cells(*apsp)[i]).len() == g.len(),
            forall|i: int|
                0 <= i < g.len() ==> dist_cell_ok(
                    g,
                    i as usize,
                    t,
                    #[trigger] table_cells(*apsp)[i][t as int],
                ),
            next@.no_duplicates(),
            forall|v: usize|
                #[trigger] next@.contains(v) <==> (exists|m: int|
                    0 <= m < k && links@[m] == v) && is_next_hop(g, s, t, d as nat, v),
        decreases links@.len() - k,
    {
        let v = links[k];
        let qualifies = match apsp.hop(v, t) {
            Some(h) => h.dist == d - 1,
            None => false,
        };
        proof {
            assert(links@.contains(v));
            let cell = table_cells(*apsp)[v as int][t as int];
            assert(dist_cell_ok(g, v, t, cell));
            if is_next_hop(g, s, t, d as nat, v) {
                crate::paths::lemma_dist_witness(g, v, t, (d - 1) as nat);
                lemma_dist_unique(g, v, t, cell->0.dist as nat, (d - 1) as nat);
            }
            assert(qualifies <==> is_next_hop(g, s, t, d as nat, v));
        }
        if qualifies && !vec_contains(&next, v) {
            let ghost old_next = next@;
            next.push(v);
            proof {
                assert forall|x: usize| #[trigger] next@.contains(x) <==> old_next.contains(x) || x == v by {
                    if next@.contains(x) {
                        let i = choose|i: int| 0 <= i < next@.len() && next@[i] == x;
                        if i < old_next.len() {
                            assert(old_next[i] == x);
                        }
                    }
                    if old_next.contains(x) {
                        let i = choose|i: int| 0 <= i < old_next.len() && old_next[i] == x;
                        assert(next@[i] == x);
                    }
                    if x == v {
                        assert(next@[old_next.len() as int] == v);
                    }
                }
                assert forall|x: usize| #[trigger] next@.contains(x) <==> (exists|m: int|
                    0 <= m < k + 1 && links@[m] == x) && is_next_hop(g, s, t, d as nat, x) by {
                    if (exists|m: int| 0 <= m < k + 1 && links@[m] == x) && x != v {
                        let m = choose|m: int| 0 <= m < k + 1 && links@[m] == x;
                        assert(m < k);
                    }
                    if x == v {
                        assert(links@[k as int] == x);
                    }
                }
                assert forall|a: int, b: int|
                    0 <= a < next@.len() && 0 <= b < next@.len() && a != b implies next@[a]
                    != next@[b] by {
                    if a < old_next.len() && b < old_next.len() {
                        assert(old_next[a] == next@[a] && old_next[b] == next@[b]);
                    } else if a < old_next.len() {
                        assert(old_next.contains(next@[a]));
                    } else if b < old_next.len() {
                        assert(old_next.contains(next@[b]));
                    }
                }
            }
        } else {
            proof {
                assert forall|x: usize| #[trigger] next@.contains(x) <==> (exists|m: int|
                    0 <= m < k + 1 && links@[m] == x) && is_next_hop(g, s, t, d as nat, x) by {
                    if (exists|m: int| 0 <= m < k + 1 && links@[m] == x) && is_next_hop(
                        g,
                        s,
                        t,
                        d as nat,
                        x,
                    ) && x != v {
                        let m = choose|m: int| 0 <= m < k + 1 && links@[m] == x;
                        assert(m < k);
                    }
                }
            }
        }
        k = k + 1;
    }
    proof {
        assert forall|v: usize| #[trigger] next@.contains(v) <==> is_next_hop(g, s, t, d as nat, v) by {
            if is_next_hop(g, s, t, d as nat, v) {
                let m = choose|m: int| 0 <= m < g[s as int].len() && g[s as int][m] == v;
                assert(links@[m] == v);
            }
        }
    }
    next
}

/// Computes the all-pairs table: a search from every system gives the
/// distances, and then each cell takes every system linked from its row's
/// system that is one step nearer to its column's.
pub fn apsp(map: &StarMap) -> (r: APSPTable)
    requires
        map.wf(),
        map.graph().len() <= MAX_TABLE_SIDE,
    ensures
        table_ok(map, r),
{
    proof {
        map.lemma_shape();
    }
    let ghost g = map.graph();
    let n = map.size();
    let mut hops = APSPTable::filled(n);
    let mut j: usize = 0;
    while j < n
        invariant
            map.wf(),
            g == map.graph(),
            n == g.len(),
            n == map.ids().len(),
            j <= n,
            table_cells(hops).len() == n,
            forall|a: int| 0 <= a < n ==> (#[trigger] table_cells(hops)[a]).len() == n,
            forall|a: int, b: int|
                0 <= a < n && 0 <= b < n ==> (a < j ==> dist_cell_ok(
                    g,
                    a as usize,
                    b as usize,
                    #[trigger] table_cells(hops)[a][b],
                )) && (a >= j ==> table_cells(hops)[a][b] is None),
        decreases n - j,
    {
        proof {
            map.lemma_shape();
        }
        let found = bfs(map, map.id_at(j), None);
        let mut i: usize = 0;
        while i < n
            invariant
                map.wf(),
                g == map.graph(),
                n == g.len(),
                n == map.ids().len(),
                j < n,
                i <= n,
                map.index_of(map.ids()[j as int]) == j,
                found@.len() == n,
                forall|b: int| 0 <= b < n ==> #[trigger] settled(map, j, found@, b),
                forall|b: int| 0 <= b < n ==> (found@[b] is Some <==> reachable(g, j, b as usize)),
                table_cells(hops).len() == n,
                forall|a: int| 0 <= a < n ==> (#[trigger] table_cells(hops)[a]).len() == n,
                forall|a: int, b: int|
                    0 <= a < n && 0 <= b < n ==> ((a < j || (a == j && b < i)) ==> dist_cell_ok(
                        g,
                        a as usize,
                        b as usize,
                        #[trigger] table_cells(hops)[a][b],
                    )) && (a > j || (a == j && b >= i) ==> table_cells(hops)[a][b] is None),
            decreases n - i,
        {
            let d = match &found[i] {
                Some(w) => Some(w.dist),
                None => None,
            };
            proof {
                assert(settled(map, j, found@, i as int));
            }
            if let Some(d) = d {
                hops.set_cell(j, i, Some(Hop { next: Vec::new(), dist: d }));
            }
            proof {
                assert forall|a: int| 0 <= a < n implies (#[trigger] table_cells(hops)[a]).len() == n by {}
            }
            i = i + 1;
        }
        j = j + 1;
    }
    let mut s: usize = 0;
    while s < n
        invariant
            map.wf(),
            g == map.graph(),
            n == g.len(),
            s <= n,
            table_cells(hops).len() == n,
            forall|a: int| 0 <= a < n ==> (#[trigger] table_cells(hops)[a]).len() == n,
            forall|a: int, b: int|
                0 <= a < n && 0 <= b < n ==> dist_cell_ok(
                    g,
                    a as usize,
                    b as usize,
                    #[trigger] table_cells(hops)[a][b],
                ),
            forall|a: int, b: int|
                0 <= a < s && 0 <= b < n ==> hop_ok(
                    g,
                    a as usize,
                    b as usize,
                    #[trigger] table_cells(hops)[a][b],
                ),
        decreases n - s,
    {
        let mut t: usize = 0;
        while t < n
            invariant
                map.wf(),
                g == map.graph(),
                n == g.len(),
                s < n,
                t <= n,
                table_cells(hops).len() == n,
                forall|a: int| 0 <= a < n ==> (#[trigger] table_cells(hops)[a]).len() == n,
                forall|a: int, b: int|
                    0 <= a < n && 0 <= b < n ==> dist_cell_ok(
                        g,
                        a as usize,
                        b as usize,
                        #[trigger] table_cells(hops)[a][b],
                    ),
                forall|a: int, b: int|
                    0 <= a < n && 0 <= b < n && (a < s || (a == s && b < t)) ==> hop_ok(
                        g,
                        a as usize,
                        b as usize,
                        #[trigger] table_cells(hops)[a][b],
                    ),
            decreases n - t,
        {
            let d = match hops.hop(s, t) {
                Some(h) => Some(h.dist),
                None => None,
            };
            if let Some(d) = d {
                let next = next_hops(map, &hops, s, t, d);
                hops.set_cell(s, t, Some(Hop { next, dist: d }));
                proof {
                    assert forall|a: int| 0 <= a < n implies (#[trigger] table_cells(hops)[a]).len() == n by {}
                }
            }
            t = t + 1;
        }
        s = s + 1;
    }
    proof {
        reveal(table_ok);
    }
    hops
}

} // verus!
