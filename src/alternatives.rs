//! Alternative routes: besides a shortest route, up to a number of
//! meaningfully different routes through a single intermediate system, each
//! limited in how much it shares with the shortest route, how far it strays
//! from being locally shortest, and how much longer any of its stretches is
//! than the shortest route between the stretch's ends.

use crate::apsp::{is_next_hop, lemma_table_cell, table_ok};
use crate::graph::{StarMap, SystemId};
use crate::paths::{is_dist, is_shortest_path, lemma_dist_unique, lemma_dist_witness, lemma_shortest_path_len, lemma_shortest_tail, path_between, reachable};
use crate::search::{is_shortest_route, route_found, route_ids, shortest_route};
use crate::table::{table_cells, APSPTable};
use vstd::prelude::*;

verus! {

/// Why an alternative-route query was refused.
#[derive(Clone, Copy, Debug, PartialEq, Eq, Structural)]
pub enum AltError {
    /// No route was asked for, or a percentage is above 100.
    InvalidConfig,
}

/// The distance in `t` from `a` to `b`, where there is a route.
pub open spec fn table_dist(t: APSPTable, a: usize, b: usize) -> int {
    match table_cells(t)[a as int][b as int] {
        Some(h) => h.dist as int,
        None => -1,
    }
}

/// The route `r` takes the link from `u` to `v` somewhere.
pub open spec fn uses_link(r: Seq<usize>, u: usize, v: usize) -> bool {
    exists|l: int| 0 <= l < r.len() - 1 && r[l] == u && #[trigger] r[l + 1] == v
}

/// How many of the first `k` links of `c` are also links of `r`.
pub open spec fn shared_links(c: Seq<usize>, r: Seq<usize>, k: int) -> nat
    decreases k,
{
    if k <= 0 {
        0
    } else {
        shared_links(c, r, k - 1) + if uses_link(r, c[k - 1], c[k]) {
            1nat
        } else {
            0nat
        }
    }
}

/// Every stretch of `c` from position `i` to a later `j` is at most
/// `100 + stretch` percent of the distance between its ends.
pub open spec fn bounded_stretch(t: APSPTable, c: Seq<usize>, stretch: int) -> bool {
    forall|i: int, j: int|
        #![trigger table_dist(t, c[i], c[j])]
        0 <= i < j < c.len() ==> (j - i) * 100 <= (100 + stretch) * table_dist(t, c[i], c[j])
}

/// Every stretch of `c` of `w` links is a shortest route between its ends.
pub open spec fn locally_shortest(t: APSPTable, c: Seq<usize>, w: int) -> bool {
    forall|i: int| 0 <= i && i + w < c.len() ==> #[trigger] table_dist(t, c[i], c[i + w]) == w
}

/// The window of local optimality: `local_opt` percent of `base_links`,
/// rounded up, and no more than the candidate's `links`.
pub open spec fn window(local_opt: int, base_links: int, links: int) -> int {
    let w = (local_opt * base_links + 99) / 100;
    if w > links {
        links
    } else {
        w
    }
}

/// `c` passes the filters for an alternative to the shortest route `base`.
pub open spec fn admissible(
    t: APSPTable,
    base: Seq<usize>,
    c: Seq<usize>,
    sharing: int,
    local_opt: int,
    ub_stretch: int,
) -> bool {
    &&& c != base
    &&& shared_links(c, base, c.len() - 1) * 100 <= sharing * (base.len() - 1)
    &&& locally_shortest(t, c, window(local_opt, base.len() - 1, c.len() - 1))
    &&& bounded_stretch(t, c, ub_stretch)
}

/// The route from `a` toward `b` that takes, at each of `steps` steps, the
/// first next system that the table lists.
pub open spec fn first_hop_route(t: APSPTable, a: usize, b: usize, steps: nat) -> Seq<usize>
    decreases steps,
{
    if steps == 0 {
        seq![a]
    } else {
        seq![a] + first_hop_route(
            t,
            table_cells(t)[a as int][b as int]->0.next@[0],
            b,
            (steps - 1) as nat,
        )
    }
}

/// The table's route from `a` to `b`.
pub open spec fn table_path(t: APSPTable, a: usize, b: usize) -> Seq<usize> {
    first_hop_route(t, a, b, table_cells(t)[a as int][b as int]->0.dist as nat)
}

/// The candidate through `v`: the table's route from `s` to `v`, then on
/// to `goal`.
pub open spec fn via_route(t: APSPTable, s: usize, v: usize, goal: usize) -> Seq<usize> {
    table_path(t, s, v) + table_path(t, v, goal).skip(1)
}

/// `v` is an intermediate system, joined to both ends, whose candidate
/// passes the filters against `base`.
pub open spec fn via_admissible(
    n: nat,
    t: APSPTable,
    s: usize,
    goal: usize,
    base: Seq<usize>,
    v: usize,
    sharing: int,
    local_opt: int,
    ub_stretch: int,
) -> bool {
    &&& (v as int) < n
    &&& v != s
    &&& v != goal
    &&& table_cells(t)[s as int][v as int] is Some
    &&& table_cells(t)[v as int][goal as int] is Some
    &&& admissible(t, base, via_route(t, s, v, goal), sharing, local_opt, ub_stretch)
}

/// Every admissible candidate is among `routes`.
pub open spec fn all_vias_in(
    map: &StarMap,
    t: APSPTable,
    s: usize,
    goal: usize,
    base: Seq<usize>,
    routes: Seq<Seq<SystemId>>,
    sharing: int,
    local_opt: int,
    ub_stretch: int,
) -> bool {
    forall|v: usize|
        #[trigger] via_admissible(map.ids().len(), t, s, goal, base, v, sharing, local_opt, ub_stretch)
            ==> exists|k: int| 0 <= k < routes.len() && routes[k] == route_ids(map, via_route(t, s, v, goal))
}

/// `c` is a route from `s` to `t` that passes the filters against `base`.
pub open spec fn candidate_ok(
    g: Seq<Seq<usize>>,
    t: APSPTable,
    from: usize,
    to: usize,
    base: Seq<usize>,
    c: Seq<usize>,
    sharing: int,
    local_opt: int,
    ub_stretch: int,
) -> bool {
    &&& path_between(g, c, from, to)
    &&& admissible(t, base, c, sharing, local_opt, ub_stretch)
}

/// `r` is the ids along a route from `s` to `goal` that passes the filters
/// against `base`.
pub open spec fn alternative_of(
    map: &StarMap,
    t: APSPTable,
    s: usize,
    goal: usize,
    base: Seq<usize>,
    r: Seq<SystemId>,
    sharing: int,
    local_opt: int,
    ub_stretch: int,
) -> bool {
    exists|c: Seq<usize>|
        #[trigger] candidate_ok(map.graph(), t, s, goal, base, c, sharing, local_opt, ub_stretch)
            && r == route_ids(map, c)
}

/// `routes` is an answer to an alternative-route query from `s` to `t`: no
/// more than `max_routes` distinct routes, the first a shortest route and
/// each other a route that passes the filters against it; where fewer than
/// `max_routes` come back, every admissible candidate is among them.
pub open spec fn alternatives_ok(
    map: &StarMap,
    t: APSPTable,
    s: usize,
    goal: usize,
    routes: Seq<Seq<SystemId>>,
    max_routes: int,
    sharing: int,
    local_opt: int,
    ub_stretch: int,
) -> bool {
    &&& 1 <= routes.len() <= max_routes
    &&& is_shortest_route(map, s, goal, routes[0])
    &&& exists|base: Seq<usize>|
        #[trigger] is_shortest_path(map.graph(), base, s, goal) && routes[0] == route_ids(map, base)
            && forall|k: int|
            1 <= k < routes.len() ==> alternative_of(
                map,
                t,
                s,
                goal,
                base,
                #[trigger] routes[k],
                sharing,
                local_opt,
                ub_stretch,
            ) && (routes.len() < max_routes ==> all_vias_in(
            map,
            t,
            s,
            goal,
            base,
            routes,
            sharing,
            local_opt,
            ub_stretch,
        ))
    &&& forall|a: int, b: int| 0 <= a < b < routes.len() ==> #[trigger] routes[a] != #[trigger] routes[b]
}

/// A route from `a` to `b` read off the table: each step takes the first
/// next system of the cell.
fn table_route(map: &StarMap, apsp: &APSPTable, a: usize, b: usize) -> (r: Vec<usize>)
    requires
        map.wf(),
        table_ok(map, *apsp),
        (a as int) < map.graph().len(),
        (b as int) < map.graph().len(),
        table_cells(*apsp)[a as int][b as int] is Some,
    ensures
        is_shortest_path(map.graph(), r@, a, b),
        r@ == table_path(*apsp, a, b),
{
    proof {
        map.lemma_shape();
        lemma_table_cell(map, *apsp, a as int, b as int);
    }
    let ghost g = map.graph();
    let total = match apsp.hop(a, b) {
        Some(h) => h.dist,
        None => 0,
    };
    let mut route: Vec<usize> = Vec::new();
    route.push(a);
    let mut cur = a;
    let mut left = total;
    proof {
        assert(path_between(g, route@, a, a));
        let whole = first_hop_route(*apsp, a, b, total as nat);
        assert(whole[0] == a);
        assert(route@ + whole.skip(1) =~= whole);
    }
    while left > 0
        invariant
            map.wf(),
            table_ok(map, *apsp),
            g == map.graph(),
            (cur as int) < g.len(),
            (b as int) < g.len(),
            is_dist(g, a, b, total as nat),
            table_cells(*apsp)[cur as int][b as int] matches Some(h) && h.dist == left,
            path_between(g, route@, a, cur),
            route@.len() + left == total + 1,
            route@ + first_hop_route(*apsp, cur, b, left as nat).skip(1) == first_hop_route(
                *apsp,
                a,
                b,
                total as nat,
            ),
            total == table_cells(*apsp)[a as int][b as int]->0.dist,
        decreases left,
    {
        proof {
            lemma_table_cell(map, *apsp, cur as int, b as int);
            let p = lemma_dist_witness(g, cur, b, left as nat);
            lemma_shortest_path_len(g, p, cur, b, left as nat);
            lemma_shortest_tail(g, p, cur, b);
            assert(is_next_hop(g, cur, b, left as nat, p[1]));
            assert(table_cells(*apsp)[cur as int][b as int]->0.next@.contains(p[1]));
        }
        let step = match apsp.hop(cur, b) {
            Some(h) => h.next[0],
            None => cur,
        };
        proof {
            let h = table_cells(*apsp)[cur as int][b as int]->0;
            assert(h.next@.contains(step));
            assert(is_next_hop(g, cur, b, left as nat, step));
            lemma_table_cell(map, *apsp, step as int, b as int);
            lemma_dist_witness(g, step, b, (left - 1) as nat);
            lemma_dist_unique(
                g,
                step,
                b,
                (left - 1) as nat,
                table_cells(*apsp)[step as int][b as int]->0.dist as nat,
            );
            crate::paths::lemma_path_push(g, route@, a, cur, step);
            let rest = first_hop_route(*apsp, step, b, (left - 1) as nat);
            assert(first_hop_route(*apsp, cur, b, left as nat) == seq![cur] + rest);
            assert((seq![cur] + rest).skip(1) =~= rest);
            assert(rest[0] == step);
            assert(route@.push(step) + rest.skip(1) =~= route@ + rest);
        }
        route.push(step);
        cur = step;
        left = left - 1;
    }
    proof {
        lemma_table_cell(map, *apsp, cur as int, b as int);
        let p = lemma_dist_witness(g, cur, b, 0);
        assert(p.last() == p[0]);
        assert(first_hop_route(*apsp, cur, b, 0).skip(1) =~= Seq::<usize>::empty());
        assert(route@ + Seq::<usize>::empty() =~= route@);
        lemma_shortest_path_len(g, route@, a, b, total as nat);
    }
    route
}

/// The route `r` takes the link from `u` to `v` somewhere.
fn takes_link(r: &Vec<usize>, u: usize, v: usize) -> (b: bool)
    ensures
        b == uses_link(r@, u, v),
{
    let n = r.len();
    let mut l: usize = 0;
    while l < n
        invariant
            n == r@.len(),
            forall|m: int| 0 <= m < l && m < r@.len() - 1 ==> !(r@[m] == u && #[trigger] r@[m + 1] == v),
        decreases r@.len() - l,
    {
        if l + 1 < n && r[l] == u && r[l + 1] == v {
            return true;
        }
        l = l + 1;
    }
    false
}

/// How many links of `c` are also links of `r`.
fn count_shared(c: &Vec<usize>, r: &Vec<usize>) -> (k: u64)
    requires
        c@.len() >= 1,
    ensures
        k == shared_links(c@, r@, c@.len() - 1),
{
    let mut count: u64 = 0;
    let mut m: usize = 1;
    while m < c.len()
        invariant
            1 <= m <= c@.len(),
            count == shared_links(c@, r@, m - 1),
            count <= m,
        decreases c@.len() - m,
    {
        if takes_link(r, c[m - 1], c[m]) {
            count = count + 1;
        }
        m = m + 1;
    }
    count
}

/// Every stretch of `w` links of `c` is a shortest route.
fn check_locally_shortest(map: &StarMap, apsp: &APSPTable, c: &Vec<usize>, w: usize) -> (b: bool)
    requires
        map.wf(),
        table_ok(map, *apsp),
        forall|k: int| 0 <= k < c@.len() ==> (#[trigger] c@[k] as int) < map.graph().len(),
    ensures
        b == locally_shortest(*apsp, c@, w as int),
{
    if w >= c.len() {
        return true;
    }
    let mut i: usize = 0;
    while i < c.len() - w
        invariant
            w < c@.len(),
            map.wf(),
            table_ok(map, *apsp),
            forall|k: int| 0 <= k < c@.len() ==> (#[trigger] c@[k] as int) < map.graph().len(),
            forall|m: int| 0 <= m < i && m + w < c@.len() ==> #[trigger] table_dist(*apsp, c@[m], c@[m + w]) == w,
        decreases c@.len() - i,
    {
        proof {
            lemma_table_cell(map, *apsp, c@[i as int] as int, c@[i + w] as int);
        }
        let ok = match apsp.hop(c[i], c[i + w]) {
            Some(h) => h.dist == w,
            None => false,
        };
        if !ok {
            proof {
                assert(table_dist(*apsp, c@[i as int], c@[i + w]) != w);
            }
            return false;
        }
        i = i + 1;
    }
    true
}

/// Every stretch of `c` is at most `100 + stretch` percent of the distance
/// between its ends.
fn check_stretch(map: &StarMap, apsp: &APSPTable, c: &Vec<usize>, stretch: u64) -> (b: bool)
    requires
        map.wf(),
        table_ok(map, *apsp),
        stretch <= 100,
        forall|k: int| 0 <= k < c@.len() ==> (#[trigger] c@[k] as int) < map.graph().len(),
    ensures
        b == bounded_stretch(*apsp, c@, stretch as int),
{
    let mut i: usize = 0;
    while i < c.len()
        invariant
            map.wf(),
            table_ok(map, *apsp),
            stretch <= 100,
            forall|k: int| 0 <= k < c@.len() ==> (#[trigger] c@[k] as int) < map.graph().len(),
            forall|a: int, b: int|
                #![trigger table_dist(*apsp, c@[a], c@[b])]
                0 <= a < i && a < b < c@.len() ==> (b - a) * 100 <= (100 + stretch) * table_dist(
                    *apsp,
                    c@[a],
                    c@[b],
                ),
        decreases c@.len() - i,
    {
        let mut j: usize = i + 1;
        while j < c.len()
            invariant
                map.wf(),
                table_ok(map, *apsp),
                stretch <= 100,
                i < c@.len(),
                i < j,
                forall|k: int| 0 <= k < c@.len() ==> (#[trigger] c@[k] as int) < map.graph().len(),
                forall|a: int, b: int|
                    #![trigger table_dist(*apsp, c@[a], c@[b])]
                    0 <= a < i && a < b < c@.len() ==> (b - a) * 100 <= (100 + stretch) * table_dist(
                        *apsp,
                        c@[a],
                        c@[b],
                    ),
                forall|b: int|
                    i < b < j && b < c@.len() ==> (b - i) * 100 <= (100 + stretch) * #[trigger] table_dist(
                        *apsp,
                        c@[i as int],
                        c@[b],
                    ),
            decreases c@.len() - j,
        {
            proof {
                lemma_table_cell(map, *apsp, c@[i as int] as int, c@[j as int] as int);
            }
            let ok = match apsp.hop(c[i], c[j]) {
                Some(h) => {
                    proof {
                        assert((100 + stretch as int) * (h.dist as int) <= 200 * 0xffff_ffff_ffff_ffffint) by (nonlinear_arith)
                            requires
                                stretch <= 100,
                                h.dist <= 0xffff_ffff_ffff_ffffint,
                        ;
                    }
                    ((j - i) as u128) * 100 <= (100 + stretch as u128) * (h.dist as u128)
                },
                None => false,
            };
            if !ok {
                proof {
                    assert(!((j - i) * 100 <= (100 + stretch) * table_dist(*apsp, c@[i as int], c@[j as int])));
                }
                return false;
            }
            j = j + 1;
        }
        i = i + 1;
    }
    true
}

/// `first` followed by `second` without its first system.
fn join(first: &Vec<usize>, second: &Vec<usize>) -> (r: Vec<usize>)
    requires
        second@.len() >= 1,
    ensures
        r@ == first@ + second@.skip(1),
{
    let mut r: Vec<usize> = Vec::new();
    let mut i: usize = 0;
    while i < first.len()
        invariant
            i <= first@.len(),
            r@ == first@.take(i as int),
        decreases first@.len() - i,
    {
        r.push(first[i]);
        proof {
            assert(first@.take(i + 1) =~= first@.take(i as int).push(first@[i as int]));
        }
        i = i + 1;
    }
    let mut j: usize = 1;
    while j < second.len()
        invariant
            1 <= j <= second@.len(),
            r@ == first@ + second@.skip(1).take(j - 1),
        decreases second@.len() - j,
    {
        r.push(second[j]);
        proof {
            assert(second@.skip(1).take(j as int) =~= second@.skip(1).take(j - 1).push(second@[j as int]));
        }
        j = j + 1;
    }
    proof {
        assert(first@.take(first@.len() as int) =~= first@);
        assert(second@.skip(1).take(j - 1) =~= second@.skip(1));
    }
    r
}

/// A copy of `c`.
fn copy_route(c: &Vec<usize>) -> (r: Vec<usize>)
    ensures
        r@ == c@,
{
    let mut r: Vec<usize> = Vec::new();
    let mut i: usize = 0;
    while i < c.len()
        invariant
            i <= c@.len(),
            r@ == c@.take(i as int),
        decreases c@.len() - i,
    {
        r.push(c[i]);
        proof {
            assert(c@.take(i + 1) =~= c@.take(i as int).push(c@[i as int]));
        }
        i = i + 1;
    }
    proof {
        assert(c@.take(i as int) =~= c@);
    }
    r
}

/// `a` and `b` are the same route.
fn same_route(a: &Vec<usize>, b: &Vec<usize>) -> (r: bool)
    ensures
        r == (a@ == b@),
{
    if a.len() != b.len() {
        return false;
    }
    let mut i: usize = 0;
    while i < a.len()
        invariant
            a@.len() == b@.len(),
            i <= a@.len(),
            forall|k: int| 0 <= k < i ==> a@[k] == b@[k],
        decreases a@.len() - i,
    {
        if a[i] != b[i] {
            return false;
        }
        i = i + 1;
    }
    proof {
        assert(a@ =~= b@);
    }
    true
}

/// Routes of positions in the map that differ have ids that differ.
proof fn lemma_route_ids_differ(map: &StarMap, a: Seq<usize>, b: Seq<usize>)
    requires
        map.wf(),
        forall|k: int| 0 <= k < a.len() ==> (#[trigger] a[k] as int) < map.ids().len(),
        forall|k: int| 0 <= k < b.len() ==> (#[trigger] b[k] as int) < map.ids().len(),
        a != b,
    ensures
        route_ids(map, a) != route_ids(map, b),
{
    map.lemma_shape();
    if route_ids(map, a) == route_ids(map, b) {
        assert(route_ids(map, a).len() == a.len());
        assert(a.len() == b.len());
        assert forall|k: int| 0 <= k < a.len() implies a[k] == b[k] by {
            assert(route_ids(map, a)[k] == route_ids(map, b)[k]);
            assert(map.ids()[a[k] as int] == map.ids()[b[k] as int]);
        }
        assert(a =~= b);
    }
}

/// The positions along a route of ids of `map`.
fn positions(map: &StarMap, route: &Vec<SystemId>, Ghost(p): Ghost<Seq<usize>>) -> (r: Vec<usize>)
    requires
        map.wf(),
        route@ == route_ids(map, p),
        forall|k: int| 0 <= k < p.len() ==> (#[trigger] p[k] as int) < map.ids().len(),
    ensures
        r@ == p,
{
    proof {
        map.lemma_shape();
    }
    let mut r: Vec<usize> = Vec::new();
    let mut i: usize = 0;
    while i < route.len()
        invariant
            map.wf(),
            route@ == route_ids(map, p),
            forall|k: int| 0 <= k < p.len() ==> (#[trigger] p[k] as int) < map.ids().len(),
            forall|k: int| 0 <= k < map.ids().len() ==> map.index_of(#[trigger] map.ids()[k]) == k,
            i <= route@.len(),
            r@ == p.take(i as int),
        decreases route@.len() - i,
    {
        proof {
            assert(route@[i as int] == SystemId(map.ids()[p[i as int] as int]));
            assert(map.ids().contains(map.ids()[p[i as int] as int]));
        }
        let at = match map.position(route[i]) {
            Some(at) => at,
            None => 0,
        };
        r.push(at);
        proof {
            assert(p.take(i + 1) =~= p.take(i as int).push(p[i as int]));
        }
        i = i + 1;
    }
    proof {
        assert(p.take(i as int) =~= p);
    }
    r
}

/// The ids along a route of positions.
fn ids_of(map: &StarMap, c: &Vec<usize>) -> (r: Vec<SystemId>)
    requires
        map.wf(),
        forall|k: int| 0 <= k < c@.len() ==> (#[trigger] c@[k] as int) < map.ids().len(),
    ensures
        r@ == route_ids(map, c@),
{
    let mut r: Vec<SystemId> = Vec::new();
    let mut i: usize = 0;
    while i < c.len()
        invariant
            map.wf(),
            forall|k: int| 0 <= k < c@.len() ==> (#[trigger] c@[k] as int) < map.ids().len(),
            i <= c@.len(),
            r@ == route_ids(map, c@.take(i as int)),
        decreases c@.len() - i,
    {
        r.push(map.id_at(c[i]));
        proof {
            assert(route_ids(map, c@.take(i + 1)) =~= route_ids(map, c@.take(i as int)).push(
                SystemId(map.ids()[c@[i as int] as int]),
            ));
        }
        i = i + 1;
    }
    proof {
        assert(c@.take(i as int) =~= c@);
    }
    r
}

/// Whether `c` passes the filters for an alternative to `base`.
fn passes(
    map: &StarMap,
    apsp: &APSPTable,
    base: &Vec<usize>,
    c: &Vec<usize>,
    sharing: u64,
    local_opt: u64,
    ub_stretch: u64,
) -> (b: bool)
    requires
        map.wf(),
        table_ok(map, *apsp),
        base@.len() >= 1,
        c@.len() >= 1,
        sharing <= 100,
        local_opt <= 100,
        ub_stretch <= 100,
        forall|k: int| 0 <= k < c@.len() ==> (#[trigger] c@[k] as int) < map.graph().len(),
    ensures
        b == admissible(*apsp, base@, c@, sharing as int, local_opt as int, ub_stretch as int),
{
    if same_route(c, base) {
        return false;
    }
    let base_links = (base.len() - 1) as u128;
    let links = c.len() - 1;
    let shared = count_shared(c, base);
    proof {
        assert((sharing as int) * (base_links as int) <= 100 * 0xffff_ffff_ffff_ffffint) by (nonlinear_arith)
            requires
                sharing <= 100,
                base_links <= 0xffff_ffff_ffff_ffffint,
        ;
        assert((local_opt as int) * (base_links as int) <= 100 * 0xffff_ffff_ffff_ffffint) by (nonlinear_arith)
            requires
                local_opt <= 100,
                base_links <= 0xffff_ffff_ffff_ffffint,
        ;
    }
    if (shared as u128) * 100 > (sharing as u128) * base_links {
        return false;
    }
    let w128 = ((local_opt as u128) * base_links + 99) / 100;
    let w: usize = if w128 > links as u128 {
        links
    } else {
        w128 as usize
    };
    if !check_locally_shortest(map, apsp, c, w) {
        return false;
    }
    check_stretch(map, apsp, c, ub_stretch)
}

/// Up to `max_routes` routes from `start` to `goal`: first a shortest
/// route, then alternatives through a single intermediate system, chosen
/// greedily by a cost of twice their length plus the links they share with
/// the routes already chosen, ties going to the lower intermediate position.
/// Percentages bound the alternatives: `sharing` of the shortest route's
/// links may be shared with it, every stretch of `local_opt` percent of its
/// length must be shortest, and no stretch may exceed the distance between
/// its ends by more than `ub_stretch` percent. None if there is no route.
pub fn alt_routes(
    map: &StarMap,
    apsp: &APSPTable,
    start: SystemId,
    goal: SystemId,
    max_routes: usize,
    sharing: u64,
    local_opt: u64,
    ub_stretch: u64,
) -> (r: Result<Option<Vec<Vec<SystemId>>>, AltError>)
    requires
        map.wf(),
        table_ok(map, *apsp),
        map.has_id(start.0),
        map.has_id(goal.0),
    ensures
        r is Err <==> max_routes == 0 || sharing > 100 || local_opt > 100 || ub_stretch > 100,
        r matches Ok(found) ==> (found is Some <==> reachable(
            map.graph(),
            map.index_of(start.0) as usize,
            map.index_of(goal.0) as usize,
        )),
        r matches Ok(Some(routes)) ==> route_found(map, start, goal) == Some(routes@[0]@),
        r matches Ok(Some(routes)) ==> alternatives_ok(
            map,
            *apsp,
            map.index_of(start.0) as usize,
            map.index_of(goal.0) as usize,
            routes@.map_values(|v: Vec<SystemId>| v@),
            max_routes as int,
            sharing as int,
            local_opt as int,
            ub_stretch as int,
        ),
{
    if max_routes == 0 || sharing > 100 || local_opt > 100 || ub_stretch > 100 {
        return Err(AltError::InvalidConfig);
    }
    proof {
        map.lemma_shape();
    }
    let ghost g = map.graph();
    let n = map.size();
    let s = match map.position(start) {
        Some(s) => s,
        None => { return Ok(None); },
    };
    let t = match map.position(goal) {
        Some(t) => t,
        None => { return Ok(None); },
    };
    let route = match shortest_route(map, start, goal) {
        Some(route) => route,
        None => { return Ok(None); },
    };
    let ghost p = choose|p: Seq<usize>| #[trigger] is_shortest_path(g, p, s, t) && route@ == route_ids(map, p);
    proof {
        reveal(is_shortest_path);
    }
    let base = positions(map, &route, Ghost(p));
    let mut candidates: Vec<Vec<usize>> = Vec::new();
    let mut v: usize = 0;
    while v < n
        invariant
            map.wf(),
            table_ok(map, *apsp),
            g == map.graph(),
            n == g.len(),
            (s as int) < n,
            (t as int) < n,
            sharing <= 100,
            local_opt <= 100,
            ub_stretch <= 100,
            path_between(g, base@, s, t),
            v <= n,
            forall|k: int|
                0 <= k < candidates@.len() ==> candidate_ok(
                    g,
                    *apsp,
                    s,
                    t,
                    base@,
                    #[trigger] candidates@[k]@,
                    sharing as int,
                    local_opt as int,
                    ub_stretch as int,
                ),
            forall|x: usize|
                x < v && #[trigger] via_admissible(
                    n as nat,
                    *apsp,
                    s,
                    t,
                    base@,
                    x,
                    sharing as int,
                    local_opt as int,
                    ub_stretch as int,
                ) ==> exists|k: int| 0 <= k < candidates@.len() && candidates@[k]@ == via_route(*apsp, s, x, t),
        decreases n - v,
    {
        if v != s && v != t {
            proof {
                lemma_table_cell(map, *apsp, s as int, v as int);
                lemma_table_cell(map, *apsp, v as int, t as int);
            }
            let reach = apsp.hop(s, v).is_some() && apsp.hop(v, t).is_some();
            if reach {
                let first = table_route(map, apsp, s, v);
                let second = table_route(map, apsp, v, t);
                proof {
                    reveal(is_shortest_path);
                }
                let c = join(&first, &second);
                proof {
                    crate::paths::lemma_path_join(g, first@, second@, s, v, t);
                }
                let ghost old_c = candidates@;
                if passes(map, apsp, &base, &c, sharing, local_opt, ub_stretch) {
                    candidates.push(c);
                    proof {
                        assert(candidates@[old_c.len() as int]@ == via_route(*apsp, s, v, t));
                        assert forall|x: usize|
                            x < v && #[trigger] via_admissible(
                                n as nat,
                                *apsp,
                                s,
                                t,
                                base@,
                                x,
                                sharing as int,
                                local_opt as int,
                                ub_stretch as int,
                            ) implies exists|k: int| 0 <= k < candidates@.len() && candidates@[k]@ == via_route(*apsp, s, x, t) by {
                            let k = choose|k: int| 0 <= k < old_c.len() && old_c[k]@ == via_route(*apsp, s, x, t);
                            assert(candidates@[k] == old_c[k]);
                        }
                    }
                }
            }
        }
        v = v + 1;
    }
    let mut chosen: Vec<Vec<usize>> = Vec::new();
    chosen.push(copy_route(&base));
    let mut used: Vec<bool> = Vec::new();
    let mut k: usize = 0;
    while k < candidates.len()
        invariant
            k <= candidates@.len(),
            used@.len() == k,
            forall|i: int| 0 <= i < k ==> !#[trigger] used@[i],
        decreases candidates@.len() - k,
    {
        used.push(false);
        k = k + 1;
    }
    while chosen.len() < max_routes
        invariant
            map.wf(),
            g == map.graph(),
            n == g.len(),
            1 <= chosen@.len() <= max_routes,
            used@.len() == candidates@.len(),
            chosen@[0]@ == base@,
            path_between(g, base@, s, t),
            forall|k: int|
                0 <= k < candidates@.len() ==> candidate_ok(
                    g,
                    *apsp,
                    s,
                    t,
                    base@,
                    #[trigger] candidates@[k]@,
                    sharing as int,
                    local_opt as int,
                    ub_stretch as int,
                ),
            forall|k: int|
                1 <= k < chosen@.len() ==> candidate_ok(
                    g,
                    *apsp,
                    s,
                    t,
                    base@,
                    #[trigger] chosen@[k]@,
                    sharing as int,
                    local_opt as int,
                    ub_stretch as int,
                ),
            forall|a: int, b: int| 0 <= a < b < chosen@.len() ==> #[trigger] chosen@[a]@ != #[trigger] chosen@[b]@,
            forall|i: int|
                0 <= i < candidates@.len() && #[trigger] used@[i] ==> exists|a: int|
                    0 <= a < chosen@.len() && chosen@[a]@ == candidates@[i]@,
        ensures
            1 <= chosen@.len() <= max_routes,
            chosen@[0]@ == base@,
            forall|k: int|
                1 <= k < chosen@.len() ==> candidate_ok(
                    g,
                    *apsp,
                    s,
                    t,
                    base@,
                    #[trigger] chosen@[k]@,
                    sharing as int,
                    local_opt as int,
                    ub_stretch as int,
                ),
            forall|a: int, b: int| 0 <= a < b < chosen@.len() ==> #[trigger] chosen@[a]@ != #[trigger] chosen@[b]@,
            chosen@.len() < max_routes ==> forall|i: int|
                0 <= i < candidates@.len() ==> exists|a: int|
                    0 <= a < chosen@.len() && chosen@[a]@ == #[trigger] candidates@[i]@,
        decreases max_routes - chosen@.len(),
    {
        let mut best: Option<usize> = None;
        let mut best_cost: u128 = 0;
        let mut ci: usize = 0;
        while ci < candidates.len()
            invariant
                used@.len() == candidates@.len(),
                ci <= candidates@.len(),
                best matches Some(b) ==> b < candidates@.len() && forall|a: int|
                    0 <= a < chosen@.len() ==> #[trigger] chosen@[a]@ != candidates@[b as int]@,
                best is None ==> forall|i: int|
                    0 <= i < ci ==> #[trigger] used@[i] || exists|a: int|
                        0 <= a < chosen@.len() && chosen@[a]@ == candidates@[i]@,
            decreases candidates@.len() - ci,
        {
            if !used[ci] {
                let cand = &candidates[ci];
                let mut fresh = true;
                let mut cost: u128 = 2 * (cand.len() as u128);
                let mut a: usize = 0;
                while a < chosen.len()
                    invariant
                        a <= chosen@.len(),
                        fresh ==> forall|x: int| 0 <= x < a ==> #[trigger] chosen@[x]@ != cand@,
                        !fresh ==> exists|x: int| 0 <= x < a && chosen@[x]@ == cand@,
                    decreases chosen@.len() - a,
                {
                    if same_route(&chosen[a], cand) {
                        fresh = false;
                    }
                    if cand.len() >= 1 {
                        cost = cost.saturating_add(count_shared(cand, &chosen[a]) as u128);
                    }
                    a = a + 1;
                }
                if fresh {
                    let better = match best {
                        None => true,
                        Some(_) => cost < best_cost,
                    };
                    if better {
                        best = Some(ci);
                        best_cost = cost;
                    }
                }
            }
            ci = ci + 1;
        }
        match best {
            None => {
                proof {
                    assert forall|i: int| 0 <= i < candidates@.len() implies exists|a: int|
                        0 <= a < chosen@.len() && chosen@[a]@ == #[trigger] candidates@[i]@ by {
                        assert(used@[i] || exists|a: int|
                            0 <= a < chosen@.len() && chosen@[a]@ == candidates@[i]@);
                    }
                }
                break;
            },
            Some(b) => {
                let ghost before = chosen@;
                let ghost before_used = used@;
                used.set(b, true);
                chosen.push(copy_route(&candidates[b]));
                proof {
                    assert forall|x: int, y: int| 0 <= x < y < chosen@.len() implies #[trigger] chosen@[x]@
                        != #[trigger] chosen@[y]@ by {
                        if y < before.len() {
                            assert(chosen@[x] == before[x] && chosen@[y] == before[y]);
                        } else {
                            assert(chosen@[x] == before[x]);
                        }
                    }
                    assert forall|k: int| 1 <= k < chosen@.len() implies candidate_ok(
                        g,
                        *apsp,
                        s,
                        t,
                        base@,
                        #[trigger] chosen@[k]@,
                        sharing as int,
                        local_opt as int,
                        ub_stretch as int,
                    ) by {
                        if k < before.len() {
                            assert(chosen@[k] == before[k]);
                        } else {
                            assert(chosen@[k]@ == candidates@[b as int]@);
                        }
                    }
                    assert forall|i: int|
                        0 <= i < candidates@.len() && #[trigger] used@[i] implies exists|a: int|
                            0 <= a < chosen@.len() && chosen@[a]@ == candidates@[i]@ by {
                        if i == b {
                            assert(chosen@[before.len() as int]@ == candidates@[i]@);
                        } else {
                            assert(before_used[i]);
                            let a = choose|a: int| 0 <= a < before.len() && before[a]@ == candidates@[i]@;
                            assert(chosen@[a] == before[a]);
                        }
                    }
                }
            },
        }
    }
    proof {
        if chosen@.len() < max_routes {
            assert forall|x: usize|
                #[trigger] via_admissible(
                    map.ids().len(),
                    *apsp,
                    s,
                    t,
                    base@,
                    x,
                    sharing as int,
                    local_opt as int,
                    ub_stretch as int,
                ) implies exists|a: int| 0 <= a < chosen@.len() && chosen@[a]@ == via_route(*apsp, s, x, t) by {
                assert(via_admissible(n as nat, *apsp, s, t, base@, x, sharing as int, local_opt as int, ub_stretch as int));
                let k = choose|k: int| 0 <= k < candidates@.len() && candidates@[k]@ == via_route(*apsp, s, x, t);
                let a = choose|a: int| 0 <= a < chosen@.len() && chosen@[a]@ == candidates@[k]@;
            }
        }
    }
    let mut routes: Vec<Vec<SystemId>> = Vec::new();
    let mut m: usize = 0;
    while m < chosen.len()
        invariant
            map.wf(),
            g == map.graph(),
            g.len() == map.ids().len(),
            m <= chosen@.len(),
            routes@.len() == m,
            chosen@[0]@ == base@,
            path_between(g, base@, s, t),
            forall|k: int|
                1 <= k < chosen@.len() ==> candidate_ok(
                    g,
                    *apsp,
                    s,
                    t,
                    base@,
                    #[trigger] chosen@[k]@,
                    sharing as int,
                    local_opt as int,
                    ub_stretch as int,
                ),
            forall|k: int| 0 <= k < m ==> (#[trigger] routes@[k])@ == route_ids(map, chosen@[k]@),
            forall|a: int, b: int| 0 <= a < b < chosen@.len() ==> #[trigger] chosen@[a]@ != #[trigger] chosen@[b]@,
            1 <= chosen@.len() <= max_routes,
            chosen@.len() < max_routes ==> forall|x: usize|
                #[trigger] via_admissible(
                    map.ids().len(),
                    *apsp,
                    s,
                    t,
                    base@,
                    x,
                    sharing as int,
                    local_opt as int,
                    ub_stretch as int,
                ) ==> exists|a: int| 0 <= a < chosen@.len() && chosen@[a]@ == via_route(*apsp, s, x, t),
        decreases chosen@.len() - m,
    {
        proof {
            if m > 0 {
                assert(candidate_ok(g, *apsp, s, t, base@, chosen@[m as int]@, sharing as int, local_opt as int, ub_stretch as int));
            }
        }
        routes.push(ids_of(map, &chosen[m]));
        m = m + 1;
    }
    proof {
        let cs = chosen@.map_values(|v: Vec<usize>| v@);
        if chosen@.len() < max_routes {
            assert forall|x: usize|
                #[trigger] via_admissible(
                    map.ids().len(),
                    *apsp,
                    s,
                    t,
                    base@,
                    x,
                    sharing as int,
                    local_opt as int,
                    ub_stretch as int,
                ) implies exists|k: int| 0 <= k < cs.len() && cs[k] == via_route(*apsp, s, x, t) by {
                let a = choose|a: int| 0 <= a < chosen@.len() && chosen@[a]@ == via_route(*apsp, s, x, t);
                assert(cs[a] == chosen@[a]@);
            }
        }
        lemma_alternatives_ok(
            map,
            *apsp,
            s,
            t,
            p,
            chosen@.map_values(|v: Vec<usize>| v@),
            routes@.map_values(|v: Vec<SystemId>| v@),
            max_routes as int,
            sharing as int,
            local_opt as int,
            ub_stretch as int,
        );
    }
    proof {
        assert(routes@[0]@ == route_ids(map, chosen@[0]@));
        assert(route@ == route_ids(map, p));
    }
    Ok(Some(routes))
}

/// The routes chosen, as ids, answer the query.
proof fn lemma_alternatives_ok(
    map: &StarMap,
    t: APSPTable,
    s: usize,
    goal: usize,
    base: Seq<usize>,
    chosen: Seq<Seq<usize>>,
    routes: Seq<Seq<SystemId>>,
    max_routes: int,
    sharing: int,
    local_opt: int,
    ub_stretch: int,
)
    requires
        map.wf(),
        is_shortest_path(map.graph(), base, s, goal),
        chosen.len() == routes.len(),
        1 <= chosen.len() <= max_routes,
        chosen[0] == base,
        forall|k: int|
            1 <= k < chosen.len() ==> candidate_ok(
                map.graph(),
                t,
                s,
                goal,
                base,
                #[trigger] chosen[k],
                sharing,
                local_opt,
                ub_stretch,
            ),
        forall|k: int| 0 <= k < chosen.len() ==> #[trigger] routes[k] == route_ids(map, chosen[k]),
        forall|a: int, b: int| 0 <= a < b < chosen.len() ==> #[trigger] chosen[a] != #[trigger] chosen[b],
        chosen.len() < max_routes ==> forall|v: usize|
            #[trigger] via_admissible(map.ids().len(), t, s, goal, base, v, sharing, local_opt, ub_stretch)
                ==> exists|k: int| 0 <= k < chosen.len() && chosen[k] == via_route(t, s, v, goal),
    ensures
        alternatives_ok(map, t, s, goal, routes, max_routes, sharing, local_opt, ub_stretch),
{
    if chosen.len() < max_routes {
        assert forall|v: usize|
            #[trigger] via_admissible(map.ids().len(), t, s, goal, base, v, sharing, local_opt, ub_stretch)
                implies exists|k: int| 0 <= k < routes.len() && routes[k] == route_ids(map, via_route(t, s, v, goal)) by {
            let k = choose|k: int| 0 <= k < chosen.len() && chosen[k] == via_route(t, s, v, goal);
            assert(routes[k] == route_ids(map, chosen[k]));
        }
    }
    map.lemma_shape();
    reveal(is_shortest_path);
    assert(routes[0] == route_ids(map, base));
    assert forall|k: int| 1 <= k < routes.len() implies alternative_of(
        map,
        t,
        s,
        goal,
        base,
        #[trigger] routes[k],
        sharing,
        local_opt,
        ub_stretch,
    ) by {
        assert(candidate_ok(map.graph(), t, s, goal, base, chosen[k], sharing, local_opt, ub_stretch));
        assert(routes[k] == route_ids(map, chosen[k]));
    }
    assert forall|a: int, b: int| 0 <= a < b < routes.len() implies #[trigger] routes[a]
        != #[trigger] routes[b] by {
        assert(chosen[a] != chosen[b]);
        if a > 0 {
            assert(candidate_ok(map.graph(), t, s, goal, base, chosen[a], sharing, local_opt, ub_stretch));
        }
        assert(candidate_ok(map.graph(), t, s, goal, base, chosen[b], sharing, local_opt, ub_stretch));
        assert(routes[a] == route_ids(map, chosen[a]));
        assert(routes[b] == route_ids(map, chosen[b]));
        lemma_route_ids_differ(map, chosen[a], chosen[b]);
    }
}

} // verus!
