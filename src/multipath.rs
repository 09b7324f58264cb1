//! Every tied shortest route between two systems, read off the all-pairs
//! table.

use crate::apsp::{hop_ok, is_next_hop, lemma_table_cell, table_ok};
use crate::graph::{StarMap, SystemId};
use crate::paths::{is_dist, is_shortest_path, lemma_shortest_cons, lemma_shortest_tail, reachable};
use crate::search::{is_shortest_route, route_ids};
use crate::table::{table_cells, APSPTable};
use vstd::prelude::*;

verus! {

/// `rs` holds exactly the shortest routes from position `s` to position
/// `t`, as ids.
pub open spec fn all_shortest(map: &StarMap, s: usize, t: usize, rs: Seq<Vec<SystemId>>) -> bool {
    &&& forall|k: int|
        #![trigger rs[k]]
        0 <= k < rs.len() ==> is_shortest_route(map, s, t, rs[k]@)
    &&& forall|p: Seq<usize>|
        #[trigger] is_shortest_path(map.graph(), p, s, t) ==> exists|k: int|
            0 <= k < rs.len() && rs[k]@ == route_ids(map, p)
}

/// `first` followed by `part`.
fn prepend(first: SystemId, part: &Vec<SystemId>) -> (r: Vec<SystemId>)
    ensures
        r@ == seq![first] + part@,
{
    let mut full: Vec<SystemId> = Vec::new();
    full.push(first);
    let mut i: usize = 0;
    while i < part.len()
        invariant
            i <= part@.len(),
            full@ == seq![first] + part@.take(i as int),
        decreases part@.len() - i,
    {
        full.push(part[i]);
        proof {
            assert(part@.take(i + 1) == part@.take(i as int).push(part@[i as int]));
            assert(seq![first] + part@.take(i + 1) =~= (seq![first] + part@.take(i as int)).push(part@[i as int]));
        }
        i = i + 1;
    }
    proof {
        assert(part@.take(i as int) =~= part@);
    }
    full
}

/// Appends to `routes` each of `rest` with `first` in front.
fn prepend_all(first: SystemId, rest: &Vec<Vec<SystemId>>, routes: &mut Vec<Vec<SystemId>>)
    ensures
        final(routes)@.len() == old(routes)@.len() + rest@.len(),
        forall|i: int| 0 <= i < old(routes)@.len() ==> #[trigger] final(routes)@[i] == old(routes)@[i],
        forall|j: int|
            old(routes)@.len() <= j < final(routes)@.len() ==> (#[trigger] final(routes)@[j])@ == seq![first]
                + rest@[j - old(routes)@.len()]@,
{
    let ghost before = routes@;
    let mut m: usize = 0;
    while m < rest.len()
        invariant
            m <= rest@.len(),
            routes@.len() == before.len() + m,
            forall|i: int| 0 <= i < before.len() ==> #[trigger] routes@[i] == before[i],
            forall|j: int|
                before.len() <= j < routes@.len() ==> (#[trigger] routes@[j])@ == seq![first] + rest@[j - before.len()]@,
        decreases rest@.len() - m,
    {
        let full = prepend(first, &rest[m]);
        routes.push(full);
        m = m + 1;
    }
}

/// The ids of a route with a first node put in front.
proof fn lemma_route_ids_cons(map: &StarMap, s: usize, q: Seq<usize>)
    ensures
        route_ids(map, seq![s] + q) == seq![SystemId(map.ids()[s as int])] + route_ids(map, q),
{
    assert(route_ids(map, seq![s] + q) =~= seq![SystemId(map.ids()[s as int])] + route_ids(map, q));
}

/// Routes from `v` put behind a link from `s` are shortest routes from `s`.
proof fn lemma_extend_sound(
    map: &StarMap,
    s: usize,
    t: usize,
    d: nat,
    v: usize,
    before: Seq<Vec<SystemId>>,
    rest: Seq<Vec<SystemId>>,
    after: Seq<Vec<SystemId>>,
)
    requires
        is_dist(map.graph(), s, t, d),
        is_next_hop(map.graph(), s, t, d, v),
        all_shortest(map, v, t, rest),
        after.len() == before.len() + rest.len(),
        forall|i: int| 0 <= i < before.len() ==> #[trigger] after[i] == before[i],
        forall|j: int|
            before.len() <= j < after.len() ==> (#[trigger] after[j])@ == seq![
                SystemId(map.ids()[s as int]),
            ] + rest[j - before.len()]@,
        forall|m: int|
            #![trigger before[m]]
            0 <= m < before.len() ==> is_shortest_route(map, s, t, before[m]@),
    ensures
        forall|m: int|
            #![trigger after[m]]
            0 <= m < after.len() ==> is_shortest_route(map, s, t, after[m]@),
{
    let g = map.graph();
    assert forall|j: int|
        #![trigger after[j]]
        0 <= j < after.len() implies is_shortest_route(map, s, t, after[j]@) by {
        if j >= before.len() {
            let i = j - before.len();
            let ri = rest[i];
            assert(is_shortest_route(map, v, t, ri@));
            let q = choose|q: Seq<usize>| #[trigger] is_shortest_path(g, q, v, t) && ri@ == route_ids(map, q);
            crate::paths::lemma_shortest_path_len(g, q, v, t, (d - 1) as nat);
            lemma_shortest_cons(g, q, s, v, t, d);
            lemma_route_ids_cons(map, s, q);
            assert(after[j]@ == seq![SystemId(map.ids()[s as int])] + ri@);
            assert(after[j]@ == route_ids(map, seq![s] + q));
            assert(is_shortest_path(g, seq![s] + q, s, t));
            assert(is_shortest_route(map, s, t, after[j]@));
        } else {
            assert(after[j] == before[j]);
        }
    }
}

/// Every shortest route from `s` through `v` is among the routes from `v`
/// put behind the link from `s`.
proof fn lemma_extend_complete(
    map: &StarMap,
    s: usize,
    t: usize,
    d: nat,
    v: usize,
    next: Seq<usize>,
    k: int,
    before: Seq<Vec<SystemId>>,
    rest: Seq<Vec<SystemId>>,
    after: Seq<Vec<SystemId>>,
)
    requires
        is_dist(map.graph(), s, t, d),
        d > 0,
        0 <= k < next.len(),
        next[k] == v,
        all_shortest(map, v, t, rest),
        after.len() == before.len() + rest.len(),
        forall|i: int| 0 <= i < before.len() ==> #[trigger] after[i] == before[i],
        forall|j: int|
            before.len() <= j < after.len() ==> (#[trigger] after[j])@ == seq![
                SystemId(map.ids()[s as int]),
            ] + rest[j - before.len()]@,
        forall|p: Seq<usize>|
            #[trigger] is_shortest_path(map.graph(), p, s, t) && (exists|i: int|
                0 <= i < k && next[i] == p[1]) ==> exists|m: int|
                0 <= m < before.len() && before[m]@ == route_ids(map, p),
    ensures
        forall|p: Seq<usize>|
            #[trigger] is_shortest_path(map.graph(), p, s, t) && (exists|i: int|
                0 <= i < k + 1 && next[i] == p[1]) ==> exists|m: int|
                0 <= m < after.len() && after[m]@ == route_ids(map, p),
{
    let g = map.graph();
    assert forall|p: Seq<usize>|
        #[trigger] is_shortest_path(g, p, s, t) && (exists|i: int| 0 <= i < k + 1 && next[i] == p[1]) implies exists|j: int|
        0 <= j < after.len() && after[j]@ == route_ids(map, p) by {
        if p[1] == v {
            crate::paths::lemma_shortest_path_len(g, p, s, t, d);
            assert(p.len() >= 2);
            lemma_shortest_tail(g, p, s, t);
            let i = choose|i: int| 0 <= i < rest.len() && rest[i]@ == route_ids(map, p.skip(1));
            assert(p =~= seq![s] + p.skip(1));
            lemma_route_ids_cons(map, s, p.skip(1));
            assert(after[before.len() + i]@ == route_ids(map, p));
            assert(0 <= before.len() + i < after.len());
        } else {
            let i = choose|i: int| 0 <= i < k + 1 && next[i] == p[1];
            assert(i < k);
            let j = choose|j: int| 0 <= j < before.len() && before[j]@ == route_ids(map, p);
            assert(after[j] == before[j]);
        }
    }
}

/// No route appears twice in `rs`.
pub open spec fn distinct_routes(rs: Seq<Vec<SystemId>>) -> bool {
    forall|a: int, b: int| 0 <= a < b < rs.len() ==> #[trigger] rs[a]@ != #[trigger] rs[b]@
}

/// Routes from `v`, each put behind a link from `s`, are new: they differ
/// from one another, and from the routes collected so far, whose second
/// systems are earlier next systems.
proof fn lemma_extend_distinct(
    map: &StarMap,
    s: usize,
    t: usize,
    v: usize,
    next: Seq<usize>,
    k: int,
    before: Seq<Vec<SystemId>>,
    rest: Seq<Vec<SystemId>>,
    after: Seq<Vec<SystemId>>,
)
    requires
        map.wf(),
        next.no_duplicates(),
        forall|i: int| 0 <= i < next.len() ==> (#[trigger] next[i] as int) < map.ids().len(),
        0 <= k < next.len(),
        next[k] == v,
        all_shortest(map, v, t, rest),
        distinct_routes(before),
        distinct_routes(rest),
        forall|m: int|
            0 <= m < before.len() ==> (#[trigger] before[m])@.len() >= 2 && exists|i: int|
                0 <= i < k && before[m]@[1] == SystemId(map.ids()[next[i] as int]),
        after.len() == before.len() + rest.len(),
        forall|i: int| 0 <= i < before.len() ==> #[trigger] after[i] == before[i],
        forall|j: int|
            before.len() <= j < after.len() ==> (#[trigger] after[j])@ == seq![
                SystemId(map.ids()[s as int]),
            ] + rest[j - before.len()]@,
    ensures
        distinct_routes(after),
        forall|m: int|
            0 <= m < after.len() ==> (#[trigger] after[m])@.len() >= 2 && exists|i: int|
                0 <= i < k + 1 && after[m]@[1] == SystemId(map.ids()[next[i] as int]),
{
    map.lemma_shape();
    reveal(is_shortest_path);
    assert forall|m: int| 0 <= m < after.len() implies (#[trigger] after[m])@.len() >= 2 && exists|i: int|
        0 <= i < k + 1 && after[m]@[1] == SystemId(map.ids()[next[i] as int]) by {
        if m < before.len() {
            assert(after[m] == before[m]);
            let i = choose|i: int| 0 <= i < k && before[m]@[1] == SystemId(map.ids()[next[i] as int]);
        } else {
            let r = rest[m - before.len()];
            assert(is_shortest_route(map, v, t, r@));
            let q = choose|q: Seq<usize>| #[trigger] is_shortest_path(map.graph(), q, v, t) && r@ == route_ids(map, q);
            assert(after[m]@[1] == r@[0]);
            assert(after[m]@[1] == SystemId(map.ids()[next[k] as int]));
        }
    }
    assert forall|a: int, b: int| 0 <= a < b < after.len() implies #[trigger] after[a]@ != #[trigger] after[b]@ by {
        if b < before.len() {
            assert(after[a] == before[a] && after[b] == before[b]);
        } else if a < before.len() {
            assert(after[a] == before[a]);
            let i = choose|i: int| 0 <= i < k && before[a]@[1] == SystemId(map.ids()[next[i] as int]);
            let r = rest[b - before.len()];
            assert(is_shortest_route(map, v, t, r@));
            let q = choose|q: Seq<usize>| #[trigger] is_shortest_path(map.graph(), q, v, t) && r@ == route_ids(map, q);
            assert(after[b]@[1] == r@[0]);
            assert(next[i] != next[k]);
            assert(map.ids()[next[i] as int] != map.ids()[next[k] as int]);
        } else {
            let x = rest[a - before.len()]@;
            let y = rest[b - before.len()]@;
            assert(x != y);
            assert(after[a]@.skip(1) =~= x);
            assert(after[b]@.skip(1) =~= y);
        }
    }
}

/// Every shortest route from position `s` to position `t`.
fn routes_from(map: &StarMap, apsp: &APSPTable, s: usize, t: usize) -> (r: Vec<Vec<SystemId>>)
    requires
        map.wf(),
        table_ok(map, *apsp),
        (s as int) < map.graph().len(),
        (t as int) < map.graph().len(),
        reachable(map.graph(), s, t),
    ensures
        r@.len() > 0,
        all_shortest(map, s, t, r@),
        distinct_routes(r@),
    decreases table_cells(*apsp)[s as int][t as int]->0.dist,
{
    proof {
        map.lemma_shape();
    }
    let ghost g = map.graph();
    let ghost cell = table_cells(*apsp)[s as int][t as int];
    proof {
        lemma_table_cell(map, *apsp, s as int, t as int);
    }
    let h = match apsp.hop(s, t) {
        Some(h) => h,
        None => { return Vec::new(); },
    };
    let d = h.dist;
    let ghost witness = crate::paths::lemma_dist_witness(g, s, t, d as nat);
    proof {
        crate::paths::lemma_shortest_path_len(g, witness, s, t, d as nat);
    }
    let first = map.id_at(s);
    let mut routes: Vec<Vec<SystemId>> = Vec::new();
    if d == 0 {
        let mut one: Vec<SystemId> = Vec::new();
        one.push(first);
        routes.push(one);
        proof {
            assert(routes@[0]@ =~= route_ids(map, witness));
            assert forall|p: Seq<usize>| #[trigger] is_shortest_path(g, p, s, t) implies exists|k: int|
                0 <= k < routes@.len() && routes@[k]@ == route_ids(map, p) by {
                crate::paths::lemma_shortest_path_len(g, p, s, t, d as nat);
                assert(p =~= witness);
            }
        }
        return routes;
    }
    let mut k: usize = 0;
    while k < h.next.len()
        invariant
            map.wf(),
            table_ok(map, *apsp),
            g == map.graph(),
            g.len() == map.ids().len(),
            (s as int) < g.len(),
            (t as int) < g.len(),
            first == SystemId(map.ids()[s as int]),
            cell == Some(*h),
            cell == table_cells(*apsp)[s as int][t as int],
            hop_ok(g, s, t, cell),
            d == h.dist,
            d > 0,
            k <= h.next@.len(),
            forall|m: int|
                #![trigger routes@[m]]
                0 <= m < routes@.len() ==> is_shortest_route(map, s, t, routes@[m]@),
            distinct_routes(routes@),
            forall|m: int|
                0 <= m < routes@.len() ==> (#[trigger] routes@[m])@.len() >= 2 && exists|i: int|
                    0 <= i < k && routes@[m]@[1] == SystemId(map.ids()[h.next@[i] as int]),
            forall|p: Seq<usize>|
                #[trigger] is_shortest_path(g, p, s, t) && (exists|i: int| 0 <= i < k && h.next@[i] == p[1]) ==> exists|m: int|
                    0 <= m < routes@.len() && routes@[m]@ == route_ids(map, p),
        decreases h.next@.len() - k,
    {
        let v = h.next[k];
        proof {
            assert(h.next@.contains(v));
            let vcell = table_cells(*apsp)[v as int][t as int];
            lemma_table_cell(map, *apsp, v as int, t as int);
            let q = crate::paths::lemma_dist_witness(g, v, t, (d - 1) as nat);
            assert(vcell is Some);
            crate::paths::lemma_dist_unique(g, v, t, vcell->0.dist as nat, (d - 1) as nat);
            assert(vcell->0.dist < cell->0.dist);
        }
        let rest = routes_from(map, apsp, v, t);
        let ghost before = routes@;
        prepend_all(first, &rest, &mut routes);
        proof {
            lemma_extend_sound(map, s, t, d as nat, v, before, rest@, routes@);
            lemma_extend_complete(map, s, t, d as nat, v, h.next@, k as int, before, rest@, routes@);
            assert forall|i: int| 0 <= i < h.next@.len() implies (#[trigger] h.next@[i] as int) < map.ids().len() by {
                assert(h.next@.contains(h.next@[i]));
            }
            lemma_extend_distinct(map, s, t, v, h.next@, k as int, before, rest@, routes@);
        }
        k = k + 1;
    }
    proof {
        assert forall|p: Seq<usize>| #[trigger] is_shortest_path(g, p, s, t) implies exists|j: int|
            0 <= j < routes@.len() && routes@[j]@ == route_ids(map, p) by {
            crate::paths::lemma_shortest_path_len(g, p, s, t, d as nat);
            lemma_shortest_tail(g, p, s, t);
            assert(h.next@.contains(p[1]));
            let i = choose|i: int| 0 <= i < h.next@.len() && h.next@[i] == p[1];
        }
    }
    routes
}

/// Every shortest route from `start` to `goal`, using the all-pairs table;
/// none if there is no route.
pub fn shortest_routes_apsp(map: &StarMap, apsp: &APSPTable, start: SystemId, goal: SystemId) -> (r:
    Option<Vec<Vec<SystemId>>>)
    requires
        map.wf(),
        table_ok(map, *apsp),
        map.has_id(start.0),
        map.has_id(goal.0),
    ensures
        r is Some <==> reachable(
            map.graph(),
            map.index_of(start.0) as usize,
            map.index_of(goal.0) as usize,
        ),
        r matches Some(routes) ==> distinct_routes(routes@),
        r matches Some(routes) ==> routes@.len() > 0 && all_shortest(
            map,
            map.index_of(start.0) as usize,
            map.index_of(goal.0) as usize,
            routes@,
        ),
{
    proof {
        map.lemma_shape();
    }
    let s = match map.position(start) {
        Some(s) => s,
        None => { return None; },
    };
    let t = match map.position(goal) {
        Some(t) => t,
        None => { return None; },
    };
    proof {
        lemma_table_cell(map, *apsp, s as int, t as int);
    }
    match apsp.hop(s, t) {
        None => None,
        Some(h) => {
            proof {
                crate::paths::lemma_dist_witness(map.graph(), s, t, h.dist as nat);
            }
            Some(routes_from(map, apsp, s, t))
        },
    }
}

} // verus!
