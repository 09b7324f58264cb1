//! Properties that relate the queries to one another.

use crate::alternatives::alternatives_ok;
use crate::apsp::{lemma_table_cell, table_ok};
use crate::diameter::{diameter_ok, pair_at};
use crate::graph::{StarMap, SystemId};
use crate::multipath::all_shortest;
use crate::paths::{is_shortest_path, lemma_dist_unique, lemma_dist_witness, lemma_shortest_path_len};
use crate::search::{is_shortest_route, route_found, route_ids, search_complete, settled, Waypoint};
use crate::table::{table_cells, APSPTable};
use vstd::prelude::*;

verus! {

/// A shortest route from `s` to `g` has one link fewer than it has systems,
/// and that many links is the distance that the all-pairs table records for
/// the pair.
pub proof fn lemma_route_length_is_table_distance(
    map: &StarMap,
    t: APSPTable,
    s: usize,
    g: usize,
    route: Seq<SystemId>,
)
    requires
        map.wf(),
        table_ok(map, t),
        (s as int) < map.graph().len(),
        (g as int) < map.graph().len(),
        is_shortest_route(map, s, g, route),
    ensures
        table_cells(t)[s as int][g as int] is Some,
        route.len() - 1 == table_cells(t)[s as int][g as int]->0.dist,
{
    reveal(is_shortest_path);
    let p = choose|p: Seq<usize>| #[trigger] is_shortest_path(map.graph(), p, s, g) && route == route_ids(map, p);
    lemma_table_cell(map, t, s as int, g as int);
    let d = (p.len() - 1) as nat;
    lemma_dist_witness(map.graph(), s, g, d);
    lemma_dist_unique(map.graph(), s, g, d, table_cells(t)[s as int][g as int]->0.dist as nat);
}

/// Enumerating all shortest routes with the table gives some route exactly
/// when a single shortest-route search finds one, and all the routes it
/// gives have the same number of systems as the one found.
pub proof fn lemma_all_routes_agree(
    map: &StarMap,
    s: usize,
    g: usize,
    found: Option<Seq<SystemId>>,
    all: Option<Seq<Vec<SystemId>>>,
)
    requires
        map.wf(),
        (s as int) < map.graph().len(),
        (g as int) < map.graph().len(),
        found is Some <==> crate::paths::reachable(map.graph(), s, g),
        found matches Some(r) ==> is_shortest_route(map, s, g, r),
        all is Some <==> crate::paths::reachable(map.graph(), s, g),
        all matches Some(rs) ==> rs.len() > 0 && all_shortest(map, s, g, rs),
    ensures
        (all matches Some(rs) && rs.len() > 0) <==> found is Some,
        all matches Some(rs) ==> forall|a: int, b: int|
            0 <= a < rs.len() && 0 <= b < rs.len() ==> (#[trigger] rs[a])@.len() == (
            #[trigger] rs[b])@.len(),
        found matches Some(r) ==> (all matches Some(rs) ==> forall|a: int|
            0 <= a < rs.len() ==> (#[trigger] rs[a])@.len() == r.len()),
{
    reveal(is_shortest_path);
    if let Some(r) = found {
        let rs = all->0;
        let p = choose|p: Seq<usize>| #[trigger] is_shortest_path(map.graph(), p, s, g) && r == route_ids(map, p);
        let d = (p.len() - 1) as nat;
        assert forall|a: int| 0 <= a < rs.len() implies (#[trigger] rs[a])@.len() == r.len() by {
            assert(is_shortest_route(map, s, g, rs[a]@));
            let q = choose|q: Seq<usize>| #[trigger] is_shortest_path(map.graph(), q, s, g) && rs[a]@ == route_ids(map, q);
            lemma_shortest_path_len(map.graph(), q, s, g, d);
        }
    }
}

/// The diameter is the largest distance that a complete search from any
/// system finds to another system, and the pairs it lists are exactly those
/// where a search finds that distance.
pub proof fn lemma_diameter_is_search_maximum(
    map: &StarMap,
    diameter: nat,
    longest: Seq<(SystemId, SystemId)>,
    i: usize,
    found: Seq<Option<Waypoint>>,
)
    requires
        map.wf(),
        diameter_ok(map, diameter, longest),
        (i as int) < map.graph().len(),
        search_complete(map, i, found),
    ensures
        forall|j: int|
            0 <= j < found.len() && j != i ==> (#[trigger] found[j] matches Some(w) ==> w.dist
                <= diameter),
        forall|j: int|
            0 <= j < found.len() && j != i ==> ((#[trigger] found[j] matches Some(w) && w.dist
                == diameter) <==> longest.contains(pair_at(map, i as int, j))),
{
    assert forall|j: int| 0 <= j < found.len() && j != i implies (#[trigger] found[j] matches Some(w)
        ==> w.dist <= diameter) by {
        assert(settled(map, i, found, j));
        if let Some(w) = found[j] {
            let ii = i as int;
            assert(crate::paths::is_dist(map.graph(), ii as usize, j as usize, w.dist as nat));
        }
    }
    assert forall|j: int| 0 <= j < found.len() && j != i implies ((#[trigger] found[j] matches Some(w)
        && w.dist == diameter) <==> longest.contains(pair_at(map, i as int, j))) by {
        assert(settled(map, i, found, j));
        if longest.contains(pair_at(map, i as int, j)) {
            let p = lemma_dist_witness(map.graph(), i, j as usize, diameter);
            let w = found[j]->0;
            lemma_dist_unique(map.graph(), i, j as usize, diameter, w.dist as nat);
        }
    }
}

/// Two shortest-route queries between the same systems of the same map
/// give the same answer: both none, or the same route.
pub proof fn lemma_shortest_route_repeatable(
    map: &StarMap,
    start: SystemId,
    goal: SystemId,
    first: Option<Vec<SystemId>>,
    second: Option<Vec<SystemId>>,
)
    requires
        first matches Some(route) ==> route_found(map, start, goal) == Some(route@),
        first is None ==> route_found(map, start, goal) is None,
        second matches Some(route) ==> route_found(map, start, goal) == Some(route@),
        second is None ==> route_found(map, start, goal) is None,
    ensures
        first is Some <==> second is Some,
        first matches Some(a) ==> (second matches Some(b) && a@ == b@),
{
}

/// The answer to an alternative-route query begins with the route that a
/// shortest-route query between the same systems gives, and holds no more
/// routes than were asked for.
pub proof fn lemma_alternatives_begin_with_shortest(
    map: &StarMap,
    apsp: APSPTable,
    start: SystemId,
    goal: SystemId,
    baseline: Option<Vec<SystemId>>,
    routes: Seq<Vec<SystemId>>,
    max_routes: int,
    sharing: int,
    local_opt: int,
    ub_stretch: int,
)
    requires
        baseline matches Some(route) ==> route_found(map, start, goal) == Some(route@),
        baseline is None ==> route_found(map, start, goal) is None,
        route_found(map, start, goal) == Some(routes[0]@),
        alternatives_ok(
            map,
            apsp,
            map.index_of(start.0) as usize,
            map.index_of(goal.0) as usize,
            routes.map_values(|v: Vec<SystemId>| v@),
            max_routes,
            sharing,
            local_opt,
            ub_stretch,
        ),
    ensures
        baseline matches Some(route) && route@ == routes[0]@,
        1 <= routes.len() <= max_routes,
{
}

} // verus!
