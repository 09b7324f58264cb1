//! Single-source search: breadth-first search from one system, and the
//! shortest route read back from its parent links.

use crate::graph::{StarMap, SystemId};
use crate::paths::{
    edge, is_dist, is_shortest_path, lemma_closed_holds_reachable, lemma_path_cons, lemma_path_exit,
    lemma_path_prefix, lemma_path_push, path_between, reachable,
};
use vstd::prelude::*;
use vstd::set_lib::{lemma_int_range, lemma_len_subset, set_int_range};

verus! {

/// A system settled by a search: its distance from the start, and the
/// system it was first reached from (none at the start).
#[derive(Clone, Debug)]
pub struct Waypoint {
    /// Distance from the start.
    pub dist: usize,
    /// The system settled.
    pub cur: SystemId,
    /// The system it was reached from, if it is not the start.
    pub parent: Option<SystemId>,
}

impl Waypoint {
    /// A waypoint made of its three parts.
    pub fn new(dist: usize, cur: SystemId, parent: Option<SystemId>) -> (r: Waypoint)
        ensures
            r == (Waypoint { dist, cur, parent }),
    {
        Waypoint { dist, cur, parent }
    }
}

/// An entry of the search frontier: a position reached at a distance, and
/// the position it was reached from.
struct Entry {
    dist: usize,
    at: usize,
    from: Option<usize>,
}

/// What a search from position `s` has settled at position `i` is right:
/// the true distance, and a parent one step closer that it links to.
pub open spec fn settled(map: &StarMap, s: usize, r: Seq<Option<Waypoint>>, i: int) -> bool {
    r[i] matches Some(w) ==> {
        &&& w.cur.0 == map.ids()[i]
        &&& is_dist(map.graph(), s, i as usize, w.dist as nat)
        &&& (w.parent is None <==> i == s)
        &&& w.parent matches Some(p) ==> {
            let j = map.index_of(p.0);
            &&& map.has_id(p.0)
            &&& 0 <= j < r.len()
            &&& r[j] matches Some(pw) && pw.dist + 1 == w.dist
            &&& edge(map.graph(), j as usize, i as usize)
        }
    }
}

/// The ids along a route of positions.
pub open spec fn route_ids(map: &StarMap, p: Seq<usize>) -> Seq<SystemId> {
    p.map_values(|i: usize| SystemId(map.ids()[i as int]))
}

/// `r` is the ids along a shortest route from position `s` to position `t`.
pub open spec fn is_shortest_route(map: &StarMap, s: usize, t: usize, r: Seq<SystemId>) -> bool {
    exists|p: Seq<usize>| #[trigger] is_shortest_path(map.graph(), p, s, t) && r == route_ids(map, p)
}

/// `r` is the result of a search from position `s` that settled every
/// system it could reach.
pub open spec fn search_complete(map: &StarMap, s: usize, r: Seq<Option<Waypoint>>) -> bool {
    &&& r.len() == map.graph().len()
    &&& forall|i: int| 0 <= i < r.len() ==> #[trigger] settled(map, s, r, i)
    &&& forall|i: int| 0 <= i < r.len() ==> (r[i] is Some <==> reachable(map.graph(), s, i as usize))
}

/// A frontier entry is sound: its position is in the map, the start is
/// entered at distance zero, and any other entry comes over a link from a
/// settled position one step nearer.
spec fn entry_ok(map: &StarMap, s: usize, closed: Seq<Option<Waypoint>>, e: Entry) -> bool {
    &&& (e.at as int) < map.graph().len()
    &&& e.from is None ==> e.at == s && e.dist == 0
    &&& e.from matches Some(f) ==> {
        &&& (f as int) < closed.len()
        &&& closed[f as int] matches Some(w) && w.dist + 1 == e.dist
        &&& edge(map.graph(), f, e.at)
    }
}

/// The entries that settling position `at` adds to the frontier: one for
/// each of its links, at distance `dist`.
spec fn expand(g: Seq<Seq<usize>>, at: usize, dist: usize) -> Seq<Entry> {
    g[at as int].map_values(|v: usize| Entry { dist, at: v, from: Some(at) })
}

/// One step of the search: take the head of the frontier and, unless its
/// position is settled already, settle it and stop there if it is the goal,
/// or else add its links to the frontier. A state holds what is settled, the
/// frontier, the position of its head, and whether the goal was settled.
spec fn search_step(
    map: &StarMap,
    goal: Option<usize>,
    st: (Seq<Option<Waypoint>>, Seq<Entry>, int, bool),
) -> (Seq<Option<Waypoint>>, Seq<Entry>, int, bool) {
    let e = st.1[st.2];
    if st.0[e.at as int] is Some {
        (st.0, st.1, st.2 + 1, false)
    } else {
        let w = Waypoint {
            dist: e.dist,
            cur: SystemId(map.ids()[e.at as int]),
            parent: match e.from {
                Some(f) => Some(SystemId(map.ids()[f as int])),
                None => None,
            },
        };
        let closed = st.0.update(e.at as int, Some(w));
        if goal == Some(e.at) {
            (closed, st.1, st.2 + 1, true)
        } else {
            (closed, st.1 + expand(map.graph(), e.at, (e.dist + 1) as usize), st.2 + 1, false)
        }
    }
}

/// The search has ended: the goal is settled or the frontier is empty.
spec fn search_done(st: (Seq<Option<Waypoint>>, Seq<Entry>, int, bool)) -> bool {
    st.3 || st.2 >= st.1.len()
}

/// Up to `fuel` steps of the search from `st`.
spec fn search_run(
    map: &StarMap,
    goal: Option<usize>,
    st: (Seq<Option<Waypoint>>, Seq<Entry>, int, bool),
    fuel: nat,
) -> (Seq<Option<Waypoint>>, Seq<Entry>, int, bool)
    decreases fuel,
{
    if fuel == 0 || search_done(st) {
        st
    } else {
        search_run(map, goal, search_step(map, goal, st), (fuel - 1) as nat)
    }
}

/// The search from position `s`, before its first step.
spec fn search_start(map: &StarMap, s: usize) -> (Seq<Option<Waypoint>>, Seq<Entry>, int, bool) {
    (
        Seq::new(map.graph().len(), |i: int| None::<Waypoint>),
        seq![Entry { dist: 0, at: s, from: None }],
        0,
        false,
    )
}

/// What the search from position `s` toward `goal` has settled when it ends.
pub closed spec fn search_result(map: &StarMap, s: usize, goal: Option<usize>) -> Seq<Option<Waypoint>> {
    let k = choose|k: nat| search_done(search_run(map, goal, search_start(map, s), k));
    search_run(map, goal, search_start(map, s), k).0
}

/// The position of `goal` in `map`, where it has one.
pub open spec fn goal_index(map: &StarMap, goal: Option<SystemId>) -> Option<usize> {
    match goal {
        Some(t) => if map.has_id(t.0) {
            Some(map.index_of(t.0) as usize)
        } else {
            None
        },
        None => None,
    }
}

/// Once the search has ended, further steps change nothing.
proof fn lemma_run_stable(
    map: &StarMap,
    goal: Option<usize>,
    st: (Seq<Option<Waypoint>>, Seq<Entry>, int, bool),
    k: nat,
    j: nat,
)
    requires
        search_done(search_run(map, goal, st, k)),
    ensures
        search_run(map, goal, st, k + j) == search_run(map, goal, st, k),
    decreases k,
{
    if k == 0 {
        if j > 0 {
            assert(search_done(st));
        }
    } else if !search_done(st) {
        lemma_run_stable(map, goal, search_step(map, goal, st), (k - 1) as nat, j);
        assert((k + j - 1) as nat == ((k - 1) as nat + j) as nat);
    }
}

/// A search that ends after `k` steps settles what the search result says.
proof fn lemma_search_result(map: &StarMap, s: usize, goal: Option<usize>, k: nat)
    requires
        search_done(search_run(map, goal, search_start(map, s), k)),
    ensures
        search_result(map, s, goal) == search_run(map, goal, search_start(map, s), k).0,
{
    let st = search_start(map, s);
    let c = choose|c: nat| search_done(search_run(map, goal, st, c));
    if c <= k {
        lemma_run_stable(map, goal, st, c, (k - c) as nat);
        assert(c + (k - c) as nat == k);
    } else {
        lemma_run_stable(map, goal, st, k, (c - k) as nat);
        assert(k + (c - k) as nat == c);
    }
}

/// Appends an entry for each of `links`, at distance `dist`, reached from
/// `from`.
fn push_links(queue: &mut Vec<Entry>, links: &Vec<usize>, dist: usize, from: usize)
    ensures
        final(queue)@.len() == old(queue)@.len() + links@.len(),
        forall|a: int| 0 <= a < old(queue)@.len() ==> #[trigger] final(queue)@[a] == old(queue)@[a],
        forall|k: int|
            0 <= k < links@.len() ==> #[trigger] final(queue)@[old(queue)@.len() + k] == (Entry {
                dist,
                at: links@[k],
                from: Some(from),
            }),
{
    let ghost start = queue@;
    let mut k: usize = 0;
    while k < links.len()
        invariant
            k <= links@.len(),
            queue@.len() == start.len() + k,
            forall|a: int| 0 <= a < start.len() ==> #[trigger] queue@[a] == start[a],
            forall|j: int|
                0 <= j < k ==> #[trigger] queue@[start.len() + j] == (Entry {
                    dist,
                    at: links@[j],
                    from: Some(from),
                }),
        decreases links@.len() - k,
    {
        queue.push(Entry { dist, at: links[k], from: Some(from) });
        k = k + 1;
    }
}

/// Every link out of a settled position leads to a settled position or to
/// one waiting in the frontier, no more than one step further away.
#[verifier::opaque]
spec fn frontier_ok(g: Seq<Seq<usize>>, closed: Seq<Option<Waypoint>>, queue: Seq<Entry>, head: int) -> bool {
    forall|c: usize, v: usize|
        #[trigger] edge(g, c, v) && closed[c as int] is Some ==> closed[v as int] is Some
            || exists|a: int|
            head <= a < queue.len() && (#[trigger] queue[a]).at == v && queue[a].dist
                <= closed[c as int]->0.dist + 1
}

/// The start is settled or waits in the frontier at distance zero.
#[verifier::opaque]
spec fn start_ok(closed: Seq<Option<Waypoint>>, queue: Seq<Entry>, head: int, s: usize) -> bool {
    closed[s as int] is Some || exists|a: int|
        head <= a < queue.len() && (#[trigger] queue[a]).at == s && queue[a].dist == 0
}

/// The frontier is sorted by distance, spans at most one step, and lies no
/// nearer than anything settled.
#[verifier::opaque]
spec fn ordered(closed: Seq<Option<Waypoint>>, queue: Seq<Entry>, head: int) -> bool {
    &&& forall|a: int, b: int|
        head <= a <= b < queue.len() ==> #[trigger] queue[a].dist <= #[trigger] queue[b].dist
    &&& forall|a: int| head <= a < queue.len() ==> #[trigger] queue[a].dist <= queue[head].dist + 1
    &&& forall|j: int, a: int|
        0 <= j < closed.len() && head <= a < queue.len() ==> (#[trigger] closed[j] matches Some(w)
            ==> w.dist <= (#[trigger] queue[a]).dist)
}

/// The entry at the head of the frontier, for a position not yet settled,
/// carries the true distance: no path is shorter.
proof fn lemma_head_is_nearest(
    g: Seq<Seq<usize>>,
    s: usize,
    closed: Seq<Option<Waypoint>>,
    queue: Seq<Entry>,
    head: int,
)
    requires
        0 <= head < queue.len(),
        (s as int) < closed.len(),
        closed.len() == g.len(),
        closed[queue[head].at as int] is None,
        forall|j: int|
            0 <= j < closed.len() ==> (#[trigger] closed[j] matches Some(w) ==> is_dist(
                g,
                s,
                j as usize,
                w.dist as nat,
            )),
        frontier_ok(g, closed, queue, head),
        start_ok(closed, queue, head, s),
        ordered(closed, queue, head),
    ensures
        forall|p: Seq<usize>| #[trigger]
            path_between(g, p, s, queue[head].at) ==> p.len() >= queue[head].dist + 1,
{
    reveal(is_dist);
    reveal(frontier_ok);
    reveal(start_ok);
    reveal(ordered);
    let e_at = queue[head].at;
    let e_dist = queue[head].dist;
    let inside = |x: usize| closed[x as int] is Some;
    assert forall|p: Seq<usize>| #[trigger]
        path_between(g, p, s, e_at) implies p.len() >= e_dist + 1 by {
        if p.len() < e_dist + 1 {
            if closed[s as int] is None {
                let a = choose|a: int|
                    head <= a < queue.len() && (#[trigger] queue[a]).at == s && queue[a].dist == 0;
                assert(queue[head].dist <= queue[a].dist);
            }
            assert(inside(p[0]) && !inside(p.last()));
            lemma_path_exit(g, p, inside);
            let k = choose|k: int| 0 <= k < p.len() - 1 && inside(#[trigger] p[k]) && !inside(p[k + 1]);
            let c = p[k];
            lemma_path_prefix(g, p, s, e_at, k);
            assert(p.take(k + 1).len() == k + 1);
            assert(edge(g, p[k], p[k + 1]));
            let a = choose|a: int|
                head <= a < queue.len() && (#[trigger] queue[a]).at == p[k + 1] && queue[a].dist
                    <= closed[c as int]->0.dist + 1;
            assert(queue[head].dist <= queue[a].dist);
        }
    }
}

/// Dropping the head of the frontier for a position already settled keeps
/// the frontier's properties.
proof fn lemma_skip_settled(
    g: Seq<Seq<usize>>,
    s: usize,
    closed: Seq<Option<Waypoint>>,
    queue: Seq<Entry>,
    head: int,
)
    requires
        0 <= head < queue.len(),
        closed[queue[head].at as int] is Some,
        frontier_ok(g, closed, queue, head),
        start_ok(closed, queue, head, s),
        ordered(closed, queue, head),
    ensures
        frontier_ok(g, closed, queue, head + 1),
        start_ok(closed, queue, head + 1, s),
        ordered(closed, queue, head + 1),
{
    reveal(frontier_ok);
    reveal(start_ok);
    reveal(ordered);
    assert forall|c: usize, v: usize|
        #[trigger] edge(g, c, v) && closed[c as int] is Some implies closed[v as int] is Some
        || exists|a: int|
        head + 1 <= a < queue.len() && (#[trigger] queue[a]).at == v && queue[a].dist
            <= closed[c as int]->0.dist + 1 by {
        if closed[v as int] is None {
            let a = choose|a: int|
                head <= a < queue.len() && (#[trigger] queue[a]).at == v && queue[a].dist
                    <= closed[c as int]->0.dist + 1;
            assert(a != head);
        }
    }
    if closed[s as int] is None {
        let a = choose|a: int| head <= a < queue.len() && (#[trigger] queue[a]).at == s && queue[a].dist == 0;
        assert(a != head);
    }
    assert forall|a: int| head + 1 <= a < queue.len() implies #[trigger] queue[a].dist <= queue[head
        + 1].dist + 1 by {
        assert(queue[head].dist <= queue[head + 1].dist);
    }
}

/// Settling the head's position and appending an entry for each of its links
/// keeps the frontier's properties.
proof fn lemma_settle_and_expand(
    g: Seq<Seq<usize>>,
    s: usize,
    closed: Seq<Option<Waypoint>>,
    w: Waypoint,
    queue: Seq<Entry>,
    head: int,
    grown: Seq<Entry>,
)
    requires
        0 <= head < queue.len(),
        closed.len() == g.len(),
        (s as int) < g.len(),
        (queue[head].at as int) < g.len(),
        closed[queue[head].at as int] is None,
        w.dist == queue[head].dist,
        grown.len() == queue.len() + g[queue[head].at as int].len(),
        forall|a: int| 0 <= a < queue.len() ==> #[trigger] grown[a] == queue[a],
        forall|k: int|
            0 <= k < g[queue[head].at as int].len() ==> #[trigger] grown[queue.len() + k] == (Entry {
                dist: (queue[head].dist + 1) as usize,
                at: g[queue[head].at as int][k],
                from: Some(queue[head].at),
            }),
        queue[head].dist + 1 <= usize::MAX,
        frontier_ok(g, closed, queue, head),
        start_ok(closed, queue, head, s),
        ordered(closed, queue, head),
        queue[head].at == s || closed[s as int] is Some,
    ensures
        frontier_ok(g, closed.update(queue[head].at as int, Some(w)), grown, head + 1),
        start_ok(closed.update(queue[head].at as int, Some(w)), grown, head + 1, s),
        ordered(closed.update(queue[head].at as int, Some(w)), grown, head + 1),
{
    reveal(frontier_ok);
    reveal(start_ok);
    reveal(ordered);
    let e_at = queue[head].at;
    let d = queue[head].dist;
    let now = closed.update(e_at as int, Some(w));
    let links = g[e_at as int];
    let m = queue.len();
    assert forall|a: int, b: int|
        head + 1 <= a <= b < grown.len() implies #[trigger] grown[a].dist <= #[trigger] grown[b].dist by {
        if a < m {
            assert(grown[a] == queue[a]);
            assert(queue[a].dist <= queue[head].dist + 1);
            if b < m {
                assert(grown[b] == queue[b]);
            } else {
                assert(grown[m + (b - m)] == grown[b]);
            }
        } else {
            assert(grown[m + (b - m)] == grown[b]);
            assert(grown[m + (a - m)] == grown[a]);
        }
    }
    if head + 1 < grown.len() {
        assert forall|a: int|
            head + 1 <= a < grown.len() implies #[trigger] grown[a].dist <= grown[head + 1].dist + 1 by {
            if a < m {
                assert(grown[a] == queue[a]);
                assert(queue[a].dist <= queue[head].dist + 1);
            } else {
                assert(grown[m + (a - m)] == grown[a]);
            }
            if head + 1 < m {
                assert(grown[head + 1] == queue[head + 1]);
                assert(queue[head].dist <= queue[head + 1].dist);
            } else {
                assert(grown[m + (head + 1 - m)] == grown[head + 1]);
            }
        }
    }
    assert forall|j: int, a: int|
        0 <= j < now.len() && head + 1 <= a < grown.len() implies (#[trigger] now[j] matches Some(x)
        ==> x.dist <= (#[trigger] grown[a]).dist) by {
        if a < m {
            assert(grown[a] == queue[a]);
            assert(queue[head].dist <= queue[a].dist);
        } else {
            assert(grown[m + (a - m)] == grown[a]);
        }
        if j != e_at {
            assert(closed[j] == now[j]);
            if a < m {
                assert(closed[j] matches Some(x) ==> x.dist <= queue[a].dist);
            } else {
                assert(closed[j] matches Some(x) ==> x.dist <= queue[head].dist);
            }
        }
    }
    assert forall|c: usize, v: usize|
        #[trigger] edge(g, c, v) && now[c as int] is Some implies now[v as int] is Some || exists|a: int|
        head + 1 <= a < grown.len() && (#[trigger] grown[a]).at == v && grown[a].dist
            <= now[c as int]->0.dist + 1 by {
        if c == e_at {
            let k = choose|k: int| 0 <= k < links.len() && links[k] == v;
            assert(grown[m + k].at == v);
        } else {
            assert(closed[c as int] == now[c as int]);
            if closed[v as int] is None && v != e_at {
                let a = choose|a: int|
                    head <= a < queue.len() && (#[trigger] queue[a]).at == v && queue[a].dist
                        <= closed[c as int]->0.dist + 1;
                assert(grown[a] == queue[a]);
            }
        }
    }
    if s != e_at {
        assert(now[s as int] == closed[s as int]);
    }
}

/// Breadth-first search from `start`. The result holds, at each position,
/// the waypoint of the system there if the search settled it. With a goal
/// the search stops once the goal is settled; without one it settles every
/// system reachable from `start`.
pub fn bfs(map: &StarMap, start: SystemId, goal: Option<SystemId>) -> (r: Vec<Option<Waypoint>>)
    requires
        map.wf(),
        map.has_id(start.0),
    ensures
        r@.len() == map.graph().len(),
        forall|i: int|
            0 <= i < r@.len() ==> #[trigger] settled(map, map.index_of(start.0) as usize, r@, i),
        r@ == search_result(map, map.index_of(start.0) as usize, goal_index(map, goal)),
        goal is None ==> search_complete(map, map.index_of(start.0) as usize, r@),
        goal matches Some(t) ==> (map.has_id(t.0) ==> (r@[map.index_of(t.0)] is Some
            <==> reachable(map.graph(), map.index_of(start.0) as usize, map.index_of(t.0) as usize))),
{
    proof {
        map.lemma_shape();
    }
    let ghost g = map.graph();
    let n = map.size();
    let s = match map.position(start) {
        Some(i) => i,
        None => { return Vec::new(); },
    };
    let goal_pos: Option<usize> = match goal {
        Some(t) => map.position(t),
        None => None,
    };
    let mut closed: Vec<Option<Waypoint>> = Vec::new();
    let mut i: usize = 0;
    while i < n
        invariant
            i <= n,
            closed@.len() == i,
            forall|j: int| 0 <= j < i ==> #[trigger] closed@[j] is None,
        decreases n - i,
    {
        closed.push(None);
        i = i + 1;
    }
    let mut queue: Vec<Entry> = Vec::new();
    queue.push(Entry { dist: 0, at: s, from: None });
    let mut head: usize = 0;
    let ghost mut done: Set<int> = Set::empty();
    let ghost mut steps: nat = 0;
    proof {
        assert(closed@ =~= search_start(map, s).0);
        assert(queue@ =~= search_start(map, s).1);
        lemma_int_range(0, n as int);
        reveal(frontier_ok);
        reveal(start_ok);
        reveal(ordered);
        assert(queue@[0].at == s);
    }
    while head < queue.len()
        invariant
            map.wf(),
            g == map.graph(),
            n == g.len(),
            n == map.ids().len(),
            (s as int) < n,
            s == map.index_of(start.0),
            goal_pos matches Some(t) ==> (t as int) < n && t == map.index_of((goal->0).0),
            goal_pos is None ==> goal is None || !map.has_id((goal->0).0),
            goal_pos is Some ==> goal is Some,
            closed@.len() == n,
            head <= queue@.len(),
            forall|a: int|
                0 <= a < queue@.len() ==> entry_ok(map, s, closed@, #[trigger] queue@[a])
                    && queue@[a].dist <= a,
            forall|j: int| 0 <= j < n ==> #[trigger] settled(map, s, closed@, j),
            forall|j: int| 0 <= j < n ==> (#[trigger] closed@[j] is Some <==> done.contains(j)),
            forall|j: int| #[trigger] done.contains(j) ==> 0 <= j < n,
            set_int_range(0, n as int).finite(),
            set_int_range(0, n as int).len() == n,
            forall|j: int| 0 <= j < n ==> #[trigger] closed@[j] is Some ==> closed@[s as int] is Some,
            frontier_ok(g, closed@, queue@, head as int),
            start_ok(closed@, queue@, head as int, s),
            ordered(closed@, queue@, head as int),
            goal_pos matches Some(t) ==> closed@[t as int] is None,
            goal_pos == goal_index(map, goal),
            forall|f: nat|
                search_run(map, goal_pos, search_start(map, s), steps + f) == #[trigger] search_run(
                    map,
                    goal_pos,
                    (closed@, queue@, head as int, false),
                    f,
                ),
        decreases n - done.len(), queue@.len() - head,
    {
        proof {
            map.lemma_shape();
            lemma_len_subset(done, set_int_range(0, n as int));
        }
        let e_dist = queue[head].dist;
        let e_at = queue[head].at;
        let e_from = queue[head].from;
        let ghost old_head = head;
        let ghost old_queue = queue@;
        let ghost cur = (closed@, queue@, head as int, false);
        let ghost next = search_step(map, goal_pos, cur);
        proof {
            assert forall|f: nat|
                search_run(map, goal_pos, search_start(map, s), (steps + 1) + f) == #[trigger] search_run(
                    map,
                    goal_pos,
                    next,
                    f,
                ) by {
                assert(search_run(map, goal_pos, search_start(map, s), steps + (f + 1)) == search_run(map, goal_pos, cur, (f + 1) as nat));
                assert((steps + 1) + f == steps + (f + 1));
            }
        }
        head = head + 1;
        if closed[e_at].is_none() {
            proof {
                reveal(is_dist);
                assert forall|j: int|
                    0 <= j < closed@.len() implies (#[trigger] closed@[j] matches Some(w) ==> is_dist(
                    g,
                    s,
                    j as usize,
                    w.dist as nat,
                )) by {
                    assert(settled(map, s, closed@, j));
                }
                lemma_head_is_nearest(g, s, closed@, queue@, old_head as int);
                assert(entry_ok(map, s, closed@, queue@[old_head as int]));
                match e_from {
                    None => {
                        assert(path_between(g, seq![s], s, e_at));
                    },
                    Some(f) => {
                        assert(settled(map, s, closed@, f as int));
                        let w = closed@[f as int]->0;
                        let pf = choose|p: Seq<usize>|
                            #[trigger] path_between(g, p, s, f) && p.len() == w.dist + 1;
                        lemma_path_push(g, pf, s, f, e_at);
                        assert(path_between(g, pf.push(e_at), s, e_at));
                    },
                }
                assert(is_dist(g, s, e_at, e_dist as nat));
                lemma_len_subset(done, set_int_range(0, n as int).remove(e_at as int));
            }
            let parent = match e_from {
                Some(f) => Some(map.id_at(f)),
                None => None,
            };
            let ghost old_closed = closed@;
            let w = Waypoint::new(e_dist, map.id_at(e_at), parent);
            closed.set(e_at, Some(w));
            proof {
                done = done.insert(e_at as int);
                assert forall|j: int| 0 <= j < n implies #[trigger] settled(map, s, closed@, j) by {
                    if j != e_at {
                        assert(settled(map, s, old_closed, j));
                        if let Some(x) = closed@[j] {
                            if let Some(p) = x.parent {
                                let pj = map.index_of(p.0);
                                assert(old_closed[pj] is Some);
                            }
                        }
                    } else {
                        if let Some(f) = e_from {
                            assert(map.index_of(map.ids()[f as int]) == f);
                            assert(map.ids().contains(map.ids()[f as int]));
                            assert(old_closed[s as int] is Some);
                        }
                    }
                }
            }
            if let Some(t) = goal_pos {
                if t == e_at {
                    proof {
                        assert(reachable(g, s, t));
                        assert(closed@ == next.0);
                        assert(search_run(map, goal_pos, next, 0) == next);
                        assert(search_run(map, goal_pos, search_start(map, s), steps + 1 + 0) == search_run(map, goal_pos, next, 0));
                        lemma_search_result(map, s, goal_pos, steps + 1);
                    }
                    return closed;
                }
            }
            push_links(&mut queue, map.links(e_at), e_dist + 1, e_at);
            proof {
                let grown = old_queue + expand(g, e_at, (e_dist + 1) as usize);
                assert forall|j: int| 0 <= j < queue@.len() implies queue@[j] == grown[j] by {
                    if j >= old_queue.len() {
                        let k = j - old_queue.len();
                        assert(queue@[old_queue.len() + k] == grown[j]);
                    }
                }
                assert(queue@ =~= grown);
                assert(closed@ == next.0);
                assert((closed@, queue@, head as int, false) == next);
                steps = steps + 1;
                let links = g[e_at as int];
                assert forall|a: int|
                    0 <= a < queue@.len() implies entry_ok(map, s, closed@, #[trigger] queue@[a])
                    && queue@[a].dist <= a by {
                    if a < old_queue.len() {
                        assert(queue@[a] == old_queue[a]);
                        assert(entry_ok(map, s, old_closed, old_queue[a]));
                    } else {
                        let k = a - old_queue.len();
                        assert(queue@[old_queue.len() + k] == queue@[a]);
                        assert(links.contains(links[k]));
                    }
                }
                if e_from is None {
                    assert(old_closed[s as int] is None);
                }
                lemma_settle_and_expand(g, s, old_closed, w, old_queue, old_head as int, queue@);
            }
        } else {
            proof {
                lemma_skip_settled(g, s, closed@, queue@, old_head as int);
                assert((closed@, queue@, head as int, false) == next);
                steps = steps + 1;
            }
        }
    }
    proof {
        assert(search_run(map, goal_pos, search_start(map, s), steps + 0) == search_run(map, goal_pos, (closed@, queue@, head as int, false), 0));
        lemma_search_result(map, s, goal_pos, steps);
        reveal(is_dist);
        reveal(frontier_ok);
        reveal(start_ok);
        let inside = |x: usize| closed@[x as int] is Some;
        assert forall|u: usize, v: usize| inside(u) && #[trigger] edge(g, u, v) implies inside(v) by {}
        assert forall|j: int| 0 <= j < n implies (closed@[j] is Some <==> reachable(
            g,
            s,
            j as usize,
        )) by {
            if closed@[j] is Some {
                assert(settled(map, s, closed@, j));
            }
            if reachable(g, s, j as usize) {
                lemma_closed_holds_reachable(g, inside, s, j as usize);
            }
        }
    }
    closed
}

/// The route read back from what a search settled: from position `c`
/// along parent links, for at most `fuel` links, in start-to-`c` order.
spec fn route_back(map: &StarMap, table: Seq<Option<Waypoint>>, c: int, fuel: nat) -> Seq<SystemId>
    decreases fuel,
{
    match table[c] {
        Some(w) => match w.parent {
            Some(p) => if fuel > 0 {
                route_back(map, table, map.index_of(p.0), (fuel - 1) as nat).push(w.cur)
            } else {
                seq![w.cur]
            },
            None => seq![w.cur],
        },
        None => Seq::empty(),
    }
}

/// The route that a search from `start` toward `goal` reads back, where it
/// settles `goal`.
pub closed spec fn route_found(map: &StarMap, start: SystemId, goal: SystemId) -> Option<Seq<SystemId>> {
    if !map.has_id(goal.0) {
        None
    } else {
        let t = map.index_of(goal.0);
        let table = search_result(map, map.index_of(start.0) as usize, Some(t as usize));
        match table[t] {
            Some(w) => Some(route_back(map, table, t, w.dist as nat)),
            None => None,
        }
    }
}

/// A shortest route from `start` to `goal`, read back from the parent links
/// of a search: none if `goal` is not in the map or cannot be reached.
pub fn shortest_route(map: &StarMap, start: SystemId, goal: SystemId) -> (r: Option<Vec<SystemId>>)
    requires
        map.wf(),
        map.has_id(start.0),
    ensures
        r is Some <==> map.has_id(goal.0) && reachable(
            map.graph(),
            map.index_of(start.0) as usize,
            map.index_of(goal.0) as usize,
        ),
        r matches Some(route) ==> is_shortest_route(
            map,
            map.index_of(start.0) as usize,
            map.index_of(goal.0) as usize,
            route@,
        ),
        r matches Some(route) ==> route_found(map, start, goal) == Some(route@),
        r is None ==> route_found(map, start, goal) is None,
{
    proof {
        map.lemma_shape();
    }
    let ghost g = map.graph();
    let ghost s = map.index_of(start.0) as usize;
    let waypoints = bfs(map, start, Some(goal));
    let t = match map.position(goal) {
        Some(t) => t,
        None => { return None; },
    };
    let (goal_dist, mut parent) = match &waypoints[t] {
        Some(w) => (w.dist, w.parent),
        None => { return None; },
    };
    let mut reversed: Vec<SystemId> = Vec::new();
    reversed.push(map.id_at(t));
    let mut cur: usize = t;
    let mut cur_dist: usize = goal_dist;
    let ghost mut suffix: Seq<usize> = seq![t];
    proof {
        assert(settled(map, s, waypoints@, t as int));
        assert forall|k: int| 0 <= k < suffix.len() implies (#[trigger] suffix[k] as int) < g.len() by {}
    }
    while parent.is_some()
        invariant
            map.wf(),
            g == map.graph(),
            g.len() == map.ids().len(),
            waypoints@.len() == g.len(),
            forall|i: int| 0 <= i < waypoints@.len() ==> #[trigger] settled(map, s, waypoints@, i),
            (cur as int) < g.len(),
            waypoints@[cur as int] matches Some(w) && w.dist == cur_dist && w.parent == parent,
            is_dist(g, s, t, goal_dist as nat),
            cur_dist <= goal_dist,
            path_between(g, suffix, cur, t),
            suffix.len() == goal_dist - cur_dist + 1,
            reversed@.len() == suffix.len(),
            forall|k: int|
                0 <= k < reversed@.len() ==> #[trigger] reversed@[k] == SystemId(
                    map.ids()[suffix[suffix.len() - 1 - k] as int],
                ),
            (t as int) < g.len(),
            waypoints@[t as int] matches Some(w) && w.dist == goal_dist,
            route_back(map, waypoints@, t as int, goal_dist as nat) == route_back(
                map,
                waypoints@,
                cur as int,
                cur_dist as nat,
            ) + route_ids(map, suffix).skip(1),
        decreases cur_dist,
    {
        let pid = parent.unwrap();
        proof {
            map.lemma_shape();
            assert(settled(map, s, waypoints@, cur as int));
        }
        let j = match map.position(pid) {
            Some(j) => j,
            None => { return None; },
        };
        let (j_dist, j_parent) = match &waypoints[j] {
            Some(w) => (w.dist, w.parent),
            None => { return None; },
        };
        proof {
            lemma_path_cons(g, suffix, j, t);
            let longer = seq![j] + suffix;
            assert forall|k: int|
                0 <= k < reversed@.len() + 1 implies #[trigger] reversed@.push(pid)[k] == SystemId(
                map.ids()[longer[longer.len() - 1 - k] as int],
            ) by {
                if k < reversed@.len() {
                    assert(longer[longer.len() - 1 - k] == suffix[suffix.len() - 1 - k]);
                }
            }
            let wc = waypoints@[cur as int]->0;
            assert(settled(map, s, waypoints@, cur as int));
            assert(map.index_of(pid.0) == j);
            assert(route_back(map, waypoints@, cur as int, cur_dist as nat) == route_back(
                map,
                waypoints@,
                j as int,
                j_dist as nat,
            ).push(wc.cur));
            assert(wc.cur == SystemId(map.ids()[cur as int]));
            assert(route_ids(map, longer).skip(1) =~= route_ids(map, suffix));
            assert(route_ids(map, suffix) =~= seq![SystemId(map.ids()[cur as int])] + route_ids(
                map,
                suffix,
            ).skip(1));
            assert(route_back(map, waypoints@, j as int, j_dist as nat).push(wc.cur) + route_ids(
                map,
                suffix,
            ).skip(1) =~= route_back(map, waypoints@, j as int, j_dist as nat) + route_ids(map, suffix));
            suffix = longer;
        }
        reversed.push(pid);
        cur = j;
        cur_dist = j_dist;
        parent = j_parent;
    }
    proof {
        assert(settled(map, s, waypoints@, cur as int));
        let wc = waypoints@[cur as int]->0;
        assert(route_back(map, waypoints@, cur as int, cur_dist as nat) == seq![wc.cur]);
        assert(route_ids(map, suffix) =~= seq![SystemId(map.ids()[cur as int])] + route_ids(
            map,
            suffix,
        ).skip(1));
    }
    let mut route: Vec<SystemId> = Vec::new();
    let mut k: usize = reversed.len();
    while k > 0
        invariant
            k <= reversed@.len(),
            route@.len() == reversed@.len() - k,
            forall|i: int|
                0 <= i < route@.len() ==> #[trigger] route@[i] == reversed@[reversed@.len() - 1 - i],
        decreases k,
    {
        k = k - 1;
        route.push(reversed[k]);
    }
    proof {
        assert(route@ =~= route_ids(map, suffix));
        reveal(is_shortest_path);
        reveal(is_dist);
        assert(is_shortest_path(g, suffix, s, t));
    }
    Some(route)
}

} // verus!
