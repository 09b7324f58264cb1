//! The diameter of the map: the longest distance between two distinct
//! systems that are joined by a route, and every pair at that distance.

use crate::apsp::{apsp, lemma_table_cell, table_ok};
use crate::graph::{StarMap, SystemId};
use crate::paths::{is_dist, lemma_dist_unique, lemma_dist_witness};
use crate::table::{table_cells, APSPTable, MAX_TABLE_SIDE};
use vstd::prelude::*;

verus! {

/// Results from a `diameter()` calculation.
pub struct DiameterInfo {
    /// Longest distance between two distinct systems joined by a route.
    pub diameter: usize,
    /// Every ordered pair of systems at that distance.
    pub longest: Vec<(SystemId, SystemId)>,
}

/// The ids of the systems at positions `i` and `j`.
pub open spec fn pair_at(map: &StarMap, i: int, j: int) -> (SystemId, SystemId) {
    (SystemId(map.ids()[i]), SystemId(map.ids()[j]))
}

/// `info` is the diameter of `map`: no two distinct systems are further
/// apart, and `longest` holds exactly the ordered pairs that are that far.
pub open spec fn diameter_ok(map: &StarMap, diameter: nat, longest: Seq<(SystemId, SystemId)>) -> bool {
    let g = map.graph();
    let n = g.len();
    &&& forall|i: int, j: int, d: nat|
        0 <= i < n && 0 <= j < n && i != j && #[trigger] is_dist(g, i as usize, j as usize, d) ==> d
            <= diameter
    &&& forall|i: int, j: int|
        0 <= i < n && 0 <= j < n && i != j ==> (longest.contains(#[trigger] pair_at(map, i, j))
            <==> is_dist(g, i as usize, j as usize, diameter))
    &&& forall|k: int| 0 <= k < longest.len() ==> is_pair_of(map, #[trigger] longest[k])
    &&& longest.no_duplicates()
    &&& diameter > 0 ==> longest.len() > 0
}

/// `x` is the pair of ids of two distinct systems of `map`.
pub open spec fn is_pair_of(map: &StarMap, x: (SystemId, SystemId)) -> bool {
    exists|i: int, j: int|
        0 <= i < map.ids().len() && 0 <= j < map.ids().len() && i != j && #[trigger] pair_at(map, i, j)
            == x
}

/// The cell of `t` at row `a`, column `b` is a route between distinct
/// systems of length `d`.
spec fn far(t: APSPTable, a: int, b: int, d: nat) -> bool {
    &&& a != b
    &&& (table_cells(t)[a][b] matches Some(h) && h.dist == d)
}

/// Row-major order: the cell at `(a, b)` comes before the one at `(i, j)`.
spec fn seen(i: int, j: int, a: int, b: int) -> bool {
    a < i || (a == i && b < j)
}

/// `x` is the pair of a cell seen so far at distance `d`.
spec fn from_seen(map: &StarMap, t: APSPTable, i: int, j: int, d: nat, x: (SystemId, SystemId)) -> bool {
    exists|a: int, b: int|
        0 <= a < map.ids().len() && 0 <= b < map.ids().len() && seen(i, j, a, b) && far(t, a, b, d)
            && #[trigger] pair_at(map, a, b) == x
}

/// What a scan up to cell `(i, j)` has found is right so far.
spec fn scan_ok(
    map: &StarMap,
    t: APSPTable,
    i: int,
    j: int,
    diameter: nat,
    longest: Seq<(SystemId, SystemId)>,
) -> bool {
    let n = map.ids().len();
    &&& forall|a: int, b: int|
        0 <= a < n && 0 <= b < n && a != b && seen(i, j, a, b) ==> (
        #[trigger] table_cells(t)[a][b] matches Some(h) ==> h.dist <= diameter)
    &&& forall|a: int, b: int|
        0 <= a < n && 0 <= b < n && seen(i, j, a, b) ==> (longest.contains(
            #[trigger] pair_at(map, a, b),
        ) <==> far(t, a, b, diameter))
    &&& forall|k: int| 0 <= k < longest.len() ==> from_seen(map, t, i, j, diameter, #[trigger] longest[k])
    &&& longest.no_duplicates()
    &&& diameter > 0 ==> longest.len() > 0
}

/// The end of a row is the start of the next.
proof fn lemma_next_row(
    map: &StarMap,
    t: APSPTable,
    i: int,
    diameter: nat,
    longest: Seq<(SystemId, SystemId)>,
)
    requires
        scan_ok(map, t, i, map.ids().len() as int, diameter, longest),
    ensures
        scan_ok(map, t, i + 1, 0, diameter, longest),
{
    let n = map.ids().len() as int;
    assert forall|k: int| 0 <= k < longest.len() implies from_seen(
        map,
        t,
        i + 1,
        0,
        diameter,
        #[trigger] longest[k],
    ) by {
        let (a, b) = choose|a: int, b: int|
            0 <= a < n && 0 <= b < n && seen(i, n, a, b) && far(t, a, b, diameter) && #[trigger] pair_at(
                map,
                a,
                b,
            ) == longest[k];
        assert(seen(i + 1, 0, a, b));
    }
}

/// Scans the table for the longest distance between distinct systems.
fn scan(map: &StarMap, t: &APSPTable) -> (r: DiameterInfo)
    requires
        map.wf(),
        table_ok(map, *t),
    ensures
        diameter_ok(map, r.diameter as nat, r.longest@),
{
    proof {
        map.lemma_shape();
    }
    let ghost g = map.graph();
    let n = map.size();
    let mut diameter: usize = 0;
    let mut longest: Vec<(SystemId, SystemId)> = Vec::new();
    let mut i: usize = 0;
    while i < n
        invariant
            map.wf(),
            table_ok(map, *t),
            g == map.graph(),
            n == g.len(),
            n == map.ids().len(),
            i <= n,
            scan_ok(map, *t, i as int, 0, diameter as nat, longest@),
        decreases n - i,
    {
        let mut j: usize = 0;
        while j < n
            invariant
                map.wf(),
                table_ok(map, *t),
                g == map.graph(),
                n == g.len(),
                n == map.ids().len(),
                i < n,
                j <= n,
                scan_ok(map, *t, i as int, j as int, diameter as nat, longest@),
            decreases n - j,
        {
            proof {
                map.lemma_shape();
                lemma_table_cell(map, *t, i as int, j as int);
            }
            let ghost old_d = diameter as nat;
            let ghost old_longest = longest@;
            if i != j {
                if let Some(h) = t.hop(i, j) {
                    let dist = h.dist;
                    let pair = (map.id_at(i), map.id_at(j));
                    if dist > diameter {
                        diameter = dist;
                        longest.clear();
                        longest.push(pair);
                    } else if dist == diameter {
                        longest.push(pair);
                    }
                }
            }
            proof {
                lemma_scan_step(map, *t, i as int, j as int, old_d, old_longest, diameter as nat, longest@);
            }
            j = j + 1;
        }
        proof {
            lemma_next_row(map, *t, i as int, diameter as nat, longest@);
        }
        i = i + 1;
    }
    proof {
        lemma_scan_done(map, *t, diameter as nat, longest@);
    }
    DiameterInfo { diameter, longest }
}

/// One cell of the scan keeps what it has found right.
proof fn lemma_scan_step(
    map: &StarMap,
    t: APSPTable,
    i: int,
    j: int,
    d0: nat,
    l0: Seq<(SystemId, SystemId)>,
    d1: nat,
    l1: Seq<(SystemId, SystemId)>,
)
    requires
        map.wf(),
        0 <= i < map.ids().len(),
        0 <= j < map.ids().len(),
        table_cells(t).len() == map.ids().len(),
        table_cells(t)[i].len() == map.ids().len(),
        scan_ok(map, t, i, j, d0, l0),
        far(t, i, j, d1) && d1 > d0 ==> l1 == seq![pair_at(map, i, j)],
        far(t, i, j, d0) && d1 == d0 ==> l1 == l0.push(pair_at(map, i, j)),
        !(far(t, i, j, d1) && d1 > d0) && !(far(t, i, j, d0) && d1 == d0) ==> d1 == d0 && l1 == l0,
        i != j && table_cells(t)[i][j] is Some && table_cells(t)[i][j]->0.dist > d0 ==> d1
            == table_cells(t)[i][j]->0.dist,
    ensures
        scan_ok(map, t, i, j + 1, d1, l1),
{
    map.lemma_shape();
    let n = map.ids().len();
    assert forall|a: int, b: int|
        0 <= a < n && 0 <= b < n && a != b && seen(i, j + 1, a, b) implies (
        #[trigger] table_cells(t)[a][b] matches Some(h) ==> h.dist <= d1) by {
        if !(a == i && b == j) {
            assert(seen(i, j, a, b));
        }
    }
    if far(t, i, j, d1) && d1 > d0 {
        assert forall|a: int, b: int|
            0 <= a < n && 0 <= b < n && seen(i, j + 1, a, b) implies (l1.contains(
            #[trigger] pair_at(map, a, b),
        ) <==> far(t, a, b, d1)) by {
            if l1.contains(pair_at(map, a, b)) {
                assert(l1[0] == pair_at(map, a, b));
                assert(map.ids()[a] == map.ids()[i]);
                assert(map.ids()[b] == map.ids()[j]);
            }
            if far(t, a, b, d1) && !(a == i && b == j) {
                assert(table_cells(t)[a][b] matches Some(x) ==> x.dist <= d0);
            }
            if a == i && b == j {
                assert(l1[0] == pair_at(map, a, b));
            }
        }
        assert forall|k: int| 0 <= k < l1.len() implies from_seen(map, t, i, j + 1, d1, #[trigger] l1[k]) by {
            assert(pair_at(map, i, j) == l1[k]);
        }
    } else if far(t, i, j, d0) && d1 == d0 {
        assert forall|a: int, b: int|
            0 <= a < n && 0 <= b < n && seen(i, j + 1, a, b) implies (l1.contains(
            #[trigger] pair_at(map, a, b),
        ) <==> far(t, a, b, d1)) by {
            if l1.contains(pair_at(map, a, b)) {
                let k = choose|k: int| 0 <= k < l1.len() && l1[k] == pair_at(map, a, b);
                if k < l0.len() {
                    assert(l0[k] == l1[k]);
                    assert(l0.contains(pair_at(map, a, b)));
                } else {
                    assert(map.ids()[a] == map.ids()[i]);
                    assert(map.ids()[b] == map.ids()[j]);
                }
            }
            if far(t, a, b, d1) {
                if a == i && b == j {
                    assert(l1[l0.len() as int] == pair_at(map, a, b));
                } else {
                    let k = choose|k: int| 0 <= k < l0.len() && l0[k] == pair_at(map, a, b);
                    assert(l1[k] == l0[k]);
                }
            }
        }
        assert forall|x: int, y: int| 0 <= x < l1.len() && 0 <= y < l1.len() && x != y implies l1[x] != l1[y] by {
            if x < l0.len() && y < l0.len() {
                assert(l0[x] == l1[x] && l0[y] == l1[y]);
            } else {
                let old_k = if x < l0.len() { x } else { y };
                assert(l1[old_k] == l0[old_k]);
                assert(from_seen(map, t, i, j, d0, l0[old_k]));
                let (a, b) = choose|a: int, b: int|
                    0 <= a < n && 0 <= b < n && seen(i, j, a, b) && far(t, a, b, d0) && #[trigger] pair_at(
                        map,
                        a,
                        b,
                    ) == l0[old_k];
                if l0[old_k] == pair_at(map, i, j) {
                    assert(map.ids()[a] == map.ids()[i]);
                    assert(map.ids()[b] == map.ids()[j]);
                }
            }
        }
        assert forall|k: int| 0 <= k < l1.len() implies from_seen(map, t, i, j + 1, d1, #[trigger] l1[k]) by {
            if k < l0.len() {
                assert(l0[k] == l1[k]);
                assert(from_seen(map, t, i, j, d0, l0[k]));
                let (a, b) = choose|a: int, b: int|
                    0 <= a < n && 0 <= b < n && seen(i, j, a, b) && far(t, a, b, d0) && #[trigger] pair_at(
                        map,
                        a,
                        b,
                    ) == l0[k];
                assert(seen(i, j + 1, a, b));
            } else {
                assert(pair_at(map, i, j) == l1[k]);
            }
        }
    } else {
        assert forall|a: int, b: int|
            0 <= a < n && 0 <= b < n && seen(i, j + 1, a, b) implies (l1.contains(
            #[trigger] pair_at(map, a, b),
        ) <==> far(t, a, b, d1)) by {
            if a == i && b == j && l1.contains(pair_at(map, a, b)) {
                let k = choose|k: int| 0 <= k < l1.len() && l1[k] == pair_at(map, a, b);
                assert(from_seen(map, t, i, j, d0, l0[k]));
                let (x, y) = choose|x: int, y: int|
                    0 <= x < n && 0 <= y < n && seen(i, j, x, y) && far(t, x, y, d0) && #[trigger] pair_at(
                        map,
                        x,
                        y,
                    ) == l0[k];
                assert(map.ids()[x] == map.ids()[i]);
                assert(map.ids()[y] == map.ids()[j]);
            }
        }
        assert forall|k: int| 0 <= k < l1.len() implies from_seen(map, t, i, j + 1, d1, #[trigger] l1[k]) by {
            assert(from_seen(map, t, i, j, d0, l0[k]));
            let (a, b) = choose|a: int, b: int|
                0 <= a < n && 0 <= b < n && seen(i, j, a, b) && far(t, a, b, d0) && #[trigger] pair_at(
                    map,
                    a,
                    b,
                ) == l0[k];
            assert(seen(i, j + 1, a, b));
        }
    }
}

/// A finished scan has found the diameter.
proof fn lemma_scan_done(map: &StarMap, t: APSPTable, d: nat, l: Seq<(SystemId, SystemId)>)
    requires
        map.wf(),
        table_ok(map, t),
        scan_ok(map, t, map.ids().len() as int, 0, d, l),
    ensures
        diameter_ok(map, d, l),
{
    map.lemma_shape();
    let g = map.graph();
    let n = g.len();
    assert forall|a: int, b: int, x: nat|
        0 <= a < n && 0 <= b < n && a != b && #[trigger] is_dist(g, a as usize, b as usize, x) implies x
        <= d by {
        lemma_table_cell(map, t, a, b);
        lemma_dist_witness(g, a as usize, b as usize, x);
        lemma_dist_unique(g, a as usize, b as usize, x, table_cells(t)[a][b]->0.dist as nat);
        assert(seen(n as int, 0, a, b));
    }
    assert forall|a: int, b: int|
        0 <= a < n && 0 <= b < n && a != b implies (l.contains(#[trigger] pair_at(map, a, b))
        <==> is_dist(g, a as usize, b as usize, d)) by {
        lemma_table_cell(map, t, a, b);
        assert(seen(n as int, 0, a, b));
        if is_dist(g, a as usize, b as usize, d) {
            lemma_dist_witness(g, a as usize, b as usize, d);
            lemma_dist_unique(g, a as usize, b as usize, d, table_cells(t)[a][b]->0.dist as nat);
        }
    }
    assert forall|k: int| 0 <= k < l.len() implies is_pair_of(map, #[trigger] l[k]) by {
        assert(from_seen(map, t, n as int, 0, d, l[k]));
        let (a, b) = choose|a: int, b: int|
            0 <= a < n && 0 <= b < n && seen(n as int, 0, a, b) && far(t, a, b, d) && #[trigger] pair_at(
                map,
                a,
                b,
            ) == l[k];
        assert(0 <= a < n && 0 <= b < n && a != b && pair_at(map, a, b) == l[k]);
    }
}

/// The diameter of the map: the longest distance from one system to another
/// that it has a route to, with every ordered pair at that distance.
pub fn diameter(map: &StarMap) -> (r: DiameterInfo)
    requires
        map.wf(),
        map.graph().len() <= MAX_TABLE_SIDE,
    ensures
        diameter_ok(map, r.diameter as nat, r.longest@),
{
    let hops = apsp(map);
    scan(map, &hops)
}

} // verus!
