//! The map: an immutable store of systems and their outgoing stargates, with
//! lookups by id and by name.

use std::collections::HashMap;
use vstd::prelude::*;
use vstd::std_specs::iter::IteratorSpec;

verus! {

/// A system's identifier, unique within a map.
#[derive(Clone, Copy, Debug, PartialEq, Eq, Hash, PartialOrd, Ord, Structural)]
pub struct SystemId(pub usize);

/// What the map knows of one system.
#[derive(Debug)]
pub struct SystemInfo {
    /// Identifier of this system.
    pub system_id: SystemId,
    /// Name of this system.
    pub name: String,
    /// Identifiers of the systems its outgoing stargates lead to.
    pub stargates: Vec<SystemId>,
    /// Position of this system in the map's system list.
    pub system_index: usize,
}

/// A system as handed over by whoever reads the universe description: its
/// id, its name, and the ids of the systems its stargates lead to where the
/// description has stargate data at all.
#[derive(Debug)]
pub struct SystemData {
    /// Identifier of the system.
    pub system_id: usize,
    /// Name of the system.
    pub name: String,
    /// Identifiers of the systems its stargates lead to; none where the
    /// description has no stargate data for it.
    pub destinations: Option<Vec<usize>>,
}

/// Why a map could not be built.
#[derive(Clone, Copy, Debug, PartialEq, Eq, Structural)]
pub enum BuildError {
    /// Two systems share an id.
    DuplicateId,
    /// A stargate leads to a system that is not in the map.
    UnknownDestination,
}

/// No system in the map has the identifier asked for.
#[derive(Clone, Copy, Debug, PartialEq, Eq, Structural)]
pub struct NotFound;

/// The records that take part in a map: those with stargate data, in order.
pub open spec fn kept(nodes: Seq<SystemData>) -> Seq<SystemData> {
    nodes.filter(|r: SystemData| r.destinations is Some)
}

/// The destination ids of a record, empty where it has none.
pub open spec fn dests(r: SystemData) -> Seq<usize> {
    match r.destinations {
        Some(d) => d@,
        None => Seq::empty(),
    }
}

/// Two records share an id.
pub open spec fn has_duplicate_id(k: Seq<SystemData>) -> bool {
    exists|i: int, j: int|
        0 <= i < j < k.len() && #[trigger] k[i].system_id == #[trigger] k[j].system_id
}

/// Some record has the id `id`.
pub open spec fn has_record(k: Seq<SystemData>, id: usize) -> bool {
    exists|j: int| 0 <= j < k.len() && #[trigger] k[j].system_id == id
}

/// Some record has a destination that is the id of no record.
pub open spec fn has_unknown_destination(k: Seq<SystemData>) -> bool {
    exists|i: int, m: int|
        0 <= i < k.len() && 0 <= m < dests(k[i]).len() && !has_record(k, #[trigger] dests(k[i])[m])
}

/// The map: systems in construction order, the id index, and for each
/// system the positions of the systems its stargates lead to.
pub struct StarMap {
    systems: Vec<SystemInfo>,
    by_system_id: HashMap<usize, usize>,
    adjacency: Vec<Vec<usize>>,
}

impl StarMap {
    /// The ids of the systems, by position.
    pub closed spec fn ids(&self) -> Seq<usize> {
        self.systems@.map_values(|s: SystemInfo| s.system_id.0)
    }

    /// The names of the systems, by position.
    pub closed spec fn names(&self) -> Seq<Seq<char>> {
        self.systems@.map_values(|s: SystemInfo| s.name@)
    }

    /// For each position, the positions its stargates lead to, in order.
    pub closed spec fn graph(&self) -> Seq<Seq<usize>> {
        self.adjacency@.map_values(|a: Vec<usize>| a@)
    }

    /// The map is well formed: one adjacency list per system, each system
    /// at its own position, links and stargates that agree and stay inside
    /// the map, unique ids, and an id index that maps each id to its
    /// position.
    pub closed spec fn wf(&self) -> bool {
        let n = self.systems@.len();
        &&& self.adjacency@.len() == n
        &&& forall|i: int| 0 <= i < n ==> (#[trigger] self.systems@[i]).system_index == i
        &&& forall|i: int, k: int|
            0 <= i < n && 0 <= k < self.adjacency@[i]@.len() ==> (
            #[trigger] self.adjacency@[i]@[k] as int) < n
        &&& forall|i: int|
            0 <= i < n ==> (#[trigger] self.systems@[i]).stargates@.len()
                == self.adjacency@[i]@.len()
        &&& forall|i: int, k: int|
            0 <= i < n && 0 <= k < self.adjacency@[i]@.len() ==> (
            #[trigger] self.systems@[i].stargates@[k]).0
                == self.systems@[self.adjacency@[i]@[k] as int].system_id.0
        &&& forall|i: int, j: int|
            0 <= i < n && 0 <= j < n && (#[trigger] self.systems@[i]).system_id
                == (#[trigger] self.systems@[j]).system_id ==> i == j
        &&& forall|id: usize|
            #[trigger] self.by_system_id@.contains_key(id) <==> exists|i: int|
                0 <= i < n && (#[trigger] self.systems@[i]).system_id.0 == id
        &&& forall|i: int|
            0 <= i < n ==> self.by_system_id@[(#[trigger] self.systems@[i]).system_id.0] == i
    }

    /// The position of the system with id `id`, where there is one.
    pub open spec fn index_of(&self, id: usize) -> int {
        choose|i: int| 0 <= i < self.ids().len() && self.ids()[i] == id
    }

    /// Some system of the map has the id `id`.
    pub open spec fn has_id(&self, id: usize) -> bool {
        self.ids().contains(id)
    }

    /// `info` is what the map holds at position `i`.
    pub open spec fn describes(&self, i: int, info: SystemInfo) -> bool {
        &&& 0 <= i < self.ids().len()
        &&& info.system_id.0 == self.ids()[i]
        &&& info.system_index == i
        &&& info.name@ == self.names()[i]
        &&& info.stargates@.len() == self.graph()[i].len()
        &&& forall|k: int|
            0 <= k < info.stargates@.len() ==> (#[trigger] info.stargates@[k]).0
                == self.ids()[self.graph()[i][k] as int]
    }

    /// The map holds exactly the records `k`, in order.
    pub open spec fn holds(&self, k: Seq<SystemData>) -> bool {
        &&& self.ids().len() == k.len()
        &&& forall|i: int|
            0 <= i < k.len() ==> {
                &&& #[trigger] self.ids()[i] == k[i].system_id
                &&& self.names()[i] == k[i].name@
                &&& self.graph()[i].len() == dests(k[i]).len()
                &&& forall|m: int|
                    0 <= m < dests(k[i]).len() ==> self.ids()[#[trigger] self.graph()[i][m] as int]
                        == dests(k[i])[m]
            }
    }

    /// The shape of a well-formed map: as many adjacency lists as ids, links
    /// that stay inside the map, ids that are unique.
    pub proof fn lemma_shape(&self)
        requires
            self.wf(),
        ensures
            self.graph().len() == self.ids().len(),
            self.names().len() == self.ids().len(),
            forall|i: int, k: int|
                0 <= i < self.graph().len() && 0 <= k < self.graph()[i].len() ==> (
                #[trigger] self.graph()[i][k] as int) < self.graph().len(),
            forall|i: int, j: int|
                0 <= i < self.ids().len() && 0 <= j < self.ids().len() && #[trigger] self.ids()[i]
                    == #[trigger] self.ids()[j] ==> i == j,
            forall|i: int|
                0 <= i < self.ids().len() ==> self.index_of(#[trigger] self.ids()[i]) == i,
    {
        assert forall|i: int| 0 <= i < self.ids().len() implies self.index_of(
            #[trigger] self.ids()[i],
        ) == i by {
            let id = self.ids()[i];
            assert(0 <= i < self.ids().len() && self.ids()[i] == id);
            let c = self.index_of(id);
            assert(self.systems@[c].system_id == self.systems@[i].system_id);
        }
        assert forall|i: int, k: int|
            0 <= i < self.graph().len() && 0 <= k < self.graph()[i].len() implies (
            #[trigger] self.graph()[i][k] as int) < self.graph().len() by {
            assert(self.graph()[i] == self.adjacency@[i]@);
        }
        assert forall|i: int, j: int|
            0 <= i < self.ids().len() && 0 <= j < self.ids().len() && #[trigger] self.ids()[i]
                == #[trigger] self.ids()[j] implies i == j by {
            assert(self.systems@[i].system_id == self.systems@[j].system_id);
        }
    }

    /// Builds the map from the records of a universe description. Records
    /// without stargate data are left out; the others keep their order.
    pub fn construct(nodes: &Vec<SystemData>) -> (r: Result<StarMap, BuildError>)
        ensures
            r == Err::<StarMap, BuildError>(BuildError::DuplicateId) <==> has_duplicate_id(
                kept(nodes@),
            ),
            r == Err::<StarMap, BuildError>(BuildError::UnknownDestination) <==> !has_duplicate_id(
                kept(nodes@),
            ) && has_unknown_destination(kept(nodes@)),
            r matches Ok(m) ==> m.wf() && m.holds(kept(nodes@)),
    {
        broadcast use vstd::std_specs::hash::group_hash_axioms;

        let mut systems: Vec<SystemInfo> = Vec::new();
        let mut by_system_id: HashMap<usize, usize> = HashMap::new();
        let mut k: usize = 0;
        while k < nodes.len()
            invariant
                k <= nodes@.len(),
                systems@.len() == kept(nodes@.take(k as int)).len(),
                !has_duplicate_id(kept(nodes@.take(k as int))),
                forall|i: int|
                    0 <= i < systems@.len() ==> {
                        let s = #[trigger] systems@[i];
                        let rec = kept(nodes@.take(k as int))[i];
                        &&& s.system_id.0 == rec.system_id
                        &&& s.system_index == i
                        &&& s.name@ == rec.name@
                        &&& s.stargates@.len() == dests(rec).len()
                        &&& forall|m: int|
                            0 <= m < dests(rec).len() ==> (#[trigger] s.stargates@[m]).0
                                == dests(rec)[m]
                    },
                forall|id: usize|
                    #[trigger] by_system_id@.contains_key(id) <==> exists|i: int|
                        0 <= i < systems@.len() && (#[trigger] systems@[i]).system_id.0 == id,
                forall|i: int|
                    0 <= i < systems@.len() ==> by_system_id@[(
                    #[trigger] systems@[i]).system_id.0] == i,
            decreases nodes@.len() - k,
        {
            let ghost before = kept(nodes@.take(k as int));
            proof {
                reveal(Seq::filter);
                assert(nodes@.take(k + 1).drop_last() =~= nodes@.take(k as int));
            }
            let node = &nodes[k];
            match &node.destinations {
                None => {},
                Some(d) => {
                    if by_system_id.contains_key(&node.system_id) {
                        proof {
                            let i = choose|i: int|
                                0 <= i < systems@.len() && (#[trigger] systems@[i]).system_id.0
                                    == node.system_id;
                            let now = kept(nodes@.take(k + 1));
                            assert(now[i].system_id == now[before.len() as int].system_id);
                            lemma_kept_prefix(nodes@, k + 1);
                            let all = kept(nodes@);
                            assert(all[i] == now[i]);
                            assert(all[before.len() as int] == now[before.len() as int]);
                        }
                        return Err(BuildError::DuplicateId);
                    }
                    let mut stargates: Vec<SystemId> = Vec::new();
                    let mut m: usize = 0;
                    while m < d.len()
                        invariant
                            m <= d@.len(),
                            stargates@.len() == m,
                            forall|j: int|
                                0 <= j < m ==> (#[trigger] stargates@[j]).0 == d@[j],
                        decreases d@.len() - m,
                    {
                        stargates.push(SystemId(d[m]));
                        m = m + 1;
                    }
                    let index = systems.len();
                    let ghost old_map = by_system_id@;
                    let ghost old_systems = systems@;
                    by_system_id.insert(node.system_id, index);
                    systems.push(
                        SystemInfo {
                            system_id: SystemId(node.system_id),
                            name: node.name.clone(),
                            stargates,
                            system_index: index,
                        },
                    );
                    proof {
                        let now = kept(nodes@.take(k + 1));
                        assert(now == before.push(*node));
                        assert forall|a: int, b: int|
                            0 <= a < b < now.len() implies #[trigger] now[a].system_id
                            != #[trigger] now[b].system_id by {
                            if b == before.len() {
                                assert(systems@[a].system_id.0 == now[a].system_id);
                            } else {
                                assert(before[a] == now[a] && before[b] == now[b]);
                            }
                        }
                        assert forall|id: usize|
                            #[trigger] by_system_id@.contains_key(id) <==> exists|i: int|
                                0 <= i < systems@.len() && (#[trigger] systems@[i]).system_id.0
                                    == id by {
                            assert(systems@ == old_systems.push(systems@[index as int]));
                            if id == node.system_id {
                                assert(systems@[index as int].system_id.0 == id);
                            } else if old_map.contains_key(id) {
                                let i = choose|i: int|
                                    0 <= i < old_systems.len() && (#[trigger] old_systems[i]).system_id.0
                                        == id;
                                assert(systems@[i].system_id.0 == id);
                            } else {
                                assert forall|i: int| 0 <= i < systems@.len() implies (
                                #[trigger] systems@[i]).system_id.0 != id by {
                                    if i < old_systems.len() {
                                        assert(systems@[i] == old_systems[i]);
                                    }
                                }
                            }
                        }
                    }
                },
            }
            k = k + 1;
        }
        assert(nodes@.take(k as int) =~= nodes@);
        let ghost all = kept(nodes@);
        let n = systems.len();
        let mut adjacency: Vec<Vec<usize>> = Vec::new();
        let mut i: usize = 0;
        while i < n
            invariant
                n == systems@.len(),
                n == all.len(),
                all == kept(nodes@),
                i <= n,
                adjacency@.len() == i,
                !has_duplicate_id(all),
                forall|a: int|
                    0 <= a < systems@.len() ==> {
                        let s = #[trigger] systems@[a];
                        &&& s.system_id.0 == all[a].system_id
                        &&& s.system_index == a
                        &&& s.name@ == all[a].name@
                        &&& s.stargates@.len() == dests(all[a]).len()
                        &&& forall|m: int|
                            0 <= m < dests(all[a]).len() ==> (#[trigger] s.stargates@[m]).0
                                == dests(all[a])[m]
                    },
                forall|id: usize|
                    #[trigger] by_system_id@.contains_key(id) <==> exists|a: int|
                        0 <= a < systems@.len() && (#[trigger] systems@[a]).system_id.0 == id,
                forall|a: int|
                    0 <= a < systems@.len() ==> by_system_id@[(
                    #[trigger] systems@[a]).system_id.0] == a,
                forall|a: int|
                    0 <= a < i ==> (#[trigger] adjacency@[a])@.len()
                        == systems@[a].stargates@.len(),
                forall|a: int, m: int|
                    0 <= a < i && 0 <= m < adjacency@[a]@.len() ==> (
                    #[trigger] adjacency@[a]@[m] as int) < n
                        && systems@[adjacency@[a]@[m] as int].system_id.0
                        == systems@[a].stargates@[m].0,
            decreases n - i,
        {
            let mut links: Vec<usize> = Vec::new();
            let mut m: usize = 0;
            while m < systems[i].stargates.len()
                invariant
                    n == systems@.len(),
                    i < n,
                    m <= systems@[i as int].stargates@.len(),
                    links@.len() == m,
                    n == all.len(),
                    all == kept(nodes@),
                    !has_duplicate_id(all),
                    forall|a: int|
                        0 <= a < systems@.len() ==> {
                            let s = #[trigger] systems@[a];
                            &&& s.system_id.0 == all[a].system_id
                            &&& s.stargates@.len() == dests(all[a]).len()
                            &&& forall|m: int|
                                0 <= m < dests(all[a]).len() ==> (#[trigger] s.stargates@[m]).0
                                    == dests(all[a])[m]
                        },
                    forall|id: usize|
                        #[trigger] by_system_id@.contains_key(id) <==> exists|a: int|
                            0 <= a < systems@.len() && (#[trigger] systems@[a]).system_id.0 == id,
                    forall|a: int|
                        0 <= a < systems@.len() ==> by_system_id@[(
                        #[trigger] systems@[a]).system_id.0] == a,
                    forall|j: int|
                        0 <= j < m ==> (#[trigger] links@[j] as int) < n
                            && systems@[links@[j] as int].system_id.0
                            == systems@[i as int].stargates@[j].0,
                decreases systems@[i as int].stargates@.len() - m,
            {
                let d = systems[i].stargates[m].0;
                match by_system_id.get(&d) {
                    Some(j) => {
                        proof {
                            let a = choose|a: int|
                                0 <= a < systems@.len() && (#[trigger] systems@[a]).system_id.0
                                    == d;
                        }
                        links.push(*j);
                    },
                    None => {
                        proof {
                            assert(dests(all[i as int])[m as int] == d);
                            assert forall|j: int|
                                0 <= j < all.len() implies #[trigger] all[j].system_id != dests(
                                all[i as int],
                            )[m as int] by {
                                assert(systems@[j].system_id.0 == all[j].system_id);
                            }
                            assert(!has_record(all, dests(all[i as int])[m as int]));
                            assert(has_unknown_destination(all));
                        }
                        return Err(BuildError::UnknownDestination);
                    },
                }
                m = m + 1;
            }
            adjacency.push(links);
            i = i + 1;
        }
        let map = StarMap { systems, by_system_id, adjacency };
        proof {
            assert forall|a: int, b: int|
                0 <= a < n && 0 <= b < n && (#[trigger] map.systems@[a]).system_id
                    == (#[trigger] map.systems@[b]).system_id implies a == b by {
                if a < b {
                    assert(all[a].system_id == all[b].system_id);
                } else if b < a {
                    assert(all[b].system_id == all[a].system_id);
                }
            }
            assert forall|a: int, m: int|
                0 <= a < all.len() && 0 <= m < dests(all[a]).len() implies has_record(
                    all,
                    #[trigger] dests(all[a])[m],
                ) by {
                let sa = map.systems@[a];
                assert(sa.stargates@.len() == dests(all[a]).len());
                assert(sa.stargates@[m].0 == dests(all[a])[m]);
                let j = map.adjacency@[a]@[m] as int;
                assert(map.systems@[j].system_id.0 == all[j].system_id);
            }
            assert(!has_unknown_destination(all));
            assert forall|a: int| 0 <= a < all.len() implies {
                &&& #[trigger] map.ids()[a] == all[a].system_id
                &&& map.names()[a] == all[a].name@
                &&& map.graph()[a].len() == dests(all[a]).len()
                &&& forall|m: int|
                    0 <= m < dests(all[a]).len() ==> map.ids()[#[trigger] map.graph()[a][m] as int]
                        == dests(all[a])[m]
            } by {
                assert(map.graph()[a] == map.adjacency@[a]@);
                assert forall|m: int| 0 <= m < dests(all[a]).len() implies map.ids()[
                #[trigger] map.graph()[a][m] as int] == dests(all[a])[m] by {
                    assert(map.systems@[a].stargates@[m].0 == dests(all[a])[m]);
                }
            }
        }
        Ok(map)
    }

    /// Number of systems in the map.
    pub fn size(&self) -> (r: usize)
        ensures
            r == self.ids().len(),
    {
        self.systems.len()
    }

    /// Position of the system with id `id`.
    pub(crate) fn position(&self, id: SystemId) -> (r: Option<usize>)
        requires
            self.wf(),
        ensures
            r is Some <==> self.has_id(id.0),
            r matches Some(i) ==> i == self.index_of(id.0) && (i as int) < self.ids().len()
                && self.ids()[i as int] == id.0,
    {
        proof {
            self.lemma_shape();
            broadcast use vstd::std_specs::hash::group_hash_axioms;
        }
        match self.by_system_id.get(&id.0) {
            Some(i) => {
                proof {
                    let j = choose|j: int|
                        0 <= j < self.systems@.len() && (#[trigger] self.systems@[j]).system_id.0
                            == id.0;
                    assert(self.ids()[j] == id.0);
                }
                Some(*i)
            },
            None => {
                proof {
                    if self.has_id(id.0) {
                        let j = choose|j: int| 0 <= j < self.ids().len() && self.ids()[j] == id.0;
                        assert(self.systems@[j].system_id.0 == id.0);
                    }
                }
                None
            },
        }
    }

    /// The system with id `id`.
    pub fn by_system_id(&self, id: SystemId) -> (r: Result<&SystemInfo, NotFound>)
        requires
            self.wf(),
        ensures
            r is Ok <==> self.has_id(id.0),
            r matches Ok(info) ==> self.describes(self.index_of(id.0), *info),
    {
        match self.position(id) {
            Some(i) => {
                proof {
                    self.lemma_describes(i as int);
                }
                Ok(&self.systems[i])
            },
            None => Err(NotFound),
        }
    }

    /// The system stored at position `i` is described by the map's views.
    proof fn lemma_describes(&self, i: int)
        requires
            self.wf(),
            0 <= i < self.ids().len(),
        ensures
            self.describes(i, self.systems@[i]),
    {
        let info = self.systems@[i];
        assert forall|k: int| 0 <= k < info.stargates@.len() implies (
        #[trigger] info.stargates@[k]).0 == self.ids()[self.graph()[i][k] as int] by {
            assert(self.graph()[i] == self.adjacency@[i]@);
        }
    }

    /// The system named `name`; where several share the name, the one added
    /// last.
    pub fn by_name(&self, name: &str) -> (r: Option<&SystemInfo>)
        requires
            self.wf(),
        ensures
            r is Some <==> self.names().contains(name@),
            r matches Some(info) ==> exists|i: int|
                self.describes(i, *info) && self.names()[i] == name@ && forall|j: int|
                    i < j < self.names().len() ==> self.names()[j] != name@,
    {
        let wanted = name.to_owned();
        let mut i: usize = self.systems.len();
        while i > 0
            invariant
                i <= self.systems@.len(),
                self.wf(),
                wanted@ == name@,
                forall|j: int| i <= j < self.names().len() ==> self.names()[j] != name@,
            decreases i,
        {
            i = i - 1;
            if self.systems[i].name == wanted {
                proof {
                    self.lemma_describes(i as int);
                }
                return Some(&self.systems[i]);
            }
        }
        None
    }

    /// All systems, in construction order.
    pub fn systems_ref(&self) -> (r: &[SystemInfo])
        requires
            self.wf(),
        ensures
            r@.len() == self.ids().len(),
            forall|i: int| 0 <= i < r@.len() ==> self.describes(i, #[trigger] r@[i]),
    {
        proof {
            assert forall|i: int| 0 <= i < self.systems@.len() implies self.describes(
                i,
                #[trigger] self.systems@[i],
            ) by {
                self.lemma_describes(i);
            }
        }
        self.systems.as_slice()
    }

    /// An iterator over all systems, in construction order.
    pub fn systems(&self) -> (r: std::slice::Iter<'_, SystemInfo>)
        requires
            self.wf(),
        ensures
            r.remaining().len() == self.ids().len(),
            forall|i: int| 0 <= i < r.remaining().len() ==> self.describes(i, *#[trigger] r.remaining()[i]),
    {
        let all = self.systems_ref();
        proof {
            broadcast use vstd::std_specs::slice::axiom_spec_slice_iter;
        }
        all.iter()
    }

    /// The positions that the stargates of the system at `i` lead to.
    pub(crate) fn links(&self, i: usize) -> (r: &Vec<usize>)
        requires
            self.wf(),
            i < self.ids().len(),
        ensures
            r@ == self.graph()[i as int],
    {
        &self.adjacency[i]
    }

    /// Id of the system at position `i`.
    pub(crate) fn id_at(&self, i: usize) -> (r: SystemId)
        requires
            self.wf(),
            i < self.ids().len(),
        ensures
            r.0 == self.ids()[i as int],
    {
        self.systems[i].system_id
    }
}

/// Keeping the records of a prefix gives a prefix of the kept records.
proof fn lemma_kept_prefix(nodes: Seq<SystemData>, k: int)
    requires
        0 <= k <= nodes.len(),
    ensures
        kept(nodes.take(k)).len() <= kept(nodes).len(),
        forall|i: int|
            0 <= i < kept(nodes.take(k)).len() ==> #[trigger] kept(nodes.take(k))[i] == kept(
                nodes,
            )[i],
{
    let pred = |r: SystemData| r.destinations is Some;
    assert(nodes =~= nodes.take(k) + nodes.skip(k));
    Seq::filter_distributes_over_add(nodes.take(k), nodes.skip(k), pred);
}

} // verus!
