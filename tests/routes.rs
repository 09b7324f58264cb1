use std::io::Write;

use plan_b::{
    alt_routes, apsp, bfs, diameter, shortest_route, shortest_routes_apsp, AltError, BuildError,
    StarMap, SystemData, SystemId,
};

fn node(id: usize, name: &str, dests: &[usize]) -> SystemData {
    SystemData {
        system_id: id,
        name: name.to_string(),
        destinations: Some(dests.to_vec()),
    }
}

fn build(nodes: Vec<SystemData>) -> StarMap {
    StarMap::construct(&nodes).expect("map builds")
}

fn ids(route: &[SystemId]) -> Vec<usize> {
    route.iter().map(|s| s.0).collect()
}

// A=1, B=2, C=3, D=4, E=5
fn chain() -> StarMap {
    build(vec![
        node(1, "A", &[2]),
        node(2, "B", &[3]),
        node(3, "C", &[4]),
        node(4, "D", &[]),
    ])
}

fn diamond() -> StarMap {
    build(vec![
        node(1, "A", &[2, 3]),
        node(2, "B", &[4]),
        node(3, "C", &[4]),
        node(4, "D", &[]),
    ])
}

fn star(leaves: usize) -> StarMap {
    let mut nodes = vec![node(100, "H", &(1..=leaves).collect::<Vec<_>>())];
    for i in 1..=leaves {
        nodes.push(node(i, &format!("L{}", i), &[100]));
    }
    build(nodes)
}

#[test]
fn chain_route_is_the_chain() {
    let map = chain();
    let route = shortest_route(&map, SystemId(1), SystemId(4)).unwrap();
    assert_eq!(ids(&route), vec![1, 2, 3, 4]);
}

#[test]
fn chain_has_no_route_backwards() {
    let map = chain();
    assert!(shortest_route(&map, SystemId(4), SystemId(1)).is_none());
}

#[test]
fn route_to_self_is_single_system() {
    let map = chain();
    let route = shortest_route(&map, SystemId(2), SystemId(2)).unwrap();
    assert_eq!(ids(&route), vec![2]);
}

#[test]
fn route_to_unknown_goal_is_none() {
    let map = chain();
    assert!(shortest_route(&map, SystemId(1), SystemId(99)).is_none());
}

#[test]
fn shortest_route_is_repeatable() {
    let map = diamond();
    let first = shortest_route(&map, SystemId(1), SystemId(4));
    let second = shortest_route(&map, SystemId(1), SystemId(4));
    assert_eq!(first, second);
    assert_eq!(first.unwrap().len(), 3);
}

#[test]
fn diamond_has_two_shortest_routes() {
    let map = diamond();
    let table = apsp(&map);
    let mut routes: Vec<Vec<usize>> = shortest_routes_apsp(&map, &table, SystemId(1), SystemId(4))
        .unwrap()
        .iter()
        .map(|r| ids(r))
        .collect();
    routes.sort();
    assert_eq!(routes, vec![vec![1, 2, 4], vec![1, 3, 4]]);
}

#[test]
fn all_routes_agree_with_single_route() {
    let map = diamond();
    let table = apsp(&map);
    let single = shortest_route(&map, SystemId(1), SystemId(4)).unwrap();
    let all = shortest_routes_apsp(&map, &table, SystemId(1), SystemId(4)).unwrap();
    assert!(!all.is_empty());
    for r in &all {
        assert_eq!(r.len(), single.len());
    }
    assert!(shortest_routes_apsp(&map, &table, SystemId(4), SystemId(1)).is_none());
    assert!(shortest_route(&map, SystemId(4), SystemId(1)).is_none());
}

#[test]
fn table_records_distances_and_tied_next_hops() {
    let map = diamond();
    let table = apsp(&map);
    let a = map.by_system_id(SystemId(1)).unwrap().system_index;
    let d = map.by_system_id(SystemId(4)).unwrap().system_index;
    let hop = table.hop(a, d).as_ref().unwrap();
    assert_eq!(hop.dist, 2);
    let mut next: Vec<usize> = hop.next.iter().map(|&i| map.systems_ref()[i].system_id.0).collect();
    next.sort();
    assert_eq!(next, vec![2, 3]);
    assert!(table.hop(d, a).is_none());
    let own = table.hop(a, a).as_ref().unwrap();
    assert_eq!(own.dist, 0);
    assert!(own.next.is_empty());
}

#[test]
fn route_length_matches_table_distance() {
    let map = star(4);
    let table = apsp(&map);
    for from in map.systems_ref() {
        for to in map.systems_ref() {
            let route = shortest_route(&map, from.system_id, to.system_id).unwrap();
            let hop = table.hop(from.system_index, to.system_index).as_ref().unwrap();
            assert_eq!(route.len() - 1, hop.dist);
        }
    }
}

#[test]
fn isolated_system_is_unreachable_and_not_an_endpoint() {
    let map = build(vec![
        node(1, "A", &[2]),
        node(2, "B", &[1]),
        node(5, "E", &[]),
    ]);
    assert!(shortest_route(&map, SystemId(1), SystemId(5)).is_none());
    let info = diameter(&map);
    assert_eq!(info.diameter, 1);
    assert!(info.longest.iter().all(|(a, b)| a.0 != 5 && b.0 != 5));
    assert_eq!(info.longest.len(), 2);
}

#[test]
fn star_diameter_is_two_between_leaves() {
    let n = 4;
    let map = star(n);
    let info = diameter(&map);
    assert_eq!(info.diameter, 2);
    let mut got: Vec<(usize, usize)> = info.longest.iter().map(|(a, b)| (a.0, b.0)).collect();
    got.sort();
    let mut want = Vec::new();
    for i in 1..=n {
        for j in 1..=n {
            if i != j {
                want.push((i, j));
            }
        }
    }
    assert_eq!(got, want);
}

#[test]
fn diameter_matches_search_distances() {
    let map = chain();
    let info = diameter(&map);
    let mut best = 0;
    for from in map.systems_ref() {
        let found = bfs(&map, from.system_id, None);
        for (j, w) in found.iter().enumerate() {
            if let Some(w) = w {
                if j != from.system_index && w.dist > best {
                    best = w.dist;
                }
            }
        }
    }
    assert_eq!(info.diameter, best);
    assert_eq!(info.diameter, 3);
    let got: Vec<(usize, usize)> = info.longest.iter().map(|(a, b)| (a.0, b.0)).collect();
    assert_eq!(got, vec![(1, 4)]);
}

#[test]
fn empty_map_has_zero_diameter() {
    let map = build(vec![]);
    let info = diameter(&map);
    assert_eq!(info.diameter, 0);
    assert!(info.longest.is_empty());
}

#[test]
fn search_settles_reachable_systems_with_distances() {
    let map = diamond();
    let found = bfs(&map, SystemId(1), None);
    let dists: Vec<Option<usize>> = found.iter().map(|w| w.as_ref().map(|w| w.dist)).collect();
    assert_eq!(dists, vec![Some(0), Some(1), Some(1), Some(2)]);
    let start = found[0].as_ref().unwrap();
    assert_eq!(start.parent, None);
    let last = found[3].as_ref().unwrap();
    assert_eq!(last.cur, SystemId(4));
    assert_eq!(last.parent, Some(SystemId(2)));
    let from_d = bfs(&map, SystemId(4), None);
    assert!(from_d[0].is_none());
}

#[test]
fn duplicate_ids_are_refused() {
    let nodes = vec![node(1, "A", &[]), node(1, "B", &[])];
    assert_eq!(StarMap::construct(&nodes).err(), Some(BuildError::DuplicateId));
}

#[test]
fn unknown_destinations_are_refused() {
    let nodes = vec![node(1, "A", &[7])];
    assert_eq!(StarMap::construct(&nodes).err(), Some(BuildError::UnknownDestination));
}

#[test]
fn systems_without_stargate_data_are_left_out() {
    let nodes = vec![
        node(1, "A", &[]),
        SystemData { system_id: 2, name: "W".to_string(), destinations: None },
        node(3, "C", &[1]),
    ];
    let map = StarMap::construct(&nodes).unwrap();
    assert_eq!(map.size(), 2);
    assert!(map.by_system_id(SystemId(2)).is_err());
    assert_eq!(map.by_system_id(SystemId(3)).unwrap().system_index, 1);
    let gate_to_dropped = vec![node(1, "A", &[2]), SystemData { system_id: 2, name: "W".to_string(), destinations: None }];
    assert_eq!(StarMap::construct(&gate_to_dropped).err(), Some(BuildError::UnknownDestination));
}

#[test]
fn lookups_by_name_and_id() {
    let map = build(vec![node(1, "A", &[2]), node(2, "Twin", &[1]), node(3, "Twin", &[1])]);
    let a = map.by_name("A").unwrap();
    assert_eq!(a.system_id, SystemId(1));
    assert_eq!(a.stargates, vec![SystemId(2)]);
    assert_eq!(map.by_name("Twin").unwrap().system_id, SystemId(3));
    assert!(map.by_name("Nowhere").is_none());
    assert_eq!(map.by_system_id(SystemId(2)).unwrap().name, "Twin");
    assert!(map.by_system_id(SystemId(9)).is_err());
    let names: Vec<&str> = map.systems_ref().iter().map(|s| s.name.as_str()).collect();
    assert_eq!(names, vec!["A", "Twin", "Twin"]);
}

// A ring of six systems in both directions: 1-2-3-4-5-6-1.
fn ring() -> StarMap {
    let mut nodes = Vec::new();
    for i in 1..=6usize {
        let next = if i == 6 { 1 } else { i + 1 };
        let prev = if i == 1 { 6 } else { i - 1 };
        nodes.push(node(i, &format!("R{}", i), &[next, prev]));
    }
    build(nodes)
}

#[test]
fn alternatives_start_with_the_shortest_route() {
    let map = ring();
    let table = apsp(&map);
    let routes = alt_routes(&map, &table, SystemId(1), SystemId(3), 3, 100, 0, 100)
        .unwrap()
        .unwrap();
    assert!(!routes.is_empty() && routes.len() <= 3);
    assert_eq!(ids(&routes[0]), vec![1, 2, 3]);
    assert_eq!(routes.len(), 2);
    assert_eq!(ids(&routes[1]), vec![1, 6, 5, 4, 3]);
}

#[test]
fn alternatives_respect_the_stretch_bound() {
    let map = ring();
    let table = apsp(&map);
    let routes = alt_routes(&map, &table, SystemId(1), SystemId(3), 3, 100, 0, 50)
        .unwrap()
        .unwrap();
    assert_eq!(routes.len(), 1);
    assert_eq!(ids(&routes[0]), vec![1, 2, 3]);
}

#[test]
fn alternatives_never_exceed_the_limit() {
    let map = ring();
    let table = apsp(&map);
    let routes = alt_routes(&map, &table, SystemId(1), SystemId(3), 1, 100, 0, 100)
        .unwrap()
        .unwrap();
    assert_eq!(routes.len(), 1);
}

#[test]
fn alternatives_refuse_bad_settings() {
    let map = ring();
    let table = apsp(&map);
    assert_eq!(
        alt_routes(&map, &table, SystemId(1), SystemId(3), 0, 50, 50, 50),
        Err(AltError::InvalidConfig)
    );
    assert_eq!(
        alt_routes(&map, &table, SystemId(1), SystemId(3), 2, 101, 50, 50),
        Err(AltError::InvalidConfig)
    );
    assert_eq!(
        alt_routes(&map, &table, SystemId(1), SystemId(3), 2, 50, 101, 50),
        Err(AltError::InvalidConfig)
    );
    assert_eq!(
        alt_routes(&map, &table, SystemId(1), SystemId(3), 2, 50, 50, 101),
        Err(AltError::InvalidConfig)
    );
}

#[test]
fn alternatives_are_none_without_a_route() {
    let map = chain();
    let table = apsp(&map);
    assert_eq!(alt_routes(&map, &table, SystemId(4), SystemId(1), 3, 50, 50, 50), Ok(None));
}

#[test]
fn decompresses_gzip_data() {
    let text = b"{\"stargates\":{},\"systems\":{}}";
    let mut encoder = libflate::gzip::Encoder::new(Vec::new()).unwrap();
    encoder.write_all(text).unwrap();
    let compressed = encoder.finish().into_result().unwrap();
    assert_ne!(compressed, text.to_vec());
    assert_eq!(plan_b::decompress_map_data(&compressed), Some(text.to_vec()));
    assert_eq!(plan_b::decompress_map_data(&b"not gzip".to_vec()), None);
}

#[test]
fn systems_iterate_in_construction_order() {
    let map = diamond();
    let order: Vec<usize> = map.systems().map(|s| s.system_id.0).collect();
    assert_eq!(order, vec![1, 2, 3, 4]);
    let indices: Vec<usize> = map.systems().map(|s| s.system_index).collect();
    assert_eq!(indices, vec![0, 1, 2, 3]);
}
