//! Route planning over a directed graph of star systems linked by one-way
//! stargates: shortest routes, all tied shortest routes, an all-pairs
//! distance table, the graph's diameter and diversified alternative routes.

pub mod alternatives;
pub mod apsp;
pub mod compressed;
pub mod diameter;
pub mod graph;
pub mod laws;
pub mod multipath;
pub mod paths;
pub mod search;
pub mod table;

pub use crate::alternatives::{alt_routes, AltError};
pub use crate::apsp::apsp;
pub use crate::compressed::decompress_map_data;
pub use crate::diameter::{diameter, DiameterInfo};
pub use crate::graph::{BuildError, NotFound, StarMap, SystemData, SystemId, SystemInfo};
pub use crate::multipath::shortest_routes_apsp;
pub use crate::search::{bfs, shortest_route, Waypoint};
pub use crate::table::{APSPTable, Hop, MAX_TABLE_SIDE};
