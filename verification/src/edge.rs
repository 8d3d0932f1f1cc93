//! Plain value types describing connection endpoints and connections.

use vstd::prelude::*;

verus! {

/// One endpoint of a connection: the index of a vertex and the number of a
/// port on that vertex.
#[derive(Clone, Copy, PartialEq, Eq, Structural, Hash, Debug)]
pub struct Port {
    pub index: usize,
    pub port: usize,
}

impl Port {
    pub fn new(index: usize, port: usize) -> (r: Self)
        ensures
            r == (Port { index, port }),
    {
        Port { index, port }
    }
}

impl Default for Port {
    fn default() -> (r: Self)
        ensures
            r == (Port { index: 0, port: 0 }),
    {
        Port { index: 0, port: 0 }
    }
}

/// A directed connection in the (possibly cyclic) plan graph: a globally
/// unique id (dense, 1-based), a source and a target endpoint, and three
/// passthrough attributes (`scope_depth`, `src_peers`, `dst_peers`) plus a
/// locality flag, all opaque to this crate's logic.
#[derive(Clone, Copy, PartialEq, Eq, Structural, Debug)]
pub struct Edge {
    pub id: usize,
    pub source: Port,
    pub target: Port,
    pub scope_depth: usize,
    pub src_peers: usize,
    pub dst_peers: usize,
    pub is_local: bool,
}

impl Default for Edge {
    /// A meaningless placeholder: id 0 can never appear in a validated graph.
    fn default() -> (r: Self)
        ensures
            r == (Edge {
                id: 0,
                source: Port { index: 0, port: 0 },
                target: Port { index: 0, port: 0 },
                scope_depth: 0,
                src_peers: 1,
                dst_peers: 1,
                is_local: true,
            }),
    {
        Edge {
            id: 0,
            source: Port::new(0, 0),
            target: Port::new(0, 0),
            scope_depth: 0,
            src_peers: 1,
            dst_peers: 1,
            is_local: true,
        }
    }
}

} // verus!
