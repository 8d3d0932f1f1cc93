//! The validated, immutable graph and its query accessors.

use vstd::prelude::*;
use crate::edge::Edge;
use crate::model::contains_edge;
use crate::model::has_id;
use crate::model::ids_dense;
use crate::model::ids_distinct;
use crate::model::ids_in_range;
use crate::model::in_port_extent;
use crate::model::same_edge_values;
use crate::model::in_ports_wired;
use crate::model::in_vertex_extent;
use crate::model::lemma_in_port_extent_witness;
use crate::model::lemma_max_in_id_char;
use crate::model::lemma_out_ids_nonempty;
use crate::model::lemma_out_port_extent_witness;
use crate::model::lemma_source_vertex_below_extent;
use crate::model::lemma_target_vertex_below_extent;
use crate::model::lemma_wired_invariant;
use crate::model::max_in_id;
use crate::model::out_ids;
use crate::model::out_port_extent;
use crate::model::out_ports_wired;
use crate::model::out_vertex_extent;
use crate::model::sourced;
use crate::model::sources;
use crate::model::targeted;
use crate::model::targets;
use crate::model::vertices_in_range;

verus! {

/// A structural fault found while validating a plan. Every variant signals a
/// logic error in the upstream plan builder; no partially built graph is ever
/// returned.
#[derive(Clone, Copy, PartialEq, Eq, Structural, Debug)]
pub enum GraphError {
    /// The edge ids, sorted ascending, do not form the unbroken sequence
    /// `1..=n`: an id is out of range, repeated, or missing.
    NonContiguousIds,
    /// An edge names a source or target vertex index not below the declared
    /// vertex count.
    VertexOutOfRange,
    /// An input port is declared (a sibling port on the same vertex is some
    /// edge's target) but no edge ends at it.
    UnwiredInputPort,
    /// An output port is declared (a sibling port on the same vertex is some
    /// edge's source) but no edge starts at it.
    UnwiredOutputPort,
}

/// The immutable container: the edges ordered by id, plus the incoming and
/// outgoing adjacency indices.
pub struct LogicalGraph {
    /// All edges, ordered by id from 1 to n (edge with id `k` at offset `k-1`).
    edges: Vec<Edge>,
    /// For each vertex, the id of the single incoming edge per input port.
    in_e: Vec<Vec<usize>>,
    /// For each vertex, the ids of the outgoing edges per output port.
    out_e: Vec<Vec<Vec<usize>>>,
}

impl View for LogicalGraph {
    type V = Seq<Edge>;

    /// A graph is modeled by its edge sequence, ordered by id; both indices
    /// are functions of it.
    closed spec fn view(&self) -> Seq<Edge> {
        self.edges@
    }
}

impl LogicalGraph {
    /// Validates an arbitrarily ordered collection of edges against a declared
    /// vertex count and builds the two adjacency indices. Succeeds exactly
    /// when the ids are dense from 1, every vertex reference lies below the
    /// count, and every declared input and output port is wired; each fault is
    /// reported as the error for the first check, in this order, that fails.
    /// The ports are bounded because each index row must fit in memory.
    pub fn new(edges: Vec<Edge>, vertices: usize) -> (result: Result<LogicalGraph, GraphError>)
        requires
            forall|i: int|
                0 <= i < edges@.len() ==> (#[trigger] edges@[i]).source.port < usize::MAX
                    && edges@[i].target.port < usize::MAX,
        ensures
            match result {
                Ok(g) => {
                    &&& g.wf()
                    &&& g@.len() == edges@.len()
                    &&& forall|m: int| 0 <= m < g@.len() ==> (#[trigger] g@[m]).id == m + 1
                    &&& forall|i: int|
                        0 <= i < edges@.len() ==> g@[(#[trigger] edges@[i]).id - 1] == edges@[i]
                    &&& same_edge_values(edges@, g@)
                    &&& ids_dense(edges@)
                    &&& vertices_in_range(edges@, vertices as int)
                    &&& in_ports_wired(edges@)
                    &&& out_ports_wired(edges@)
                },
                Err(GraphError::NonContiguousIds) => !ids_dense(edges@),
                Err(GraphError::VertexOutOfRange) => ids_dense(edges@) && !vertices_in_range(
                    edges@,
                    vertices as int,
                ),
                Err(GraphError::UnwiredInputPort) => ids_dense(edges@) && vertices_in_range(
                    edges@,
                    vertices as int,
                ) && !in_ports_wired(edges@),
                Err(GraphError::UnwiredOutputPort) => ids_dense(edges@) && vertices_in_range(
                    edges@,
                    vertices as int,
                ) && in_ports_wired(edges@) && !out_ports_wired(edges@),
            },
    {
        let sorted = match sort_dense(&edges) {
            Ok(s) => s,
            Err(e) => {
                return Err(e);
            },
        };
        proof {
            assert forall|m: int|
                0 <= m < sorted@.len() implies (#[trigger] sorted@[m]).target.port < usize::MAX
                && sorted@[m].source.port < usize::MAX by {
                assert(contains_edge(edges@, sorted@[m]));
                let j = choose|j: int| 0 <= j < edges@.len() && edges@[j] == sorted@[m];
                assert(edges@[j].source.port < usize::MAX && edges@[j].target.port < usize::MAX);
            }
        }
        if !check_vertices(&sorted, vertices) {
            proof {
                let i = choose|i: int|
                    0 <= i < sorted@.len() && !((#[trigger] sorted@[i]).source.index < vertices
                        && sorted@[i].target.index < vertices);
                assert(contains_edge(edges@, sorted@[i]));
                let j = choose|j: int| 0 <= j < edges@.len() && edges@[j] == sorted@[i];
                assert(!((#[trigger] edges@[j]).source.index < vertices && edges@[j].target.index
                    < vertices));
            }
            return Err(GraphError::VertexOutOfRange);
        }
        proof {
            assert forall|i: int|
                0 <= i < edges@.len() implies (#[trigger] edges@[i]).source.index < vertices
                && edges@[i].target.index < vertices by {
                assert(sorted@[edges@[i].id - 1] == edges@[i]);
            }
        }
        let in_e = match build_in_index(&sorted) {
            Ok(ix) => ix,
            Err(e) => {
                proof {
                    lemma_wired_invariant(edges@, sorted@);
                }
                return Err(e);
            },
        };
        let out_e = match build_out_index(&sorted) {
            Ok(ix) => ix,
            Err(e) => {
                proof {
                    lemma_wired_invariant(edges@, sorted@);
                }
                return Err(e);
            },
        };
        proof {
            lemma_wired_invariant(edges@, sorted@);
        }
        let g = LogicalGraph { edges: sorted, in_e, out_e };
        proof {
            assert forall|v: int|
                0 <= v < g.in_e@.len() implies (#[trigger] g.in_e@[v])@.len() == in_port_extent(
                g.edges@,
                v,
            ) by {
                assert(in_row_ok(g.edges@, g.in_e@[v], v));
            }
            assert forall|v: int, p: int|
                0 <= v < g.in_e@.len() && 0 <= p < g.in_e@[v]@.len() implies (
            #[trigger] g.in_e@[v]@[p]) == max_in_id(g.edges@, v, p) by {
                assert(in_row_ok(g.edges@, g.in_e@[v], v));
                assert(g.in_e@[v]@[p] == max_in_id(g.edges@, v, p));
            }
            assert forall|v: int|
                0 <= v < g.out_e@.len() implies (#[trigger] g.out_e@[v])@.len() == out_port_extent(
                g.edges@,
                v,
            ) by {
                assert(out_row_ok(g.edges@, g.out_e@[v], v));
            }
            assert forall|v: int, p: int|
                0 <= v < g.out_e@.len() && 0 <= p < g.out_e@[v]@.len() implies (
            #[trigger] g.out_e@[v]@[p])@ == out_ids(g.edges@, v, p) by {
                assert(out_row_ok(g.edges@, g.out_e@[v], v));
                assert(g.out_e@[v]@[p]@ == out_ids(g.edges@, v, p));
            }
            assert(g.wf());
        }
        Ok(g)
    }

    /// The invariant established by construction and held for the object's
    /// whole lifetime: edges ordered by dense id, both indices shaped by the
    /// extents of the edge sequence and holding exactly what it dictates, and
    /// every declared port slot wired.
    pub closed spec fn wf(self) -> bool {
        &&& forall|k: int| 0 <= k < self.edges@.len() ==> (#[trigger] self.edges@[k]).id == k + 1
        &&& self.in_e@.len() == in_vertex_extent(self.edges@)
        &&& forall|v: int|
            0 <= v < self.in_e@.len() ==> (#[trigger] self.in_e@[v])@.len() == in_port_extent(
                self.edges@,
                v,
            )
        &&& forall|v: int, p: int|
            0 <= v < self.in_e@.len() && 0 <= p < self.in_e@[v]@.len() ==> (
            #[trigger] self.in_e@[v]@[p]) == max_in_id(self.edges@, v, p)
        &&& self.out_e@.len() == out_vertex_extent(self.edges@)
        &&& forall|v: int|
            0 <= v < self.out_e@.len() ==> (#[trigger] self.out_e@[v])@.len() == out_port_extent(
                self.edges@,
                v,
            )
        &&& forall|v: int, p: int|
            0 <= v < self.out_e@.len() && 0 <= p < self.out_e@[v]@.len() ==> (
            #[trigger] self.out_e@[v]@[p])@ == out_ids(self.edges@, v, p)
        &&& in_ports_wired(self.edges@)
        &&& out_ports_wired(self.edges@)
    }

    /// The full edge sequence, ordered by id.
    pub fn edges(&self) -> (r: &Vec<Edge>)
        ensures
            r@ == self@,
    {
        &self.edges
    }

    /// The edge with the given 1-based id, or nothing when the id is 0 or
    /// exceeds the edge count.
    pub fn get_edge(&self, edge_index: usize) -> (r: Option<&Edge>)
        ensures
            match r {
                Some(e) => 1 <= edge_index <= self@.len() && *e == self@[edge_index - 1],
                None => edge_index == 0 || edge_index > self@.len(),
            },
    {
        if edge_index == 0 || edge_index > self.edges.len() {
            None
        } else {
            Some(&self.edges[edge_index - 1])
        }
    }

    /// The per-port incoming edge ids of the vertex, or nothing when the
    /// vertex index is beyond every targeted vertex. Each slot holds the id
    /// of the highest-numbered edge ending at that port.
    pub fn get_in_edges(&self, index: usize) -> (r: Option<&Vec<usize>>)
        requires
            self.wf(),
        ensures
            match r {
                Some(row) => {
                    &&& index < in_vertex_extent(self@)
                    &&& row@.len() == in_port_extent(self@, index as int)
                    &&& forall|p: int|
                        0 <= p < row@.len() ==> (#[trigger] row@[p]) == max_in_id(
                            self@,
                            index as int,
                            p,
                        ) && targeted(self@, index as int, p)
                },
                None => index >= in_vertex_extent(self@),
            },
    {
        if index < self.in_e.len() {
            Some(&self.in_e[index])
        } else {
            None
        }
    }

    /// The per-port outgoing edge id lists of the vertex, or nothing when the
    /// vertex index is beyond every sourced vertex. Each non-empty slot lists,
    /// in ascending id order, the ids of the edges starting at that port.
    pub fn get_out_edges(&self, index: usize) -> (r: Option<&Vec<Vec<usize>>>)
        requires
            self.wf(),
        ensures
            match r {
                Some(rows) => {
                    &&& index < out_vertex_extent(self@)
                    &&& rows@.len() == out_port_extent(self@, index as int)
                    &&& forall|p: int|
                        0 <= p < rows@.len() ==> (#[trigger] rows@[p])@ == out_ids(
                            self@,
                            index as int,
                            p,
                        ) && rows@[p]@.len() > 0
                },
                None => index >= out_vertex_extent(self@),
            },
    {
        proof {
            if index < self.out_e@.len() {
                assert forall|p: int|
                    0 <= p < out_port_extent(self.edges@, index as int) implies out_ids(
                    self.edges@,
                    index as int,
                    p,
                ).len() > 0 by {
                    lemma_out_ids_nonempty(self.edges@, index as int, p);
                }
            }
        }
        if index < self.out_e.len() {
            Some(&self.out_e[index])
        } else {
            None
        }
    }

    /// The count of vertices known to the incoming index: one more than the
    /// largest vertex index any edge ends on.
    pub fn vertex_size(&self) -> (r: usize)
        requires
            self.wf(),
        ensures
            r == in_vertex_extent(self@),
    {
        self.in_e.len()
    }
}

/// The edge value `e` occurs in `es` before position `bound`.
spec fn occurs_before(es: Seq<Edge>, bound: int, e: Edge) -> bool {
    exists|j: int| 0 <= j < bound && es[j] == e
}

/// Orders the edges by their ids by placing each into the slot its id
/// dictates, and rejects any id that is out of range, repeated, or missing.
#[verifier::loop_isolation(false)]
fn sort_dense(edges: &Vec<Edge>) -> (r: Result<Vec<Edge>, GraphError>)
    ensures
        match r {
            Ok(s) => {
                &&& ids_dense(edges@)
                &&& s@.len() == edges@.len()
                &&& forall|m: int| 0 <= m < s@.len() ==> (#[trigger] s@[m]).id == m + 1
                &&& forall|i: int|
                    0 <= i < edges@.len() ==> s@[(#[trigger] edges@[i]).id - 1] == edges@[i]
                &&& same_edge_values(edges@, s@)
            },
            Err(e) => e == GraphError::NonContiguousIds && !ids_dense(edges@),
        },
{
    let n = edges.len();
    let mut slots: Vec<Option<Edge>> = Vec::with_capacity(n);
    let mut f: usize = 0;
    while f < n
        invariant
            f <= n,
            slots@.len() == f,
            forall|m: int| 0 <= m < f ==> (#[trigger] slots@[m]) is None,
        decreases n - f,
    {
        slots.push(None);
        f = f + 1;
    }
    let mut i: usize = 0;
    while i < n
        invariant
            i <= n,
            slots@.len() == n,
            forall|m: int|
                0 <= m < n ==> ((#[trigger] slots@[m]) matches Some(e) ==> e.id == m + 1
                    && occurs_before(edges@, i as int, e)),
            forall|j: int|
                0 <= j < i ==> 1 <= (#[trigger] edges@[j]).id <= n && slots@[edges@[j].id - 1]
                    == Some(edges@[j]),
            forall|j1: int, j2: int|
                0 <= j1 < j2 < i ==> (#[trigger] edges@[j1]).id != (#[trigger] edges@[j2]).id,
        decreases n - i,
    {
        let e = edges[i];
        if e.id < 1 || e.id > n {
            proof {
                assert(!ids_in_range(edges@));
            }
            return Err(GraphError::NonContiguousIds);
        }
        if slots[e.id - 1].is_some() {
            proof {
                let prev = slots@[e.id - 1]->0;
                let j = choose|j: int| 0 <= j < i && edges@[j] == prev;
                assert(edges@[j].id == edges@[i as int].id);
                assert(!ids_distinct(edges@));
            }
            return Err(GraphError::NonContiguousIds);
        }
        slots.set(e.id - 1, Some(e));
        proof {
            assert forall|m: int|
                0 <= m < n implies ((#[trigger] slots@[m]) matches Some(pe) ==> pe.id == m + 1
                && occurs_before(edges@, i + 1, pe)) by {
                if slots@[m] is Some {
                    let pe = slots@[m]->0;
                    if m == e.id - 1 {
                        assert(edges@[i as int] == pe);
                    } else {
                        let j = choose|j: int| 0 <= j < i && edges@[j] == pe;
                        assert(0 <= j < i + 1 && edges@[j] == pe);
                    }
                }
            }
        }
        i = i + 1;
    }
    let mut sorted: Vec<Edge> = Vec::with_capacity(n);
    let mut k: usize = 0;
    while k < n
        invariant
            k <= n,
            slots@.len() == n,
            forall|m: int|
                0 <= m < n ==> ((#[trigger] slots@[m]) matches Some(e) ==> e.id == m + 1
                    && occurs_before(edges@, n as int, e)),
            forall|j: int|
                0 <= j < n ==> 1 <= (#[trigger] edges@[j]).id <= n && slots@[edges@[j].id - 1]
                    == Some(edges@[j]),
            forall|j1: int, j2: int|
                0 <= j1 < j2 < n ==> (#[trigger] edges@[j1]).id != (#[trigger] edges@[j2]).id,
            sorted@.len() == k,
            forall|m: int| 0 <= m < k ==> slots@[m] == Some((#[trigger] sorted@[m])),
        decreases n - k,
    {
        let slot = slots[k];
        match slot {
            None => {
                proof {
                    assert(!has_id(edges@, k + 1)) by {
                        if has_id(edges@, k + 1) {
                            let j = choose|j: int|
                                0 <= j < edges@.len() && (#[trigger] edges@[j]).id == k + 1;
                            assert(slots@[k as int] == Some(edges@[j]));
                        }
                    }
                }
                return Err(GraphError::NonContiguousIds);
            },
            Some(e) => {
                sorted.push(e);
            },
        }
        k = k + 1;
    }
    proof {
        assert forall|kk: int| 1 <= kk <= edges@.len() implies #[trigger] has_id(edges@, kk) by {
            let m = kk - 1;
            assert(slots@[m] == Some(sorted@[m]));
            let j = choose|j: int| 0 <= j < n && edges@[j] == sorted@[m];
            assert(0 <= j < edges@.len() && edges@[j].id == kk);
        }
        assert forall|i2: int|
            0 <= i2 < edges@.len() implies sorted@[(#[trigger] edges@[i2]).id - 1]
            == edges@[i2] by {
            assert(slots@[edges@[i2].id - 1] == Some(edges@[i2]));
            assert(slots@[edges@[i2].id - 1] == Some(sorted@[edges@[i2].id - 1]));
        }
        assert forall|i2: int|
            0 <= i2 < edges@.len() implies contains_edge(sorted@, #[trigger] edges@[i2]) by {
            assert(sorted@[edges@[i2].id - 1] == edges@[i2]);
        }
        assert forall|m: int|
            0 <= m < sorted@.len() implies contains_edge(edges@, #[trigger] sorted@[m]) by {
            assert(slots@[m] == Some(sorted@[m]));
            let j = choose|j: int| 0 <= j < n && edges@[j] == sorted@[m];
            assert(0 <= j < edges@.len() && edges@[j] == sorted@[m]);
        }
    }
    Ok(sorted)
}

/// Checks that every source and target vertex index lies below the declared
/// vertex count.
#[verifier::loop_isolation(false)]
fn check_vertices(sorted: &Vec<Edge>, vertices: usize) -> (ok: bool)
    ensures
        ok == vertices_in_range(sorted@, vertices as int),
{
    let n = sorted.len();
    let mut k: usize = 0;
    while k < n
        invariant
            k <= n,
            forall|m: int|
                0 <= m < k ==> (#[trigger] sorted@[m]).source.index < vertices
                    && sorted@[m].target.index < vertices,
        decreases n - k,
    {
        let e = sorted[k];
        if e.source.index >= vertices || e.target.index >= vertices {
            proof {
                assert(!((#[trigger] sorted@[k as int]).source.index < vertices
                    && sorted@[k as int].target.index < vertices));
            }
            return false;
        }
        k = k + 1;
    }
    true
}

/// The row for vertex `v` of the incoming index is fully built: one slot per
/// declared input port, each holding the id of the highest-numbered edge
/// ending at it.
spec fn in_row_ok(es: Seq<Edge>, row: Vec<usize>, v: int) -> bool {
    &&& row@.len() == in_port_extent(es, v)
    &&& forall|p: int|
        0 <= p < row@.len() ==> (#[trigger] row@[p]) == max_in_id(es, v, p) && targeted(es, v, p)
}

/// The row for vertex `v` of the outgoing index is fully built: one slot per
/// declared output port, each listing in id order the ids of the edges
/// starting at it.
spec fn out_row_ok(es: Seq<Edge>, rows: Vec<Vec<usize>>, v: int) -> bool {
    &&& rows@.len() == out_port_extent(es, v)
    &&& forall|p: int|
        0 <= p < rows@.len() ==> (#[trigger] rows@[p])@ == out_ids(es, v, p) && sourced(es, v, p)
}

/// Builds the incoming index over edges already ordered by dense id: one row
/// per targeted vertex, one slot per declared input port, each slot holding
/// the id of the highest-numbered edge ending at it. Rejects the plan when a
/// declared input port is never targeted.
#[verifier::loop_isolation(false)]
fn build_in_index(sorted: &Vec<Edge>) -> (r: Result<Vec<Vec<usize>>, GraphError>)
    requires
        forall|m: int| 0 <= m < sorted@.len() ==> (#[trigger] sorted@[m]).id == m + 1,
        forall|m: int|
            0 <= m < sorted@.len() ==> (#[trigger] sorted@[m]).target.port < usize::MAX
                && sorted@[m].target.index < usize::MAX,
    ensures
        match r {
            Ok(ix) => {
                &&& ix@.len() == in_vertex_extent(sorted@)
                &&& forall|v: int| 0 <= v < ix@.len() ==> in_row_ok(sorted@, #[trigger] ix@[v], v)
                &&& in_ports_wired(sorted@)
            },
            Err(e) => e == GraphError::UnwiredInputPort && !in_ports_wired(sorted@),
        },
{
    let n = sorted.len();
    let mut nv: usize = 0;
    let mut k: usize = 0;
    while k < n
        invariant
            k <= n,
            nv == in_vertex_extent(sorted@.take(k as int)),
        decreases n - k,
    {
        proof {
            assert(sorted@.take(k + 1).drop_last() =~= sorted@.take(k as int));
            assert(sorted@.take(k + 1).last() == sorted@[k as int]);
        }
        let e = sorted[k];
        if e.target.index >= nv {
            nv = e.target.index + 1;
        }
        k = k + 1;
    }
    proof {
        assert(sorted@.take(n as int) =~= sorted@);
    }
    let mut ix: Vec<Vec<usize>> = Vec::with_capacity(nv);
    let mut v: usize = 0;
    while v < nv
        invariant
            v <= nv,
            nv == in_vertex_extent(sorted@),
            ix@.len() == v,
            forall|w: int| 0 <= w < v ==> in_row_ok(sorted@, #[trigger] ix@[w], w),
        decreases nv - v,
    {
        let mut plen: usize = 0;
        let mut k1: usize = 0;
        while k1 < n
            invariant
                k1 <= n,
                plen == in_port_extent(sorted@.take(k1 as int), v as int),
            decreases n - k1,
        {
            proof {
                assert(sorted@.take(k1 + 1).drop_last() =~= sorted@.take(k1 as int));
                assert(sorted@.take(k1 + 1).last() == sorted@[k1 as int]);
            }
            let t = sorted[k1].target;
            if t.index == v && t.port >= plen {
                plen = t.port + 1;
            }
            k1 = k1 + 1;
        }
        proof {
            assert(sorted@.take(n as int) =~= sorted@);
        }
        let mut row: Vec<usize> = Vec::with_capacity(plen);
        let mut p: usize = 0;
        while p < plen
            invariant
                p <= plen,
                plen == in_port_extent(sorted@, v as int),
                row@.len() == p,
                forall|q: int|
                    0 <= q < p ==> (#[trigger] row@[q]) == max_in_id(sorted@, v as int, q)
                        && targeted(sorted@, v as int, q),
        decreases plen - p,
        {
            let mut found: bool = false;
            let mut id: usize = 0;
            let mut k2: usize = 0;
            while k2 < n
                invariant
                    k2 <= n,
                    found == targeted(sorted@.take(k2 as int), v as int, p as int),
                    found ==> id == max_in_id(sorted@.take(k2 as int), v as int, p as int),
                decreases n - k2,
            {
                proof {
                    assert(sorted@.take(k2 + 1).drop_last() =~= sorted@.take(k2 as int));
                    assert(sorted@.take(k2 + 1).last() == sorted@[k2 as int]);
                }
                let t = sorted[k2].target;
                if t.index == v && t.port == p {
                    proof {
                        let pre = sorted@.take(k2 as int);
                        let cur = sorted@.take(k2 + 1);
                        assert(targets(cur[k2 as int], v as int, p as int));
                        assert(targeted(cur, v as int, p as int));
                        lemma_max_in_id_char(pre, v as int, p as int);
                        if targeted(pre, v as int, p as int) {
                            let i = choose|i: int|
                                0 <= i < pre.len() && #[trigger] targets(pre[i], v as int, p as int)
                                    && pre[i].id == max_in_id(pre, v as int, p as int);
                            assert(pre[i] == sorted@[i]);
                            assert(max_in_id(pre, v as int, p as int) == i + 1);
                        }
                        assert(sorted@[k2 as int].id > max_in_id(pre, v as int, p as int));
                    }
                    found = true;
                    id = sorted[k2].id;
                } else {
                    proof {
                        let pre = sorted@.take(k2 as int);
                        let cur = sorted@.take(k2 + 1);
                        if targeted(pre, v as int, p as int) {
                            let i = choose|i: int|
                                0 <= i < pre.len() && #[trigger] targets(pre[i], v as int, p as int);
                            assert(targets(cur[i], v as int, p as int));
                        }
                        if targeted(cur, v as int, p as int) {
                            let i = choose|i: int|
                                0 <= i < cur.len() && #[trigger] targets(cur[i], v as int, p as int);
                            if i == k2 {
                                assert(targets(sorted@[k2 as int], v as int, p as int));
                                assert(false);
                            }
                            assert(targets(pre[i], v as int, p as int));
                        }
                    }
                }
                k2 = k2 + 1;
            }
            proof {
                assert(sorted@.take(n as int) =~= sorted@);
            }
            if !found {
                proof {
                    assert(!targeted(sorted@, v as int, p as int));
                    assert(!in_ports_wired(sorted@));
                }
                return Err(GraphError::UnwiredInputPort);
            }
            row.push(id);
            p = p + 1;
        }
        proof {
            assert(in_row_ok(sorted@, row, v as int));
        }
        ix.push(row);
        v = v + 1;
    }
    proof {
        assert forall|v2: int, p2: int|
            0 <= p2 < in_port_extent(sorted@, v2) implies #[trigger] targeted(sorted@, v2, p2) by {
            if 0 <= v2 < nv {
                assert(in_row_ok(sorted@, ix@[v2], v2));
                assert(ix@[v2]@[p2] == max_in_id(sorted@, v2, p2) && targeted(sorted@, v2, p2));
            } else {
                lemma_in_port_extent_witness(sorted@, v2);
                let i = choose|i: int|
                    0 <= i < sorted@.len() && #[trigger] targets(
                        sorted@[i],
                        v2,
                        in_port_extent(sorted@, v2) - 1,
                    );
                lemma_target_vertex_below_extent(sorted@, i);
                assert(false);
            }
        }
    }
    Ok(ix)
}

/// Builds the outgoing index over edges already ordered by dense id: one row
/// per sourced vertex, one slot per declared output port, each slot listing
/// in id order the ids of the edges starting at it. Rejects the plan when a
/// declared output port is never sourced.
#[verifier::loop_isolation(false)]
fn build_out_index(sorted: &Vec<Edge>) -> (r: Result<Vec<Vec<Vec<usize>>>, GraphError>)
    requires
        forall|m: int| 0 <= m < sorted@.len() ==> (#[trigger] sorted@[m]).id == m + 1,
        forall|m: int|
            0 <= m < sorted@.len() ==> (#[trigger] sorted@[m]).source.port < usize::MAX
                && sorted@[m].source.index < usize::MAX,
    ensures
        match r {
            Ok(ix) => {
                &&& ix@.len() == out_vertex_extent(sorted@)
                &&& forall|v: int| 0 <= v < ix@.len() ==> out_row_ok(sorted@, #[trigger] ix@[v], v)
                &&& out_ports_wired(sorted@)
            },
            Err(e) => e == GraphError::UnwiredOutputPort && !out_ports_wired(sorted@),
        },
{
    let n = sorted.len();
    let mut nv: usize = 0;
    let mut k: usize = 0;
    while k < n
        invariant
            k <= n,
            nv == out_vertex_extent(sorted@.take(k as int)),
        decreases n - k,
    {
        proof {
            assert(sorted@.take(k + 1).drop_last() =~= sorted@.take(k as int));
            assert(sorted@.take(k + 1).last() == sorted@[k as int]);
        }
        let e = sorted[k];
        if e.source.index >= nv {
            nv = e.source.index + 1;
        }
        k = k + 1;
    }
    proof {
        assert(sorted@.take(n as int) =~= sorted@);
    }
    let mut ix: Vec<Vec<Vec<usize>>> = Vec::with_capacity(nv);
    let mut v: usize = 0;
    while v < nv
        invariant
            v <= nv,
            nv == out_vertex_extent(sorted@),
            ix@.len() == v,
            forall|w: int| 0 <= w < v ==> out_row_ok(sorted@, #[trigger] ix@[w], w),
        decreases nv - v,
    {
        let mut plen: usize = 0;
        let mut k1: usize = 0;
        while k1 < n
            invariant
                k1 <= n,
                plen == out_port_extent(sorted@.take(k1 as int), v as int),
            decreases n - k1,
        {
            proof {
                assert(sorted@.take(k1 + 1).drop_last() =~= sorted@.take(k1 as int));
                assert(sorted@.take(k1 + 1).last() == sorted@[k1 as int]);
            }
            let s = sorted[k1].source;
            if s.index == v && s.port >= plen {
                plen = s.port + 1;
            }
            k1 = k1 + 1;
        }
        proof {
            assert(sorted@.take(n as int) =~= sorted@);
        }
        let mut rows: Vec<Vec<usize>> = Vec::with_capacity(plen);
        let mut p: usize = 0;
        while p < plen
            invariant
                p <= plen,
                plen == out_port_extent(sorted@, v as int),
                rows@.len() == p,
                forall|q: int|
                    0 <= q < p ==> (#[trigger] rows@[q])@ == out_ids(sorted@, v as int, q)
                        && sourced(sorted@, v as int, q),
            decreases plen - p,
        {
            let mut cell: Vec<usize> = Vec::new();
            let mut k2: usize = 0;
            while k2 < n
                invariant
                    k2 <= n,
                    cell@ == out_ids(sorted@.take(k2 as int), v as int, p as int),
                decreases n - k2,
            {
                proof {
                    assert(sorted@.take(k2 + 1).drop_last() =~= sorted@.take(k2 as int));
                    assert(sorted@.take(k2 + 1).last() == sorted@[k2 as int]);
                }
                let s = sorted[k2].source;
                if s.index == v && s.port == p {
                    cell.push(sorted[k2].id);
                }
                k2 = k2 + 1;
            }
            proof {
                assert(sorted@.take(n as int) =~= sorted@);
                lemma_out_ids_nonempty(sorted@, v as int, p as int);
            }
            if cell.is_empty() {
                proof {
                    assert(!sourced(sorted@, v as int, p as int));
                    assert(!out_ports_wired(sorted@));
                }
                return Err(GraphError::UnwiredOutputPort);
            }
            rows.push(cell);
            p = p + 1;
        }
        proof {
            assert(out_row_ok(sorted@, rows, v as int));
        }
        ix.push(rows);
        v = v + 1;
    }
    proof {
        assert forall|v2: int, p2: int|
            0 <= p2 < out_port_extent(sorted@, v2) implies #[trigger] sourced(sorted@, v2, p2) by {
            if 0 <= v2 < nv {
                assert(out_row_ok(sorted@, ix@[v2], v2));
                assert(ix@[v2]@[p2]@ == out_ids(sorted@, v2, p2) && sourced(sorted@, v2, p2));
            } else {
                lemma_out_port_extent_witness(sorted@, v2);
                let i = choose|i: int|
                    0 <= i < sorted@.len() && #[trigger] sources(
                        sorted@[i],
                        v2,
                        out_port_extent(sorted@, v2) - 1,
                    );
                lemma_source_vertex_below_extent(sorted@, i);
                assert(false);
            }
        }
    }
    Ok(ix)
}

impl Default for LogicalGraph {
    /// The empty graph: no edges, no indexed vertices. It is trivially valid.
    fn default() -> (r: Self)
        ensures
            r.wf(),
            r@ == Seq::<Edge>::empty(),
    {
        LogicalGraph { edges: Vec::new(), in_e: Vec::new(), out_e: Vec::new() }
    }
}

} // verus!
