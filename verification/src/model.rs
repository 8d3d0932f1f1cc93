//! The mathematical model of the topology: spec functions over a sequence of
//! edges, and the lemmas that characterize them.

use vstd::prelude::*;
use crate::edge::Edge;

verus! {

/// The edge ends at port `p` of vertex `v`.
pub open spec fn targets(e: Edge, v: int, p: int) -> bool {
    e.target.index == v && e.target.port == p
}

/// The edge starts at port `p` of vertex `v`.
pub open spec fn sources(e: Edge, v: int, p: int) -> bool {
    e.source.index == v && e.source.port == p
}

/// Some edge of `es` ends at port `p` of vertex `v`.
pub open spec fn targeted(es: Seq<Edge>, v: int, p: int) -> bool {
    exists|i: int| 0 <= i < es.len() && #[trigger] targets(es[i], v, p)
}

/// Some edge of `es` starts at port `p` of vertex `v`.
pub open spec fn sourced(es: Seq<Edge>, v: int, p: int) -> bool {
    exists|i: int| 0 <= i < es.len() && #[trigger] sources(es[i], v, p)
}

/// One more than the largest target vertex index in `es`; 0 when `es` is
/// empty. This is the extent of the incoming index, and the vertex count the
/// graph reports.
pub open spec fn in_vertex_extent(es: Seq<Edge>) -> int
    decreases es.len(),
{
    if es.len() == 0 {
        0
    } else {
        let rest = in_vertex_extent(es.drop_last());
        let here = es.last().target.index + 1;
        if here > rest {
            here
        } else {
            rest
        }
    }
}

/// One more than the largest source vertex index in `es`; 0 when `es` is
/// empty. This is the extent of the outgoing index.
pub open spec fn out_vertex_extent(es: Seq<Edge>) -> int
    decreases es.len(),
{
    if es.len() == 0 {
        0
    } else {
        let rest = out_vertex_extent(es.drop_last());
        let here = es.last().source.index + 1;
        if here > rest {
            here
        } else {
            rest
        }
    }
}

/// One more than the largest port number at which an edge of `es` ends on
/// vertex `v`; 0 when no edge ends there. This is the length of vertex `v`'s
/// row in the incoming index.
pub open spec fn in_port_extent(es: Seq<Edge>, v: int) -> int
    decreases es.len(),
{
    if es.len() == 0 {
        0
    } else {
        let rest = in_port_extent(es.drop_last(), v);
        let e = es.last();
        if e.target.index == v && e.target.port + 1 > rest {
            e.target.port + 1
        } else {
            rest
        }
    }
}

/// One more than the largest port number at which an edge of `es` starts on
/// vertex `v`; 0 when no edge starts there. This is the length of vertex
/// `v`'s row in the outgoing index.
pub open spec fn out_port_extent(es: Seq<Edge>, v: int) -> int
    decreases es.len(),
{
    if es.len() == 0 {
        0
    } else {
        let rest = out_port_extent(es.drop_last(), v);
        let e = es.last();
        if e.source.index == v && e.source.port + 1 > rest {
            e.source.port + 1
        } else {
            rest
        }
    }
}

/// The largest id among the edges of `es` that end at port `p` of vertex `v`;
/// 0 when there is none. In a sequence ordered by id this is the id written
/// last into the incoming index slot, so it is what the slot holds.
pub open spec fn max_in_id(es: Seq<Edge>, v: int, p: int) -> usize
    decreases es.len(),
{
    if es.len() == 0 {
        0
    } else {
        let rest = max_in_id(es.drop_last(), v, p);
        if targets(es.last(), v, p) && es.last().id > rest {
            es.last().id
        } else {
            rest
        }
    }
}

/// The ids of the edges of `es` that start at port `p` of vertex `v`, in the
/// order they occur in `es`.
pub open spec fn out_ids(es: Seq<Edge>, v: int, p: int) -> Seq<usize>
    decreases es.len(),
{
    if es.len() == 0 {
        Seq::empty()
    } else {
        let rest = out_ids(es.drop_last(), v, p);
        if sources(es.last(), v, p) {
            rest.push(es.last().id)
        } else {
            rest
        }
    }
}

/// Some edge of `es` has id `k`.
pub open spec fn has_id(es: Seq<Edge>, k: int) -> bool {
    exists|i: int| 0 <= i < es.len() && (#[trigger] es[i]).id == k
}

/// Every id lies in `1..=n`.
pub open spec fn ids_in_range(es: Seq<Edge>) -> bool {
    forall|i: int| 0 <= i < es.len() ==> 1 <= (#[trigger] es[i]).id <= es.len()
}

/// No two edges share an id.
pub open spec fn ids_distinct(es: Seq<Edge>) -> bool {
    forall|i: int, j: int|
        0 <= i < j < es.len() ==> (#[trigger] es[i]).id != (#[trigger] es[j]).id
}

/// The ids of `es` are exactly `1..=n`, each once: in range, distinct, and
/// with every value of the range taken.
pub open spec fn ids_dense(es: Seq<Edge>) -> bool {
    &&& ids_in_range(es)
    &&& ids_distinct(es)
    &&& forall|k: int| 1 <= k <= es.len() ==> #[trigger] has_id(es, k)
}

/// Every source and target vertex index lies below the declared count `n`.
pub open spec fn vertices_in_range(es: Seq<Edge>, n: int) -> bool {
    forall|i: int|
        0 <= i < es.len() ==> ((#[trigger] es[i]).source.index < n && es[i].target.index < n)
}

/// Every input port slot the incoming index declares is wired: whenever some
/// edge ends on vertex `v`, every port of `v` below the largest targeted one
/// is itself the end of an edge.
pub open spec fn in_ports_wired(es: Seq<Edge>) -> bool {
    forall|v: int, p: int| 0 <= p < in_port_extent(es, v) ==> #[trigger] targeted(es, v, p)
}

/// Every output port slot the outgoing index declares is wired: whenever some
/// edge starts on vertex `v`, every port of `v` below the largest sourced one
/// is itself the start of an edge.
pub open spec fn out_ports_wired(es: Seq<Edge>) -> bool {
    forall|v: int, p: int| 0 <= p < out_port_extent(es, v) ==> #[trigger] sourced(es, v, p)
}

/// The edge value `e` occurs somewhere in `es`.
pub open spec fn contains_edge(es: Seq<Edge>, e: Edge) -> bool {
    exists|j: int| 0 <= j < es.len() && es[j] == e
}

/// The edges of `es1` and of `es2` are the same values: each element of one
/// occurs somewhere in the other. All the model functions above that do not
/// depend on order agree on two such sequences.
pub open spec fn same_edge_values(es1: Seq<Edge>, es2: Seq<Edge>) -> bool {
    &&& forall|i: int| 0 <= i < es1.len() ==> contains_edge(es2, #[trigger] es1[i])
    &&& forall|j: int| 0 <= j < es2.len() ==> contains_edge(es1, #[trigger] es2[j])
}

/// The vertex extents are never negative.
pub proof fn lemma_vertex_extents_nonneg(es: Seq<Edge>)
    ensures
        in_vertex_extent(es) >= 0,
        out_vertex_extent(es) >= 0,
    decreases es.len(),
{
    if es.len() > 0 {
        lemma_vertex_extents_nonneg(es.drop_last());
    }
}

/// The port extents of a vertex are never negative.
pub proof fn lemma_port_extents_nonneg(es: Seq<Edge>, v: int)
    ensures
        in_port_extent(es, v) >= 0,
        out_port_extent(es, v) >= 0,
    decreases es.len(),
{
    if es.len() > 0 {
        lemma_port_extents_nonneg(es.drop_last(), v);
    }
}

/// Every edge's target vertex index lies below the incoming vertex extent.
pub proof fn lemma_target_vertex_below_extent(es: Seq<Edge>, i: int)
    requires
        0 <= i < es.len(),
    ensures
        es[i].target.index < in_vertex_extent(es),
    decreases es.len(),
{
    if i < es.len() - 1 {
        lemma_target_vertex_below_extent(es.drop_last(), i);
    }
}

/// Every edge's source vertex index lies below the outgoing vertex extent.
pub proof fn lemma_source_vertex_below_extent(es: Seq<Edge>, i: int)
    requires
        0 <= i < es.len(),
    ensures
        es[i].source.index < out_vertex_extent(es),
    decreases es.len(),
{
    if i < es.len() - 1 {
        lemma_source_vertex_below_extent(es.drop_last(), i);
    }
}

/// Every edge's target port lies below the port extent of its target vertex.
pub proof fn lemma_target_port_below_extent(es: Seq<Edge>, i: int)
    requires
        0 <= i < es.len(),
    ensures
        es[i].target.port < in_port_extent(es, es[i].target.index as int),
    decreases es.len(),
{
    if i < es.len() - 1 {
        lemma_target_port_below_extent(es.drop_last(), i);
    }
}

/// Every edge's source port lies below the port extent of its source vertex.
pub proof fn lemma_source_port_below_extent(es: Seq<Edge>, i: int)
    requires
        0 <= i < es.len(),
    ensures
        es[i].source.port < out_port_extent(es, es[i].source.index as int),
    decreases es.len(),
{
    if i < es.len() - 1 {
        lemma_source_port_below_extent(es.drop_last(), i);
    }
}

/// A positive incoming vertex extent is witnessed: some edge ends on the
/// vertex just below it.
pub proof fn lemma_in_vertex_extent_witness(es: Seq<Edge>)
    requires
        in_vertex_extent(es) > 0,
    ensures
        exists|i: int|
            0 <= i < es.len() && (#[trigger] es[i]).target.index + 1 == in_vertex_extent(es),
    decreases es.len(),
{
    let last = es.len() - 1;
    if es[last].target.index + 1 != in_vertex_extent(es) {
        lemma_in_vertex_extent_witness(es.drop_last());
        let i = choose|i: int|
            0 <= i < es.drop_last().len() && (#[trigger] es.drop_last()[i]).target.index + 1
                == in_vertex_extent(es.drop_last());
        assert(es[i].target.index + 1 == in_vertex_extent(es));
    }
}

/// A positive outgoing vertex extent is witnessed: some edge starts on the
/// vertex just below it.
pub proof fn lemma_out_vertex_extent_witness(es: Seq<Edge>)
    requires
        out_vertex_extent(es) > 0,
    ensures
        exists|i: int|
            0 <= i < es.len() && (#[trigger] es[i]).source.index + 1 == out_vertex_extent(es),
    decreases es.len(),
{
    let last = es.len() - 1;
    if es[last].source.index + 1 != out_vertex_extent(es) {
        lemma_out_vertex_extent_witness(es.drop_last());
        let i = choose|i: int|
            0 <= i < es.drop_last().len() && (#[trigger] es.drop_last()[i]).source.index + 1
                == out_vertex_extent(es.drop_last());
        assert(es[i].source.index + 1 == out_vertex_extent(es));
    }
}

/// A positive incoming port extent is witnessed: the port just below it is
/// targeted.
pub proof fn lemma_in_port_extent_witness(es: Seq<Edge>, v: int)
    requires
        in_port_extent(es, v) > 0,
    ensures
        targeted(es, v, in_port_extent(es, v) - 1),
    decreases es.len(),
{
    let last = es.len() - 1;
    if targets(es[last], v, in_port_extent(es, v) - 1) {
        assert(targeted(es, v, in_port_extent(es, v) - 1));
    } else {
        lemma_in_port_extent_witness(es.drop_last(), v);
        let p = in_port_extent(es, v) - 1;
        let i = choose|i: int| 0 <= i < es.drop_last().len() && #[trigger] targets(
            es.drop_last()[i],
            v,
            p,
        );
        assert(targets(es[i], v, p));
    }
}

/// A positive outgoing port extent is witnessed: the port just below it is
/// sourced.
pub proof fn lemma_out_port_extent_witness(es: Seq<Edge>, v: int)
    requires
        out_port_extent(es, v) > 0,
    ensures
        sourced(es, v, out_port_extent(es, v) - 1),
    decreases es.len(),
{
    let last = es.len() - 1;
    if sources(es[last], v, out_port_extent(es, v) - 1) {
        assert(sourced(es, v, out_port_extent(es, v) - 1));
    } else {
        lemma_out_port_extent_witness(es.drop_last(), v);
        let p = out_port_extent(es, v) - 1;
        let i = choose|i: int| 0 <= i < es.drop_last().len() && #[trigger] sources(
            es.drop_last()[i],
            v,
            p,
        );
        assert(sources(es[i], v, p));
    }
}

/// `max_in_id` is the id of an edge ending at the slot when one exists, and 0
/// otherwise.
pub proof fn lemma_max_in_id_char(es: Seq<Edge>, v: int, p: int)
    ensures
        targeted(es, v, p) ==> exists|i: int|
            0 <= i < es.len() && #[trigger] targets(es[i], v, p) && es[i].id == max_in_id(
                es,
                v,
                p,
            ),
        !targeted(es, v, p) ==> max_in_id(es, v, p) == 0,
    decreases es.len(),
{
    if es.len() > 0 {
        let last = es.len() - 1;
        lemma_max_in_id_char(es.drop_last(), v, p);
        if targeted(es, v, p) {
            if targets(es[last], v, p) && es[last].id > max_in_id(es.drop_last(), v, p) {
                assert(targets(es[last], v, p) && es[last].id == max_in_id(es, v, p));
            } else if targets(es[last], v, p) && !targeted(es.drop_last(), v, p) {
                assert(max_in_id(es.drop_last(), v, p) == 0);
                assert(targets(es[last], v, p) && es[last].id == max_in_id(es, v, p));
            } else {
                if !targeted(es.drop_last(), v, p) {
                    let i = choose|i: int| 0 <= i < es.len() && #[trigger] targets(es[i], v, p);
                    if i < last {
                        assert(targets(es.drop_last()[i], v, p));
                        assert(false);
                    }
                    assert(targets(es[last], v, p));
                    assert(false);
                }
                let i = choose|i: int|
                    0 <= i < es.drop_last().len() && #[trigger] targets(es.drop_last()[i], v, p)
                        && es.drop_last()[i].id == max_in_id(es.drop_last(), v, p);
                assert(targets(es[i], v, p) && es[i].id == max_in_id(es, v, p));
            }
        } else {
            assert(!targeted(es.drop_last(), v, p)) by {
                if targeted(es.drop_last(), v, p) {
                    let i = choose|i: int|
                        0 <= i < es.drop_last().len() && #[trigger] targets(
                            es.drop_last()[i],
                            v,
                            p,
                        );
                    assert(targets(es[i], v, p));
                }
            }
            assert(!targets(es[last], v, p));
        }
    }
}

/// No edge ending at a slot has an id above `max_in_id` for that slot.
pub proof fn lemma_max_in_id_ge(es: Seq<Edge>, v: int, p: int, i: int)
    requires
        0 <= i < es.len(),
        targets(es[i], v, p),
    ensures
        es[i].id <= max_in_id(es, v, p),
    decreases es.len(),
{
    if i < es.len() - 1 {
        lemma_max_in_id_ge(es.drop_last(), v, p, i);
    }
}

/// An id occurs in `out_ids(es, v, p)` exactly when an edge with that id
/// starts at port `p` of vertex `v`.
pub proof fn lemma_out_ids_membership(es: Seq<Edge>, v: int, p: int, id: usize)
    ensures
        out_ids(es, v, p).contains(id) <==> exists|i: int|
            0 <= i < es.len() && #[trigger] sources(es[i], v, p) && es[i].id == id,
    decreases es.len(),
{
    if es.len() > 0 {
        let last = es.len() - 1;
        let pre = es.drop_last();
        lemma_out_ids_membership(pre, v, p, id);
        if out_ids(es, v, p).contains(id) {
            if sources(es[last], v, p) && es[last].id == id {
                assert(sources(es[last], v, p) && es[last].id == id);
            } else {
                assert(out_ids(pre, v, p).contains(id)) by {
                    let k = choose|k: int|
                        0 <= k < out_ids(es, v, p).len() && out_ids(es, v, p)[k] == id;
                    if sources(es[last], v, p) {
                        assert(out_ids(es, v, p) == out_ids(pre, v, p).push(es[last].id));
                        assert(k < out_ids(pre, v, p).len());
                        assert(out_ids(pre, v, p)[k] == id);
                    }
                }
                let i = choose|i: int|
                    0 <= i < pre.len() && #[trigger] sources(pre[i], v, p) && pre[i].id == id;
                assert(sources(es[i], v, p) && es[i].id == id);
            }
        }
        if exists|i: int| 0 <= i < es.len() && #[trigger] sources(es[i], v, p) && es[i].id == id {
            let i = choose|i: int|
                0 <= i < es.len() && #[trigger] sources(es[i], v, p) && es[i].id == id;
            if i == last {
                assert(out_ids(es, v, p).last() == id);
            } else {
                assert(sources(pre[i], v, p) && pre[i].id == id);
                assert(out_ids(pre, v, p).contains(id));
                let k = choose|k: int|
                    0 <= k < out_ids(pre, v, p).len() && out_ids(pre, v, p)[k] == id;
                assert(out_ids(es, v, p)[k] == id);
            }
        }
    }
}

/// `out_ids(es, v, p)` is non-empty exactly when the slot is sourced.
pub proof fn lemma_out_ids_nonempty(es: Seq<Edge>, v: int, p: int)
    ensures
        out_ids(es, v, p).len() > 0 <==> sourced(es, v, p),
    decreases es.len(),
{
    if es.len() > 0 {
        let last = es.len() - 1;
        let pre = es.drop_last();
        lemma_out_ids_nonempty(pre, v, p);
        if sources(es[last], v, p) {
            assert(sourced(es, v, p));
        } else {
            assert(sourced(pre, v, p) ==> sourced(es, v, p)) by {
                if sourced(pre, v, p) {
                    let i = choose|i: int| 0 <= i < pre.len() && #[trigger] sources(pre[i], v, p);
                    assert(sources(es[i], v, p));
                }
            }
            assert(sourced(es, v, p) ==> sourced(pre, v, p)) by {
                if sourced(es, v, p) {
                    let i = choose|i: int| 0 <= i < es.len() && #[trigger] sources(es[i], v, p);
                    assert(i < last);
                    assert(sources(pre[i], v, p));
                }
            }
        }
    }
}

/// An id names one edge: when the ids are distinct, two positions carrying
/// the same id are the same position, so "the edge with id `k`" is
/// well-defined and the round trip through the ordered sequence returns the
/// edge that was supplied.
pub proof fn lemma_id_owner_unique(es: Seq<Edge>, i: int, j: int)
    requires
        ids_distinct(es),
        0 <= i < es.len(),
        0 <= j < es.len(),
        es[i].id == es[j].id,
    ensures
        i == j,
{
}

/// When exactly one edge ends at port `p` of vertex `v`, the incoming index
/// slot for that port holds precisely that edge's id.
pub proof fn lemma_unique_in_edge(es: Seq<Edge>, v: int, p: int, i: int)
    requires
        0 <= i < es.len(),
        targets(es[i], v, p),
        forall|j: int| 0 <= j < es.len() && j != i ==> !targets(#[trigger] es[j], v, p),
    ensures
        max_in_id(es, v, p) == es[i].id,
{
    assert(targeted(es, v, p));
    lemma_max_in_id_char(es, v, p);
    let w = choose|w: int|
        0 <= w < es.len() && #[trigger] targets(es[w], v, p) && es[w].id == max_in_id(es, v, p);
    assert(w == i);
}

/// Every incoming index slot points back at an edge that ends at it: over a
/// sequence ordered by dense id, the slot's id is a valid 1-based id and the
/// edge stored under it targets the slot.
pub proof fn lemma_in_slot_points_back(es: Seq<Edge>, v: int, p: int)
    requires
        forall|m: int| 0 <= m < es.len() ==> (#[trigger] es[m]).id == m + 1,
        targeted(es, v, p),
    ensures
        1 <= max_in_id(es, v, p) <= es.len(),
        targets(es[max_in_id(es, v, p) - 1], v, p),
{
    lemma_max_in_id_char(es, v, p);
    let w = choose|w: int|
        0 <= w < es.len() && #[trigger] targets(es[w], v, p) && es[w].id == max_in_id(es, v, p);
    assert(es[w].id == w + 1);
}

/// The ids in an outgoing index slot come out in ascending id order: over a
/// sequence ordered by dense id, `out_ids` is strictly increasing, so the
/// slot lists its edges in the order of the ordered edge sequence.
pub proof fn lemma_out_ids_ascending(es: Seq<Edge>, v: int, p: int, a: int, b: int)
    requires
        forall|m: int| 0 <= m < es.len() ==> (#[trigger] es[m]).id == m + 1,
        0 <= a < b < out_ids(es, v, p).len(),
    ensures
        out_ids(es, v, p)[a] < out_ids(es, v, p)[b],
    decreases es.len(),
{
    let ids = out_ids(es, v, p);
    let last = es.len() - 1;
    let pre = es.drop_last();
    assert(es.len() > 0);
    if sources(es[last], v, p) && b == ids.len() - 1 {
        assert(ids[b] == es[last].id);
        assert(ids[a] == out_ids(pre, v, p)[a]);
        assert(out_ids(pre, v, p).contains(ids[a]));
        lemma_out_ids_membership(pre, v, p, ids[a]);
        let i = choose|i: int|
            0 <= i < pre.len() && #[trigger] sources(pre[i], v, p) && pre[i].id == ids[a];
        assert(pre[i] == es[i]);
        assert(ids[a] == i + 1);
    } else {
        lemma_out_ids_ascending(pre, v, p, a, b);
    }
}

/// Whether a slot is targeted or sourced does not depend on the order of the
/// edges, only on their values.
pub proof fn lemma_slot_use_invariant(es1: Seq<Edge>, es2: Seq<Edge>, v: int, p: int)
    requires
        same_edge_values(es1, es2),
    ensures
        targeted(es1, v, p) == targeted(es2, v, p),
        sourced(es1, v, p) == sourced(es2, v, p),
{
    if targeted(es1, v, p) {
        let i = choose|i: int| 0 <= i < es1.len() && #[trigger] targets(es1[i], v, p);
        let j = choose|j: int| 0 <= j < es2.len() && es2[j] == es1[i];
        assert(targets(es2[j], v, p));
    }
    if targeted(es2, v, p) {
        let j = choose|j: int| 0 <= j < es2.len() && #[trigger] targets(es2[j], v, p);
        let i = choose|i: int| 0 <= i < es1.len() && es1[i] == es2[j];
        assert(targets(es1[i], v, p));
    }
    if sourced(es1, v, p) {
        let i = choose|i: int| 0 <= i < es1.len() && #[trigger] sources(es1[i], v, p);
        let j = choose|j: int| 0 <= j < es2.len() && es2[j] == es1[i];
        assert(sources(es2[j], v, p));
    }
    if sourced(es2, v, p) {
        let j = choose|j: int| 0 <= j < es2.len() && #[trigger] sources(es2[j], v, p);
        let i = choose|i: int| 0 <= i < es1.len() && es1[i] == es2[j];
        assert(sources(es1[i], v, p));
    }
}

/// The port extents of a vertex do not depend on the order of the edges, only
/// on their values.
pub proof fn lemma_port_extent_invariant(es1: Seq<Edge>, es2: Seq<Edge>, v: int)
    requires
        same_edge_values(es1, es2),
    ensures
        in_port_extent(es1, v) == in_port_extent(es2, v),
        out_port_extent(es1, v) == out_port_extent(es2, v),
{
    lemma_port_extents_nonneg(es1, v);
    lemma_port_extents_nonneg(es2, v);
    assert(in_port_extent(es1, v) <= in_port_extent(es2, v)) by {
        if in_port_extent(es1, v) > 0 {
            lemma_in_port_extent_witness(es1, v);
            let p = in_port_extent(es1, v) - 1;
            let i = choose|i: int| 0 <= i < es1.len() && #[trigger] targets(es1[i], v, p);
            let j = choose|j: int| 0 <= j < es2.len() && es2[j] == es1[i];
            lemma_target_port_below_extent(es2, j);
        }
    }
    assert(in_port_extent(es2, v) <= in_port_extent(es1, v)) by {
        if in_port_extent(es2, v) > 0 {
            lemma_in_port_extent_witness(es2, v);
            let p = in_port_extent(es2, v) - 1;
            let j = choose|j: int| 0 <= j < es2.len() && #[trigger] targets(es2[j], v, p);
            let i = choose|i: int| 0 <= i < es1.len() && es1[i] == es2[j];
            lemma_target_port_below_extent(es1, i);
        }
    }
    assert(out_port_extent(es1, v) <= out_port_extent(es2, v)) by {
        if out_port_extent(es1, v) > 0 {
            lemma_out_port_extent_witness(es1, v);
            let p = out_port_extent(es1, v) - 1;
            let i = choose|i: int| 0 <= i < es1.len() && #[trigger] sources(es1[i], v, p);
            let j = choose|j: int| 0 <= j < es2.len() && es2[j] == es1[i];
            lemma_source_port_below_extent(es2, j);
        }
    }
    assert(out_port_extent(es2, v) <= out_port_extent(es1, v)) by {
        if out_port_extent(es2, v) > 0 {
            lemma_out_port_extent_witness(es2, v);
            let p = out_port_extent(es2, v) - 1;
            let j = choose|j: int| 0 <= j < es2.len() && #[trigger] sources(es2[j], v, p);
            let i = choose|i: int| 0 <= i < es1.len() && es1[i] == es2[j];
            lemma_source_port_below_extent(es1, i);
        }
    }
}

/// The vertex extents do not depend on the order of the edges, only on their
/// values.
pub proof fn lemma_vertex_extent_invariant(es1: Seq<Edge>, es2: Seq<Edge>)
    requires
        same_edge_values(es1, es2),
    ensures
        in_vertex_extent(es1) == in_vertex_extent(es2),
        out_vertex_extent(es1) == out_vertex_extent(es2),
{
    lemma_vertex_extents_nonneg(es1);
    lemma_vertex_extents_nonneg(es2);
    assert(in_vertex_extent(es1) <= in_vertex_extent(es2)) by {
        if in_vertex_extent(es1) > 0 {
            lemma_in_vertex_extent_witness(es1);
            let i = choose|i: int|
                0 <= i < es1.len() && (#[trigger] es1[i]).target.index + 1 == in_vertex_extent(
                    es1,
                );
            let j = choose|j: int| 0 <= j < es2.len() && es2[j] == es1[i];
            lemma_target_vertex_below_extent(es2, j);
        }
    }
    assert(in_vertex_extent(es2) <= in_vertex_extent(es1)) by {
        if in_vertex_extent(es2) > 0 {
            lemma_in_vertex_extent_witness(es2);
            let j = choose|j: int|
                0 <= j < es2.len() && (#[trigger] es2[j]).target.index + 1 == in_vertex_extent(
                    es2,
                );
            let i = choose|i: int| 0 <= i < es1.len() && es1[i] == es2[j];
            lemma_target_vertex_below_extent(es1, i);
        }
    }
    assert(out_vertex_extent(es1) <= out_vertex_extent(es2)) by {
        if out_vertex_extent(es1) > 0 {
            lemma_out_vertex_extent_witness(es1);
            let i = choose|i: int|
                0 <= i < es1.len() && (#[trigger] es1[i]).source.index + 1 == out_vertex_extent(
                    es1,
                );
            let j = choose|j: int| 0 <= j < es2.len() && es2[j] == es1[i];
            lemma_source_vertex_below_extent(es2, j);
        }
    }
    assert(out_vertex_extent(es2) <= out_vertex_extent(es1)) by {
        if out_vertex_extent(es2) > 0 {
            lemma_out_vertex_extent_witness(es2);
            let j = choose|j: int|
                0 <= j < es2.len() && (#[trigger] es2[j]).source.index + 1 == out_vertex_extent(
                    es2,
                );
            let i = choose|i: int| 0 <= i < es1.len() && es1[i] == es2[j];
            lemma_source_vertex_below_extent(es1, i);
        }
    }
}

/// Whether all declared ports are wired does not depend on the order of the
/// edges, only on their values.
pub proof fn lemma_wired_invariant(es1: Seq<Edge>, es2: Seq<Edge>)
    requires
        same_edge_values(es1, es2),
    ensures
        in_ports_wired(es1) == in_ports_wired(es2),
        out_ports_wired(es1) == out_ports_wired(es2),
{
    if in_ports_wired(es1) {
        assert forall|v: int, p: int| 0 <= p < in_port_extent(es2, v) implies #[trigger] targeted(
            es2,
            v,
            p,
        ) by {
            lemma_port_extent_invariant(es1, es2, v);
            lemma_slot_use_invariant(es1, es2, v, p);
        }
    }
    if in_ports_wired(es2) {
        assert forall|v: int, p: int| 0 <= p < in_port_extent(es1, v) implies #[trigger] targeted(
            es1,
            v,
            p,
        ) by {
            lemma_port_extent_invariant(es1, es2, v);
            lemma_slot_use_invariant(es1, es2, v, p);
        }
    }
    if out_ports_wired(es1) {
        assert forall|v: int, p: int| 0 <= p < out_port_extent(es2, v) implies #[trigger] sourced(
            es2,
            v,
            p,
        ) by {
            lemma_port_extent_invariant(es1, es2, v);
            lemma_slot_use_invariant(es1, es2, v, p);
        }
    }
    if out_ports_wired(es2) {
        assert forall|v: int, p: int| 0 <= p < out_port_extent(es1, v) implies #[trigger] sourced(
            es1,
            v,
            p,
        ) by {
            lemma_port_extent_invariant(es1, es2, v);
            lemma_slot_use_invariant(es1, es2, v, p);
        }
    }
}

} // verus!
