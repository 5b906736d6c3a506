//! What an insertion leaves behind, as a function of the nodes before it.

use vstd::prelude::*;
use crate::descent::{choice, leaf_has_pair, leaf_has_point, target_leaf};
use crate::error::IndexError;
use crate::grow::PromotedView;
use crate::insert::Growth;
use crate::node::{DocId, LeafEntryView, NodeId, NodeView, RoutingEntryView};
use crate::split::{
    farthest,
    leaf_half,
    leaf_reach,
    leaf_vectors,
    pivots,
    routing_half,
    routing_reach,
};
use crate::tree::{in_subtree, subtree_pairs, Nodes, Pair};
use crate::vector::{dist, Distance};

verus! {

/// What an insertion below a node leaves: the nodes, the two halves if
/// the node was split, and the identifier that the next new node gets.
pub struct Outcome {
    pub nodes: Nodes,
    pub split: Option<(PromotedView, PromotedView)>,
    pub next: nat,
}

/// The entries of a leaf after it has taken the pair `p`: the entry of the
/// point takes the record, unless it has it, and if there is no such entry
/// a new one stands at the end.
pub open spec fn leaf_after(
    kind: Distance,
    es: Seq<LeafEntryView>,
    parent: Option<Seq<int>>,
    p: Pair,
) -> Seq<LeafEntryView> {
    if exists|j: int| 0 <= j < es.len() && (#[trigger] es[j]).vector == p.0 {
        let j = choose|j: int| 0 <= j < es.len() && (#[trigger] es[j]).vector == p.0;
        if es[j].docs.contains(p.1) {
            es
        } else {
            es.update(
                j,
                LeafEntryView { vector: es[j].vector, docs: es[j].docs.push(p.1), parent_dist: es[j].parent_dist },
            )
        }
    } else {
        es.push(
            LeafEntryView {
                vector: p.0,
                docs: seq![p.1],
                parent_dist: match parent {
                    Some(pv) => Some(dist(kind, p.0, pv) as u128),
                    None => None,
                },
            },
        )
    }
}

/// The entry with its radius raised to hold the point `v`.
pub open spec fn raised(kind: Distance, e: RoutingEntryView, v: Seq<int>) -> RoutingEntryView {
    RoutingEntryView {
        pivot: e.pivot,
        radius: if dist(kind, e.pivot, v) > e.radius {
            dist(kind, e.pivot, v) as u128
        } else {
            e.radius
        },
        child: e.child,
        parent_dist: e.parent_dist,
    }
}

/// The entry by which a node refers to one half of a child that was split.
pub open spec fn entry_of(kind: Distance, o: PromotedView, parent: Option<Seq<int>>) -> RoutingEntryView {
    RoutingEntryView {
        pivot: o.pivot,
        radius: o.radius,
        child: o.node,
        parent_dist: match parent {
            Some(pv) => Some(dist(kind, o.pivot, pv) as u128),
            None => None,
        },
    }
}

/// What becomes of the leaf `id` with the entries `es`: it is written as
/// it is if the entries fit, and split otherwise.
pub open spec fn leaf_outcome(m: Nodes, kind: Distance, cap: nat, id: NodeId, es: Seq<LeafEntryView>, next: nat) -> Outcome {
    if es.len() <= cap {
        Outcome { nodes: m.insert(id, NodeView::Leaf(es)), split: None, next }
    } else {
        let ij = farthest(kind, leaf_vectors(es));
        let first = leaf_half(kind, es, ij.0, ij.1, es.len(), true);
        let second = leaf_half(kind, es, ij.0, ij.1, es.len(), false);
        Outcome {
            nodes: m.insert(id, NodeView::Leaf(first)).insert(next as NodeId, NodeView::Leaf(second)),
            split: Some(
                (
                    PromotedView { pivot: es[ij.0].vector, radius: leaf_reach(first), node: id },
                    PromotedView { pivot: es[ij.1].vector, radius: leaf_reach(second), node: next as NodeId },
                ),
            ),
            next: next + 1,
        }
    }
}

/// What becomes of the routing node `id` with the entries `es`, as
/// [`leaf_outcome`] says of a leaf.
pub open spec fn routing_outcome(
    m: Nodes,
    kind: Distance,
    cap: nat,
    id: NodeId,
    es: Seq<RoutingEntryView>,
    next: nat,
) -> Outcome {
    if es.len() <= cap {
        Outcome { nodes: m.insert(id, NodeView::Routing(es)), split: None, next }
    } else {
        let ij = farthest(kind, pivots(es));
        let first = routing_half(kind, es, ij.0, ij.1, es.len(), true);
        let second = routing_half(kind, es, ij.0, ij.1, es.len(), false);
        Outcome {
            nodes: m.insert(id, NodeView::Routing(first)).insert(next as NodeId, NodeView::Routing(second)),
            split: Some(
                (
                    PromotedView { pivot: es[ij.0].pivot, radius: routing_reach(first), node: id },
                    PromotedView { pivot: es[ij.1].pivot, radius: routing_reach(second), node: next as NodeId },
                ),
            ),
            next: next + 1,
        }
    }
}

/// What an insertion of the pair `p` below the node `id` leaves. In a
/// leaf, the entries take the pair. In a routing node, the child of
/// [`choice`] takes it; then the radius of its entry is raised to hold the
/// point, or, if the child was split, its halves stand in its place and
/// at the end. A node with more entries than the capacity is split.
pub open spec fn insert_spec(
    m: Nodes,
    kind: Distance,
    cap: nat,
    id: NodeId,
    h: nat,
    parent: Option<Seq<int>>,
    p: Pair,
    next: nat,
) -> Outcome
    decreases h,
{
    let unchanged = Outcome { nodes: m, split: None, next };
    if !m.contains_key(id) {
        unchanged
    } else {
        match m[id] {
            NodeView::Leaf(es) => leaf_outcome(m, kind, cap, id, leaf_after(kind, es, parent, p), next),
            NodeView::Routing(es) => {
                let i = choice(kind, es, p.0);
                if h == 0 || !(0 <= i < es.len()) {
                    unchanged
                } else {
                    let below = insert_spec(m, kind, cap, es[i].child, (h - 1) as nat, Some(es[i].pivot), p, next);
                    match below.split {
                        None => Outcome {
                            nodes: below.nodes.insert(
                                id,
                                NodeView::Routing(es.update(i, raised(kind, es[i], p.0))),
                            ),
                            split: None,
                            next: below.next,
                        },
                        Some(halves) => routing_outcome(
                            below.nodes,
                            kind,
                            cap,
                            id,
                            es.update(i, entry_of(kind, halves.0, parent)).push(entry_of(kind, halves.1, parent)),
                            below.next,
                        ),
                    }
                }
            },
        }
    }
}

/// The store and the result of an insertion are as the outcome says.
pub open spec fn is_outcome(o: Outcome, nodes: Nodes, next: nat, r: Result<Growth, IndexError>) -> bool {
    &&& nodes == o.nodes
    &&& next == o.next
    &&& match r {
        Ok(Growth::Same) => o.split is None,
        Ok(Growth::Split(a, b)) => o.split == Some((a@, b@)),
        Err(_) => false,
    }
}

/// The pair `p` is where the descent ends, the descent ends where it did
/// before, and every record that the leaf had for the point is still there.
pub open spec fn placed(m0: Nodes, m1: Nodes, kind: Distance, id: NodeId, h: nat, p: Pair) -> bool {
    let leaf = target_leaf(m0, kind, id, h, p.0);
    &&& target_leaf(m1, kind, id, h, p.0) == leaf
    &&& in_subtree(m1, id, h, leaf)
    &&& leaf_has_pair(m1, leaf, p)
    &&& forall|d: DocId| leaf_has_pair(m0, leaf, (p.0, d)) ==> #[trigger] leaf_has_pair(m1, leaf, (p.0, d))
}

/// What an insertion below the node `id` does, case by case. If the leaf
/// at the end of the descent has the pair, nothing changes. If it has the
/// point, its entry takes the record and no node is split. If no node is
/// split, the pair is at that leaf afterwards. A split takes a new
/// identifier.
pub open spec fn exact(
    m0: Nodes,
    m1: Nodes,
    kind: Distance,
    id: NodeId,
    h: nat,
    p: Pair,
    same: bool,
    next0: nat,
    next1: nat,
) -> bool {
    let leaf = target_leaf(m0, kind, id, h, p.0);
    &&& in_subtree(m0, id, h, leaf)
    &&& leaf_has_pair(m0, leaf, p) ==> same && m1 == m0 && next1 == next0 && subtree_pairs(m0, id, h).count(p)
        > 0
    &&& !leaf_has_pair(m0, leaf, p) && same ==> subtree_pairs(m1, id, h) == subtree_pairs(m0, id, h).insert(p)
    &&& leaf_has_point(m0, leaf, p.0) ==> same && next1 == next0
    &&& same && next1 == next0 ==> placed(m0, m1, kind, id, h, p)
    &&& !same ==> next1 > next0
}

} // verus!
