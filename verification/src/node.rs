//! The nodes of the tree as they are persisted: leaves hold the indexed
//! vectors, routing nodes hold pivots with the radius that covers a subtree.

use vstd::prelude::*;
use crate::vector::Vector;

verus! {

/// The caller's handle for an indexed record.
pub type DocId = u64;

/// The address of a node in the store.
pub type NodeId = u64;

/// One indexed vector with the records that hold it.
#[derive(Debug)]
pub struct LeafEntry {
    pub vector: Vector,
    /// The records of this vector, each once, in the order they were added.
    pub docs: Vec<DocId>,
    /// The distance to the pivot of the routing entry above this leaf, or
    /// `None` in a leaf that is the root.
    pub parent_dist: Option<u128>,
}

/// One child of a routing node.
#[derive(Debug)]
pub struct RoutingEntry {
    pub pivot: Vector,
    /// No vector below `child` is farther from `pivot` than this.
    pub radius: u128,
    pub child: NodeId,
    /// The distance to the pivot of the routing entry above this node, or
    /// `None` in the root.
    pub parent_dist: Option<u128>,
}

/// A persisted node.
#[derive(Debug)]
pub enum Node {
    Leaf(Vec<LeafEntry>),
    Routing(Vec<RoutingEntry>),
}

/// What a [`LeafEntry`] holds.
pub struct LeafEntryView {
    pub vector: Seq<int>,
    pub docs: Seq<DocId>,
    pub parent_dist: Option<u128>,
}

/// What a [`RoutingEntry`] holds.
pub struct RoutingEntryView {
    pub pivot: Seq<int>,
    pub radius: u128,
    pub child: NodeId,
    pub parent_dist: Option<u128>,
}

/// What a [`Node`] holds.
pub enum NodeView {
    Leaf(Seq<LeafEntryView>),
    Routing(Seq<RoutingEntryView>),
}

impl View for LeafEntry {
    type V = LeafEntryView;

    open spec fn view(&self) -> LeafEntryView {
        LeafEntryView { vector: self.vector@, docs: self.docs@, parent_dist: self.parent_dist }
    }
}

impl View for RoutingEntry {
    type V = RoutingEntryView;

    open spec fn view(&self) -> RoutingEntryView {
        RoutingEntryView {
            pivot: self.pivot@,
            radius: self.radius,
            child: self.child,
            parent_dist: self.parent_dist,
        }
    }
}

/// Which of the vectors of a sequence of leaf entries are stored at the
/// wider of the two widths.
pub open spec fn leaf_widths(entries: Seq<LeafEntry>) -> Seq<bool> {
    Seq::new(entries.len(), |i: int| entries[i].vector is I32)
}

/// Which of the pivots of a sequence of routing entries are stored at the
/// wider of the two widths.
pub open spec fn routing_widths(entries: Seq<RoutingEntry>) -> Seq<bool> {
    Seq::new(entries.len(), |i: int| entries[i].pivot is I32)
}

/// Which of the vectors of a node are stored at the wider of the two widths.
pub open spec fn node_widths(node: Node) -> Seq<bool> {
    match node {
        Node::Leaf(entries) => leaf_widths(entries@),
        Node::Routing(entries) => routing_widths(entries@),
    }
}

/// The views of a sequence of leaf entries.
pub open spec fn leaf_views(entries: Seq<LeafEntry>) -> Seq<LeafEntryView> {
    Seq::new(entries.len(), |i: int| entries[i]@)
}

/// The views of a sequence of routing entries.
pub open spec fn routing_views(entries: Seq<RoutingEntry>) -> Seq<RoutingEntryView> {
    Seq::new(entries.len(), |i: int| entries[i]@)
}

impl View for Node {
    type V = NodeView;

    open spec fn view(&self) -> NodeView {
        match self {
            Node::Leaf(entries) => NodeView::Leaf(leaf_views(entries@)),
            Node::Routing(entries) => NodeView::Routing(routing_views(entries@)),
        }
    }
}

/// A copy of a list of record handles.
pub fn copy_docs(docs: &Vec<DocId>) -> (copy: Vec<DocId>)
    ensures
        copy@ == docs@,
{
    let mut out: Vec<DocId> = Vec::new();
    let mut i: usize = 0;
    while i < docs.len()
        invariant
            i <= docs.len(),
            out@ == docs@.take(i as int),
        decreases docs.len() - i,
    {
        out.push(docs[i]);
        assert(docs@.take(i + 1) =~= docs@.take(i as int).push(docs@[i as int]));
        i = i + 1;
    }
    assert(docs@.take(docs.len() as int) =~= docs@);
    out
}

impl Clone for LeafEntry {
    /// A copy that holds the same, with the vector at the same width.
    fn clone(&self) -> (copy: Self)
        ensures
            copy@ == self@,
            copy.vector is I32 <==> self.vector is I32,
    {
        LeafEntry {
            vector: self.vector.clone(),
            docs: copy_docs(&self.docs),
            parent_dist: self.parent_dist,
        }
    }
}

impl Clone for RoutingEntry {
    /// A copy that holds the same, with the pivot at the same width.
    fn clone(&self) -> (copy: Self)
        ensures
            copy@ == self@,
            copy.pivot is I32 <==> self.pivot is I32,
    {
        RoutingEntry {
            pivot: self.pivot.clone(),
            radius: self.radius,
            child: self.child,
            parent_dist: self.parent_dist,
        }
    }
}

impl Clone for Node {
    /// A copy that holds the same, with every vector at the same width.
    fn clone(&self) -> (copy: Self)
        ensures
            copy@ == self@,
            node_widths(copy) == node_widths(*self),
    {
        match self {
            Node::Leaf(entries) => {
                let mut out: Vec<LeafEntry> = Vec::new();
                let mut i: usize = 0;
                while i < entries.len()
                    invariant
                        i <= entries.len(),
                        out@.len() == i,
                        leaf_views(out@) == leaf_views(entries@).take(i as int),
                        leaf_widths(out@) == leaf_widths(entries@).take(i as int),
                    decreases entries.len() - i,
                {
                    let ghost before = out@;
                    out.push(entries[i].clone());
                    assert forall|j: int| 0 <= j < i + 1 implies leaf_views(out@)[j] == leaf_views(
                        entries@,
                    ).take(i + 1)[j] by {
                        if j < i {
                            assert(leaf_views(before)[j] == leaf_views(entries@).take(i as int)[j]);
                        }
                    }
                    assert(leaf_views(out@) =~= leaf_views(entries@).take(i + 1));
                    assert forall|j: int| 0 <= j < i + 1 implies leaf_widths(out@)[j] == leaf_widths(
                        entries@,
                    ).take(i + 1)[j] by {
                        if j < i {
                            assert(leaf_widths(before)[j] == leaf_widths(entries@).take(i as int)[j]);
                        }
                    }
                    assert(leaf_widths(out@) =~= leaf_widths(entries@).take(i + 1));
                    i = i + 1;
                }
                assert(leaf_views(entries@).take(entries.len() as int) =~= leaf_views(entries@));
                assert(leaf_widths(entries@).take(entries.len() as int) =~= leaf_widths(entries@));
                Node::Leaf(out)
            },
            Node::Routing(entries) => {
                let mut out: Vec<RoutingEntry> = Vec::new();
                let mut i: usize = 0;
                while i < entries.len()
                    invariant
                        i <= entries.len(),
                        out@.len() == i,
                        routing_views(out@) == routing_views(entries@).take(i as int),
                        routing_widths(out@) == routing_widths(entries@).take(i as int),
                    decreases entries.len() - i,
                {
                    let ghost before = out@;
                    out.push(entries[i].clone());
                    assert forall|j: int| 0 <= j < i + 1 implies routing_views(out@)[j]
                        == routing_views(entries@).take(i + 1)[j] by {
                        if j < i {
                            assert(routing_views(before)[j] == routing_views(entries@).take(
                                i as int,
                            )[j]);
                        }
                    }
                    assert(routing_views(out@) =~= routing_views(entries@).take(i + 1));
                    assert forall|j: int| 0 <= j < i + 1 implies routing_widths(out@)[j]
                        == routing_widths(entries@).take(i + 1)[j] by {
                        if j < i {
                            assert(routing_widths(before)[j] == routing_widths(entries@).take(i as int)[j]);
                        }
                    }
                    assert(routing_widths(out@) =~= routing_widths(entries@).take(i + 1));
                    i = i + 1;
                }
                assert(routing_views(entries@).take(entries.len() as int) =~= routing_views(
                    entries@,
                ));
                assert(routing_widths(entries@).take(entries.len() as int) =~= routing_widths(entries@));
                Node::Routing(out)
            },
        }
    }
}

} // verus!
