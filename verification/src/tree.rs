//! What a stored tree is: the pairs of vector and record that it holds, the
//! nodes that belong to a subtree, and the conditions that make it a
//! well-formed metric tree.

use vstd::prelude::*;
use vstd::multiset::Multiset;
use crate::node::{DocId, LeafEntryView, NodeId, NodeView, RoutingEntryView};
use crate::vector::{dist, is_point, Distance};

verus! {

/// An indexed vector with one of its records.
pub type Pair = (Seq<int>, DocId);

/// The nodes of a store, by their identifiers.
pub type Nodes = Map<NodeId, NodeView>;

/// What is fixed for one tree: the metric, the largest number of entries
/// in a node, and the dimension of the vectors.
pub struct Config {
    pub kind: Distance,
    pub cap: nat,
    pub dim: nat,
}

/// The pairs of one vector with each of the given records.
pub open spec fn doc_pairs(v: Seq<int>, docs: Seq<DocId>) -> Multiset<Pair>
    decreases docs.len(),
{
    if docs.len() == 0 {
        Multiset::empty()
    } else {
        doc_pairs(v, docs.drop_last()).insert((v, docs.last()))
    }
}

/// The pairs that the entries of a leaf hold.
pub open spec fn leaf_pairs(es: Seq<LeafEntryView>) -> Multiset<Pair>
    decreases es.len(),
{
    if es.len() == 0 {
        Multiset::empty()
    } else {
        leaf_pairs(es.drop_last()).add(doc_pairs(es.last().vector, es.last().docs))
    }
}

/// The pairs held below the node `id`, which stands `h` levels above the leaves.
pub open spec fn subtree_pairs(m: Nodes, id: NodeId, h: nat) -> Multiset<Pair>
    decreases h, 0nat,
{
    if !m.contains_key(id) {
        Multiset::empty()
    } else {
        match m[id] {
            NodeView::Leaf(es) => leaf_pairs(es),
            NodeView::Routing(es) => if h == 0 {
                Multiset::empty()
            } else {
                children_pairs(m, es, (h - 1) as nat)
            },
        }
    }
}

/// The pairs held below the children of the given routing entries, which
/// stand `h` levels above the leaves.
pub open spec fn children_pairs(m: Nodes, es: Seq<RoutingEntryView>, h: nat) -> Multiset<Pair>
    decreases h, 1 + es.len(),
{
    if es.len() == 0 {
        Multiset::empty()
    } else {
        children_pairs(m, es.drop_last(), h).add(subtree_pairs(m, es.last().child, h))
    }
}

/// Whether the node `x` is the node `id` or lies below it.
pub open spec fn in_subtree(m: Nodes, id: NodeId, h: nat, x: NodeId) -> bool
    decreases h, 0nat,
{
    x == id || (h > 0 && m.contains_key(id) && match m[id] {
        NodeView::Routing(es) => below_any(m, es, (h - 1) as nat, x),
        NodeView::Leaf(_) => false,
    })
}

/// Whether the node `x` is a child of one of the entries or lies below one.
pub open spec fn below_any(m: Nodes, es: Seq<RoutingEntryView>, h: nat, x: NodeId) -> bool
    decreases h, 1nat,
{
    exists|i: int| 0 <= i < es.len() && in_subtree(m, (#[trigger] es[i]).child, h, x)
}

/// No vector below the node `id` is farther than `radius` from `pivot`.
pub open spec fn covers(m: Nodes, kind: Distance, id: NodeId, h: nat, pivot: Seq<int>, radius: int) -> bool {
    forall|p: Pair| #[trigger] subtree_pairs(m, id, h).count(p) > 0 ==> dist(kind, pivot, p.0) <= radius
}

/// The recorded distance to the parent is the distance to the parent's
/// pivot, and a node without parent records none.
pub open spec fn parent_dist_ok(kind: Distance, v: Seq<int>, parent: Option<Seq<int>>, recorded: Option<u128>) -> bool {
    match parent {
        Some(p) => recorded is Some && recorded->Some_0 == dist(kind, v, p),
        None => recorded is None,
    }
}

/// The entries of a leaf are as they should be: at least one and no more
/// than the capacity, each a point of the tree's dimension with at least one
/// record and no record twice, and no two of them the same point.
pub open spec fn leaf_ok(cfg: Config, es: Seq<LeafEntryView>, parent: Option<Seq<int>>) -> bool {
    &&& 1 <= es.len() <= cfg.cap
    &&& forall|i: int|
        0 <= i < es.len() ==> {
            let e = #[trigger] es[i];
            &&& e.vector.len() == cfg.dim
            &&& is_point(e.vector)
            &&& e.docs.len() >= 1
            &&& e.docs.no_duplicates()
            &&& parent_dist_ok(cfg.kind, e.vector, parent, e.parent_dist)
        }
    &&& forall|i: int, j: int|
        0 <= i < j < es.len() ==> (#[trigger] es[i]).vector != (#[trigger] es[j]).vector
}

/// The entries of a routing node are as they should be, their children apart.
pub open spec fn routing_ok(cfg: Config, es: Seq<RoutingEntryView>, parent: Option<Seq<int>>) -> bool {
    &&& 1 <= es.len() <= cfg.cap
    &&& forall|i: int|
        0 <= i < es.len() ==> {
            let e = #[trigger] es[i];
            &&& e.pivot.len() == cfg.dim
            &&& is_point(e.pivot)
            &&& parent_dist_ok(cfg.kind, e.pivot, parent, e.parent_dist)
        }
}

/// No node lies below two of the given entries.
pub open spec fn disjoint_children(m: Nodes, es: Seq<RoutingEntryView>, h: nat) -> bool {
    forall|i: int, j: int, x: NodeId|
        0 <= i < es.len() && 0 <= j < es.len() && i != j ==> !(#[trigger] in_subtree(
            m,
            es[i].child,
            h,
            x,
        ) && #[trigger] in_subtree(m, es[j].child, h, x))
}

/// The node `id`, `h` levels above the leaves, is the root of a well-formed
/// subtree: all leaves are at the same depth, no node holds more entries
/// than the capacity, every radius covers its subtree, every recorded
/// distance is right, and no node is reached twice.
pub open spec fn wf_subtree(m: Nodes, cfg: Config, id: NodeId, h: nat, parent: Option<Seq<int>>) -> bool
    decreases h,
{
    m.contains_key(id) && match m[id] {
        NodeView::Leaf(es) => h == 0 && leaf_ok(cfg, es, parent),
        NodeView::Routing(es) => {
            &&& h > 0
            &&& routing_ok(cfg, es, parent)
            &&& forall|i: int|
                0 <= i < es.len() ==> wf_subtree(
                    m,
                    cfg,
                    (#[trigger] es[i]).child,
                    (h - 1) as nat,
                    Some(es[i].pivot),
                )
            &&& children_ok(m, cfg.kind, es, (h - 1) as nat, id)
        },
    }
}

/// Every radius covers its subtree, the node `owner` lies below none of
/// the children, and no node lies below two of them.
pub open spec fn children_ok(m: Nodes, kind: Distance, es: Seq<RoutingEntryView>, h: nat, owner: NodeId) -> bool {
    &&& forall|i: int|
        0 <= i < es.len() ==> covers(m, kind, (#[trigger] es[i]).child, h, es[i].pivot, es[i].radius as int)
    &&& forall|i: int| 0 <= i < es.len() ==> !in_subtree(m, (#[trigger] es[i]).child, h, owner)
    &&& disjoint_children(m, es, h)
}

/// The map `m2` holds every node of the subtree of `id` as `m` does.
pub open spec fn agree_on(m: Nodes, m2: Nodes, id: NodeId, h: nat) -> bool {
    forall|x: NodeId|
        #[trigger] in_subtree(m, id, h, x) && m.contains_key(x) ==> m2.contains_key(x) && m2[x] == m[x]
}

/// Every node that `m` holds outside the subtree of `id` is in `m2` as it was.
pub open spec fn same_outside(m: Nodes, m2: Nodes, id: NodeId, h: nat) -> bool {
    forall|x: NodeId|
        #![trigger m2.contains_key(x)]
        #![trigger m2[x]]
        m.contains_key(x) && !in_subtree(m, id, h, x) ==> m2.contains_key(x) && m2[x] == m[x]
}

/// Every node of the subtree of `id2` in `m2` was in the subtree of `id` in
/// `m`, or has an identifier of at least `fresh`.
pub open spec fn ids_from(m: Nodes, id: NodeId, m2: Nodes, id2: NodeId, h: nat, fresh: nat) -> bool {
    forall|x: NodeId| #[trigger] in_subtree(m2, id2, h, x) ==> in_subtree(m, id, h, x) || x >= fresh
}

/// Every identifier in use lies below `bound`.
pub open spec fn keys_below(m: Nodes, bound: nat) -> bool {
    forall|x: NodeId| #[trigger] m.contains_key(x) ==> x < bound
}

/// One more record gives one more pair.
pub proof fn lemma_doc_pairs_push(v: Seq<int>, docs: Seq<DocId>, d: DocId)
    ensures
        doc_pairs(v, docs.push(d)) == doc_pairs(v, docs).insert((v, d)),
{
    assert(docs.push(d).drop_last() =~= docs);
}

/// A pair of `doc_pairs` is the vector with one of the records, and each
/// such pair occurs as often as the record does.
pub proof fn lemma_doc_pairs_member(v: Seq<int>, docs: Seq<DocId>, p: Pair)
    ensures
        doc_pairs(v, docs).count(p) > 0 <==> p.0 == v && docs.contains(p.1),
        doc_pairs(v, docs).len() == docs.len(),
    decreases docs.len(),
{
    if docs.len() > 0 {
        lemma_doc_pairs_member(v, docs.drop_last(), p);
        if p.0 == v && docs.contains(p.1) {
            let i = choose|i: int| 0 <= i < docs.len() && docs[i] == p.1;
            if i < docs.len() - 1 {
                assert(docs.drop_last()[i] == p.1);
            }
        }
        if doc_pairs(v, docs).count(p) > 0 && p != (v, docs.last()) {
            let i = choose|i: int| 0 <= i < docs.drop_last().len() && docs.drop_last()[i] == p.1;
            assert(docs[i] == p.1);
        }
    }
}

/// One more entry adds its pairs.
pub proof fn lemma_leaf_pairs_push(es: Seq<LeafEntryView>, e: LeafEntryView)
    ensures
        leaf_pairs(es.push(e)) == leaf_pairs(es).add(doc_pairs(e.vector, e.docs)),
{
    assert(es.push(e).drop_last() =~= es);
}

/// Exchanging one entry of a leaf exchanges its pairs.
pub proof fn lemma_leaf_pairs_update(es: Seq<LeafEntryView>, i: int, e: LeafEntryView)
    requires
        0 <= i < es.len(),
    ensures
        leaf_pairs(es.update(i, e)).add(doc_pairs(es[i].vector, es[i].docs)) == leaf_pairs(es).add(
            doc_pairs(e.vector, e.docs),
        ),
    decreases es.len(),
{
    let es2 = es.update(i, e);
    let old_i = doc_pairs(es[i].vector, es[i].docs);
    let new_i = doc_pairs(e.vector, e.docs);
    assert(leaf_pairs(es) == leaf_pairs(es.drop_last()).add(doc_pairs(es.last().vector, es.last().docs)));
    assert(leaf_pairs(es2) == leaf_pairs(es2.drop_last()).add(
        doc_pairs(es2.last().vector, es2.last().docs),
    ));
    if i == es.len() - 1 {
        assert(es2.drop_last() =~= es.drop_last());
        assert(es2.last() == e);
        assert(es.last() == es[i]);
        assert(leaf_pairs(es2).add(old_i) =~= leaf_pairs(es).add(new_i));
    } else {
        assert(es2.drop_last() =~= es.drop_last().update(i, e));
        assert(es2.last() == es.last());
        assert(es.drop_last()[i] == es[i]);
        lemma_leaf_pairs_update(es.drop_last(), i, e);
        let rest = leaf_pairs(es.drop_last());
        let rest2 = leaf_pairs(es.drop_last().update(i, e));
        let tail = doc_pairs(es.last().vector, es.last().docs);
        assert(rest2.add(old_i) == rest.add(new_i));
        assert forall|p: Pair| #[trigger] leaf_pairs(es2).add(old_i).count(p) == leaf_pairs(es).add(new_i).count(p) by {
            assert(rest2.add(old_i).count(p) == rest.add(new_i).count(p));
        }
        assert(leaf_pairs(es2).add(old_i) =~= leaf_pairs(es).add(new_i));
    }
}

/// A pair of a leaf is a pair of one of its entries.
pub proof fn lemma_leaf_pairs_member(es: Seq<LeafEntryView>, p: Pair)
    requires
        leaf_pairs(es).count(p) > 0,
    ensures
        exists|i: int| 0 <= i < es.len() && (#[trigger] es[i]).vector == p.0 && es[i].docs.contains(p.1),
    decreases es.len(),
{
    if es.len() > 0 {
        if doc_pairs(es.last().vector, es.last().docs).count(p) > 0 {
            lemma_doc_pairs_member(es.last().vector, es.last().docs, p);
            assert(es[es.len() - 1].vector == p.0);
        } else {
            lemma_leaf_pairs_member(es.drop_last(), p);
            let i = choose|i: int|
                0 <= i < es.drop_last().len() && (#[trigger] es.drop_last()[i]).vector == p.0
                    && es.drop_last()[i].docs.contains(p.1);
            assert(es[i].vector == p.0);
        }
    }
}

/// The pairs of an entry are pairs of its leaf.
pub proof fn lemma_leaf_pairs_has(es: Seq<LeafEntryView>, i: int, p: Pair)
    requires
        0 <= i < es.len(),
    ensures
        doc_pairs(es[i].vector, es[i].docs).count(p) <= leaf_pairs(es).count(p),
    decreases es.len(),
{
    if i < es.len() - 1 {
        lemma_leaf_pairs_has(es.drop_last(), i, p);
    }
}

/// One more child adds the pairs below it.
pub proof fn lemma_children_pairs_push(m: Nodes, es: Seq<RoutingEntryView>, e: RoutingEntryView, h: nat)
    ensures
        children_pairs(m, es.push(e), h) == children_pairs(m, es, h).add(subtree_pairs(m, e.child, h)),
{
    assert(es.push(e).drop_last() =~= es);
}

/// Entries whose children hold the same pairs hold the same pairs together.
pub proof fn lemma_children_pairs_eq(
    m: Nodes,
    es: Seq<RoutingEntryView>,
    m2: Nodes,
    es2: Seq<RoutingEntryView>,
    h: nat,
)
    requires
        es.len() == es2.len(),
        forall|j: int|
            0 <= j < es.len() ==> subtree_pairs(m2, (#[trigger] es2[j]).child, h) == subtree_pairs(
                m,
                es[j].child,
                h,
            ),
    ensures
        children_pairs(m2, es2, h) == children_pairs(m, es, h),
    decreases es.len(),
{
    if es.len() > 0 {
        assert forall|j: int| 0 <= j < es.drop_last().len() implies subtree_pairs(
            m2,
            (#[trigger] es2.drop_last()[j]).child,
            h,
        ) == subtree_pairs(m, es.drop_last()[j].child, h) by {
            assert(es2.drop_last()[j] == es2[j]);
        }
        lemma_children_pairs_eq(m, es.drop_last(), m2, es2.drop_last(), h);
        assert(es2[es2.len() - 1] == es2.last());
    }
}

/// When the pairs below one child change and the others stay, the pairs
/// below all of them change by the same.
pub proof fn lemma_children_pairs_replace(
    m: Nodes,
    es: Seq<RoutingEntryView>,
    m2: Nodes,
    es2: Seq<RoutingEntryView>,
    h: nat,
    i: int,
)
    requires
        es.len() == es2.len(),
        0 <= i < es.len(),
        forall|j: int|
            0 <= j < es.len() && j != i ==> subtree_pairs(m2, (#[trigger] es2[j]).child, h)
                == subtree_pairs(m, es[j].child, h),
    ensures
        children_pairs(m2, es2, h).add(subtree_pairs(m, es[i].child, h)) == children_pairs(m, es, h).add(
            subtree_pairs(m2, es2[i].child, h),
        ),
    decreases es.len(),
{
    let old_i = subtree_pairs(m, es[i].child, h);
    let new_i = subtree_pairs(m2, es2[i].child, h);
    assert(children_pairs(m, es, h) == children_pairs(m, es.drop_last(), h).add(
        subtree_pairs(m, es.last().child, h),
    ));
    assert(children_pairs(m2, es2, h) == children_pairs(m2, es2.drop_last(), h).add(
        subtree_pairs(m2, es2.last().child, h),
    ));
    if i == es.len() - 1 {
        assert forall|j: int| 0 <= j < es.drop_last().len() implies subtree_pairs(
            m2,
            (#[trigger] es2.drop_last()[j]).child,
            h,
        ) == subtree_pairs(m, es.drop_last()[j].child, h) by {
            assert(es2.drop_last()[j] == es2[j]);
        }
        lemma_children_pairs_eq(m, es.drop_last(), m2, es2.drop_last(), h);
        assert(es2.last() == es2[i]);
        assert(es.last() == es[i]);
        assert(children_pairs(m2, es2, h).add(old_i) =~= children_pairs(m, es, h).add(new_i));
    } else {
        assert forall|j: int| 0 <= j < es.drop_last().len() && j != i implies subtree_pairs(
            m2,
            (#[trigger] es2.drop_last()[j]).child,
            h,
        ) == subtree_pairs(m, es.drop_last()[j].child, h) by {
            assert(es2.drop_last()[j] == es2[j]);
        }
        lemma_children_pairs_replace(m, es.drop_last(), m2, es2.drop_last(), h, i);
        assert(es2[es2.len() - 1] == es2.last());
        assert(es.drop_last()[i] == es[i]);
        assert(es2.drop_last()[i] == es2[i]);
        let rest = children_pairs(m, es.drop_last(), h);
        let rest2 = children_pairs(m2, es2.drop_last(), h);
        assert(subtree_pairs(m2, es2.last().child, h) == subtree_pairs(m, es.last().child, h));
        assert(rest2.add(old_i) == rest.add(new_i));
        assert forall|p: Pair| #[trigger] children_pairs(m2, es2, h).add(old_i).count(p) == children_pairs(m, es, h).add(new_i).count(p) by {
            assert(rest2.add(old_i).count(p) == rest.add(new_i).count(p));
        }
        assert(children_pairs(m2, es2, h).add(old_i) =~= children_pairs(m, es, h).add(new_i));
    }
}

/// A pair below the children is below one of them.
pub proof fn lemma_children_pairs_member(m: Nodes, es: Seq<RoutingEntryView>, h: nat, p: Pair)
    requires
        children_pairs(m, es, h).count(p) > 0,
    ensures
        exists|i: int| 0 <= i < es.len() && subtree_pairs(m, (#[trigger] es[i]).child, h).count(p) > 0,
    decreases es.len(),
{
    if es.len() > 0 {
        if subtree_pairs(m, es.last().child, h).count(p) > 0 {
            assert(subtree_pairs(m, es[es.len() - 1].child, h).count(p) > 0);
        } else {
            lemma_children_pairs_member(m, es.drop_last(), h, p);
            let i = choose|i: int|
                0 <= i < es.drop_last().len() && subtree_pairs(
                    m,
                    (#[trigger] es.drop_last()[i]).child,
                    h,
                ).count(p) > 0;
            assert(es.drop_last()[i] == es[i]);
        }
    }
}

/// The pairs below a child are below the children.
pub proof fn lemma_children_pairs_has(m: Nodes, es: Seq<RoutingEntryView>, h: nat, i: int, p: Pair)
    requires
        0 <= i < es.len(),
    ensures
        subtree_pairs(m, es[i].child, h).count(p) <= children_pairs(m, es, h).count(p),
    decreases es.len(),
{
    if i < es.len() - 1 {
        lemma_children_pairs_has(m, es.drop_last(), h, i, p);
    }
}

/// Every node of a well-formed subtree is in the map.
pub proof fn lemma_subtree_keys(m: Nodes, cfg: Config, id: NodeId, h: nat, parent: Option<Seq<int>>, x: NodeId)
    requires
        wf_subtree(m, cfg, id, h, parent),
        in_subtree(m, id, h, x),
    ensures
        m.contains_key(x),
    decreases h,
{
    if x != id {
        match m[id] {
            NodeView::Routing(es) => {
                let i = choose|i: int|
                    0 <= i < es.len() && in_subtree(m, (#[trigger] es[i]).child, (h - 1) as nat, x);
                lemma_subtree_keys(m, cfg, es[i].child, (h - 1) as nat, Some(es[i].pivot), x);
            },
            NodeView::Leaf(_) => {},
        }
    }
}

/// A subtree that two maps hold alike is well-formed in both or in
/// neither, with the same pairs and the same nodes.
pub proof fn lemma_frame(m: Nodes, m2: Nodes, cfg: Config, id: NodeId, h: nat, parent: Option<Seq<int>>)
    requires
        wf_subtree(m, cfg, id, h, parent),
        agree_on(m, m2, id, h),
    ensures
        wf_subtree(m2, cfg, id, h, parent),
        subtree_pairs(m2, id, h) == subtree_pairs(m, id, h),
        forall|x: NodeId| in_subtree(m2, id, h, x) == in_subtree(m, id, h, x),
    decreases h,
{
    assert(in_subtree(m, id, h, id));
    assert(m2[id] == m[id]);
    match m[id] {
        NodeView::Leaf(es) => {},
        NodeView::Routing(es) => {
            let hc = (h - 1) as nat;
            assert forall|i: int| 0 <= i < es.len() implies wf_subtree(
                m2,
                cfg,
                (#[trigger] es[i]).child,
                hc,
                Some(es[i].pivot),
            ) && subtree_pairs(m2, es[i].child, hc) == subtree_pairs(m, es[i].child, hc) && (forall|
                x: NodeId,
            | in_subtree(m2, es[i].child, hc, x) == in_subtree(m, es[i].child, hc, x)) by {
                assert forall|x: NodeId|
                    #[trigger] in_subtree(m, es[i].child, hc, x) && m.contains_key(
                        x,
                    ) implies m2.contains_key(x) && m2[x] == m[x] by {
                    assert(in_subtree(m, id, h, x));
                }
                lemma_frame(m, m2, cfg, es[i].child, hc, Some(es[i].pivot));
            }
            lemma_children_pairs_eq(m, es, m2, es, hc);
            assert forall|x: NodeId| in_subtree(m2, id, h, x) == in_subtree(m, id, h, x) by {
                if in_subtree(m, id, h, x) && x != id {
                    let i = choose|i: int|
                        0 <= i < es.len() && in_subtree(m, (#[trigger] es[i]).child, hc, x);
                    assert(in_subtree(m2, es[i].child, hc, x));
                }
                if in_subtree(m2, id, h, x) && x != id {
                    let i = choose|i: int|
                        0 <= i < es.len() && in_subtree(m2, (#[trigger] es[i]).child, hc, x);
                    assert(in_subtree(m, es[i].child, hc, x));
                }
            }
            assert(children_ok(m2, cfg.kind, es, hc, id));
        },
    }
}

/// Every pair of a well-formed subtree is a point of the tree's dimension.
pub proof fn lemma_pairs_are_points(m: Nodes, cfg: Config, id: NodeId, h: nat, parent: Option<Seq<int>>, p: Pair)
    requires
        wf_subtree(m, cfg, id, h, parent),
        subtree_pairs(m, id, h).count(p) > 0,
    ensures
        p.0.len() == cfg.dim,
        is_point(p.0),
    decreases h,
{
    match m[id] {
        NodeView::Leaf(es) => {
            lemma_leaf_pairs_member(es, p);
        },
        NodeView::Routing(es) => {
            let hc = (h - 1) as nat;
            lemma_children_pairs_member(m, es, hc, p);
            let i = choose|i: int|
                0 <= i < es.len() && subtree_pairs(m, (#[trigger] es[i]).child, hc).count(p) > 0;
            lemma_pairs_are_points(m, cfg, es[i].child, hc, Some(es[i].pivot), p);
        },
    }
}

} // verus!
