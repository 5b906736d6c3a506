//! How the conditions of a well-formed tree carry over when a node is
//! written, when one child of a node has grown, and when one child of a
//! node was split in two.

use vstd::prelude::*;
use vstd::multiset::Multiset;
use crate::node::{LeafEntryView, NodeId, NodeView, RoutingEntryView};
use crate::split::Promoted;
use crate::tree::{
    agree_on,
    below_any,
    children_ok,
    children_pairs,
    covers,
    disjoint_children,
    ids_from,
    in_subtree,
    keys_below,
    leaf_ok,
    leaf_pairs,
    lemma_children_pairs_eq,
    lemma_children_pairs_has,
    lemma_children_pairs_push,
    lemma_children_pairs_replace,
    lemma_frame,
    lemma_subtree_keys,
    routing_ok,
    same_outside,
    subtree_pairs,
    wf_subtree,
    Config,
    Nodes,
    Pair,
};
use crate::vector::{dist, is_point};

verus! {

/// What a [`Promoted`] holds.
pub struct PromotedView {
    pub pivot: Seq<int>,
    pub radius: u128,
    pub node: NodeId,
}

impl View for Promoted {
    type V = PromotedView;

    open spec fn view(&self) -> PromotedView {
        PromotedView { pivot: self.pivot@, radius: self.radius, node: self.node }
    }
}

/// The pair `p` has been added, unless it was there and nothing changed.
pub open spec fn pairs_grown(before: Multiset<Pair>, after: Multiset<Pair>, p: Pair) -> bool {
    after == before.insert(p) || (after == before && before.count(p) > 0)
}

/// The children of the entries are well-formed subtrees, each within the
/// radius of its entry, and no node lies below two of them.
pub open spec fn kids(m: Nodes, cfg: Config, es: Seq<RoutingEntryView>, h: nat) -> bool {
    &&& forall|i: int|
        0 <= i < es.len() ==> {
            let e = #[trigger] es[i];
            &&& e.pivot.len() == cfg.dim
            &&& is_point(e.pivot)
            &&& wf_subtree(m, cfg, e.child, h, Some(e.pivot))
            &&& covers(m, cfg.kind, e.child, h, e.pivot, e.radius as int)
        }
    &&& disjoint_children(m, es, h)
}

/// The node `owner` lies below none of the entries.
pub open spec fn apart(m: Nodes, es: Seq<RoutingEntryView>, h: nat, owner: NodeId) -> bool {
    forall|i: int| 0 <= i < es.len() ==> !in_subtree(m, (#[trigger] es[i]).child, h, owner)
}

/// The half `o` of a split node is a well-formed subtree within its radius.
pub open spec fn half_ok(m: Nodes, cfg: Config, h: nat, o: PromotedView) -> bool {
    &&& o.pivot.len() == cfg.dim
    &&& is_point(o.pivot)
    &&& wf_subtree(m, cfg, o.node, h, Some(o.pivot))
    &&& covers(m, cfg.kind, o.node, h, o.pivot, o.radius as int)
}

/// The subtree of `id` has taken the pair `p` without being split: it is
/// well-formed in `m1`, it has only nodes it had before or new ones, and
/// nothing outside it has changed.
pub open spec fn grown_same(
    m0: Nodes,
    m1: Nodes,
    cfg: Config,
    id: NodeId,
    h: nat,
    parent: Option<Seq<int>>,
    p: Pair,
    fresh: nat,
) -> bool {
    &&& wf_subtree(m1, cfg, id, h, parent)
    &&& pairs_grown(subtree_pairs(m0, id, h), subtree_pairs(m1, id, h), p)
    &&& ids_from(m0, id, m1, id, h, fresh)
    &&& same_outside(m0, m1, id, h)
}

/// The subtree of `id` has taken the pair `p` and was split into the halves
/// `a` and `b`, which share no node and hold between them what the subtree
/// held and the new pair.
pub open spec fn grown_split(
    m0: Nodes,
    m1: Nodes,
    cfg: Config,
    id: NodeId,
    h: nat,
    a: PromotedView,
    b: PromotedView,
    p: Pair,
    fresh: nat,
) -> bool {
    &&& half_ok(m1, cfg, h, a)
    &&& half_ok(m1, cfg, h, b)
    &&& subtree_pairs(m1, a.node, h).add(subtree_pairs(m1, b.node, h)) == subtree_pairs(m0, id, h).insert(p)
    &&& ids_from(m0, id, m1, a.node, h, fresh)
    &&& ids_from(m0, id, m1, b.node, h, fresh)
    &&& forall|x: NodeId| !(#[trigger] in_subtree(m1, a.node, h, x) && in_subtree(m1, b.node, h, x))
    &&& same_outside(m0, m1, id, h)
}

/// A well-formed routing node, taken apart.
pub proof fn lemma_routing_parts(m: Nodes, cfg: Config, id: NodeId, h: nat, parent: Option<Seq<int>>)
    requires
        wf_subtree(m, cfg, id, h, parent),
        m[id] is Routing,
    ensures
        h > 0,
        routing_ok(cfg, m[id]->Routing_0, parent),
        kids(m, cfg, m[id]->Routing_0, (h - 1) as nat),
        apart(m, m[id]->Routing_0, (h - 1) as nat, id),
{
}

/// Children that a second map holds as the first does are as good there.
pub proof fn lemma_kids_frame(m: Nodes, m2: Nodes, cfg: Config, es: Seq<RoutingEntryView>, h: nat)
    requires
        kids(m, cfg, es, h),
        forall|i: int| 0 <= i < es.len() ==> agree_on(m, m2, (#[trigger] es[i]).child, h),
    ensures
        kids(m2, cfg, es, h),
        children_pairs(m2, es, h) == children_pairs(m, es, h),
        forall|i: int, x: NodeId|
            0 <= i < es.len() ==> #[trigger] in_subtree(m2, es[i].child, h, x) == in_subtree(
                m,
                es[i].child,
                h,
                x,
            ),
        forall|x: NodeId| below_any(m2, es, h, x) == below_any(m, es, h, x),
{
    assert forall|i: int| 0 <= i < es.len() implies wf_subtree(
        m2,
        cfg,
        (#[trigger] es[i]).child,
        h,
        Some(es[i].pivot),
    ) && subtree_pairs(m2, es[i].child, h) == subtree_pairs(m, es[i].child, h) && (forall|x: NodeId|
        in_subtree(m2, es[i].child, h, x) == in_subtree(m, es[i].child, h, x)) by {
        lemma_frame(m, m2, cfg, es[i].child, h, Some(es[i].pivot));
    }
    lemma_children_pairs_eq(m, es, m2, es, h);
    assert forall|x: NodeId| below_any(m2, es, h, x) == below_any(m, es, h, x) by {
        if below_any(m, es, h, x) {
            let i = choose|i: int| 0 <= i < es.len() && in_subtree(m, (#[trigger] es[i]).child, h, x);
            assert(in_subtree(m2, es[i].child, h, x));
        }
        if below_any(m2, es, h, x) {
            let i = choose|i: int| 0 <= i < es.len() && in_subtree(m2, (#[trigger] es[i]).child, h, x);
            assert(in_subtree(m, es[i].child, h, x));
        }
    }
}

/// Writing a routing node above good children makes a well-formed subtree
/// that holds what the children hold.
pub proof fn lemma_assemble_routing(
    m: Nodes,
    cfg: Config,
    id: NodeId,
    es: Seq<RoutingEntryView>,
    h: nat,
    parent: Option<Seq<int>>,
)
    requires
        routing_ok(cfg, es, parent),
        kids(m, cfg, es, h),
        apart(m, es, h, id),
    ensures
        wf_subtree(m.insert(id, NodeView::Routing(es)), cfg, id, h + 1, parent),
        subtree_pairs(m.insert(id, NodeView::Routing(es)), id, h + 1) == children_pairs(m, es, h),
        forall|x: NodeId|
            in_subtree(m.insert(id, NodeView::Routing(es)), id, h + 1, x) == (x == id || below_any(
                m,
                es,
                h,
                x,
            )),
{
    let m2 = m.insert(id, NodeView::Routing(es));
    assert forall|i: int| 0 <= i < es.len() implies agree_on(m, m2, (#[trigger] es[i]).child, h) by {
        assert forall|x: NodeId|
            #[trigger] in_subtree(m, es[i].child, h, x) && m.contains_key(x) implies m2.contains_key(x)
            && m2[x] == m[x] by {
            assert(x != id);
        }
    }
    lemma_kids_frame(m, m2, cfg, es, h);
    assert(m2[id] == NodeView::Routing(es));
    assert(children_ok(m2, cfg.kind, es, h, id));
    assert(wf_subtree(m2, cfg, id, h + 1, parent));
    assert forall|x: NodeId| in_subtree(m2, id, h + 1, x) == (x == id || below_any(m, es, h, x)) by {
        assert(in_subtree(m2, id, h + 1, x) == (x == id || below_any(m2, es, h, x)));
    }
}

/// Writing a leaf with good entries makes a well-formed subtree of one node.
pub proof fn lemma_assemble_leaf(
    m: Nodes,
    cfg: Config,
    id: NodeId,
    es: Seq<LeafEntryView>,
    parent: Option<Seq<int>>,
)
    requires
        leaf_ok(cfg, es, parent),
    ensures
        wf_subtree(m.insert(id, NodeView::Leaf(es)), cfg, id, 0, parent),
        subtree_pairs(m.insert(id, NodeView::Leaf(es)), id, 0) == leaf_pairs(es),
        forall|x: NodeId| in_subtree(m.insert(id, NodeView::Leaf(es)), id, 0, x) == (x == id),
{
}

/// The entries `sel` are some of the entries `es`, each once: `idx` says
/// which, and pivot, radius and child are the same.
pub open spec fn selection(es: Seq<RoutingEntryView>, sel: Seq<RoutingEntryView>, idx: Seq<int>) -> bool {
    &&& sel.len() == idx.len()
    &&& forall|t: int|
        0 <= t < sel.len() ==> {
            &&& 0 <= #[trigger] idx[t] < es.len()
            &&& sel[t].pivot == es[idx[t]].pivot
            &&& sel[t].radius == es[idx[t]].radius
            &&& sel[t].child == es[idx[t]].child
        }
    &&& forall|s: int, t: int| 0 <= s < t < idx.len() ==> idx[s] != idx[t]
}

/// Some of the children of good entries are good entries.
pub proof fn lemma_select_kids(
    m: Nodes,
    cfg: Config,
    es: Seq<RoutingEntryView>,
    h: nat,
    sel: Seq<RoutingEntryView>,
    idx: Seq<int>,
)
    requires
        kids(m, cfg, es, h),
        selection(es, sel, idx),
    ensures
        kids(m, cfg, sel, h),
        forall|x: NodeId| below_any(m, sel, h, x) ==> below_any(m, es, h, x),
{
    assert forall|t: int| 0 <= t < sel.len() implies {
        let e = #[trigger] sel[t];
        &&& e.pivot.len() == cfg.dim
        &&& is_point(e.pivot)
        &&& wf_subtree(m, cfg, e.child, h, Some(e.pivot))
        &&& covers(m, cfg.kind, e.child, h, e.pivot, e.radius as int)
    } by {
        let e0 = es[idx[t]];
        assert(wf_subtree(m, cfg, e0.child, h, Some(e0.pivot)));
    }
    assert forall|s: int, t: int, x: NodeId|
        0 <= s < sel.len() && 0 <= t < sel.len() && s != t implies !(#[trigger] in_subtree(
        m,
        sel[s].child,
        h,
        x,
    ) && #[trigger] in_subtree(m, sel[t].child, h, x)) by {
        assert(idx[s] != idx[t]);
        assert(sel[s].child == es[idx[s]].child);
        assert(sel[t].child == es[idx[t]].child);
        if in_subtree(m, es[idx[s]].child, h, x) && in_subtree(m, es[idx[t]].child, h, x) {
            assert(false);
        }
    }
    assert forall|x: NodeId| below_any(m, sel, h, x) implies below_any(m, es, h, x) by {
        let t = choose|t: int| 0 <= t < sel.len() && in_subtree(m, (#[trigger] sel[t]).child, h, x);
        assert(in_subtree(m, es[idx[t]].child, h, x));
    }
}

/// After one child of a node has taken a pair without being split, and the
/// radius of its entry was raised to cover the pair, the children are good
/// again and hold the new pair.
pub proof fn lemma_kids_after_same(
    m0: Nodes,
    m1: Nodes,
    cfg: Config,
    es0: Seq<RoutingEntryView>,
    es1: Seq<RoutingEntryView>,
    i: int,
    h: nat,
    p: Pair,
    fresh: nat,
)
    requires
        kids(m0, cfg, es0, h),
        keys_below(m0, fresh),
        0 <= i < es0.len(),
        grown_same(m0, m1, cfg, es0[i].child, h, Some(es0[i].pivot), p, fresh),
        es1.len() == es0.len(),
        forall|j: int| 0 <= j < es0.len() && j != i ==> es1[j] == es0[j],
        es1[i].pivot == es0[i].pivot,
        es1[i].child == es0[i].child,
        es1[i].radius >= es0[i].radius,
        dist_within(cfg, es1[i], p),
    ensures
        kids(m1, cfg, es1, h),
        pairs_grown(children_pairs(m0, es0, h), children_pairs(m1, es1, h), p),
        subtree_pairs(m1, es0[i].child, h) == subtree_pairs(m0, es0[i].child, h).insert(p) ==> children_pairs(
            m1,
            es1,
            h,
        ) == children_pairs(m0, es0, h).insert(p),
        forall|x: NodeId| #[trigger] below_any(m1, es1, h, x) ==> below_any(m0, es0, h, x) || x >= fresh,
        forall|x: NodeId|
            #![trigger m1.contains_key(x)]
            #![trigger m1[x]]
            m0.contains_key(x) && !below_any(m0, es0, h, x) ==> m1.contains_key(x) && m1[x] == m0[x],
{
    let c = es0[i].child;
    lemma_siblings_kept(m0, m1, cfg, es0, i, h);
    assert forall|j: int| 0 <= j < es1.len() implies {
        let e = #[trigger] es1[j];
        &&& e.pivot.len() == cfg.dim
        &&& is_point(e.pivot)
        &&& wf_subtree(m1, cfg, e.child, h, Some(e.pivot))
        &&& covers(m1, cfg.kind, e.child, h, e.pivot, e.radius as int)
    } by {
        if j == i {
            assert(es0[i].pivot.len() == cfg.dim);
            assert(covers(m0, cfg.kind, c, h, es0[i].pivot, es0[i].radius as int));
        } else {
            assert(es1[j] == es0[j]);
            assert(wf_subtree(m0, cfg, es0[j].child, h, Some(es0[j].pivot)));
        }
    }
    assert forall|j: int, k: int, x: NodeId|
        0 <= j < es1.len() && 0 <= k < es1.len() && j != k implies !(#[trigger] in_subtree(
        m1,
        es1[j].child,
        h,
        x,
    ) && #[trigger] in_subtree(m1, es1[k].child, h, x)) by {
        if in_subtree(m1, es1[j].child, h, x) && in_subtree(m1, es1[k].child, h, x) {
            lemma_new_child_apart(m0, m1, cfg, es0, i, c, h, fresh, if j == i { k } else { j }, x);
            if j != i && k != i {
                assert(in_subtree(m0, es0[j].child, h, x) && in_subtree(m0, es0[k].child, h, x));
            }
        }
    }
    lemma_children_pairs_replace(m0, es0, m1, es1, h, i);
    let old_i = subtree_pairs(m0, c, h);
    let new_i = subtree_pairs(m1, c, h);
    let old_all = children_pairs(m0, es0, h);
    let new_all = children_pairs(m1, es1, h);
    assert(new_all.add(old_i) == old_all.add(new_i));
    if new_i == old_i.insert(p) {
        assert forall|q: Pair| new_all.count(q) == old_all.insert(p).count(q) by {
            assert(new_all.add(old_i).count(q) == old_all.add(new_i).count(q));
        }
        assert(new_all =~= old_all.insert(p));
    } else {
        assert forall|q: Pair| new_all.count(q) == old_all.count(q) by {
            assert(new_all.add(old_i).count(q) == old_all.add(new_i).count(q));
        }
        assert(new_all =~= old_all);
        lemma_children_pairs_has(m0, es0, h, i, p);
    }
    assert forall|x: NodeId| #[trigger] below_any(m1, es1, h, x) implies below_any(m0, es0, h, x) || x
        >= fresh by {
        let j = choose|j: int| 0 <= j < es1.len() && in_subtree(m1, (#[trigger] es1[j]).child, h, x);
        if j == i {
            if x < fresh {
                assert(in_subtree(m0, es0[i].child, h, x));
            }
        } else {
            assert(in_subtree(m0, es0[j].child, h, x));
        }
    }
    assert forall|x: NodeId|
        #![trigger m1.contains_key(x)]
        #![trigger m1[x]]
        m0.contains_key(x) && !below_any(m0, es0, h, x) implies m1.contains_key(x) && m1[x] == m0[x] by {
        assert(!in_subtree(m0, es0[i].child, h, x));
    }
}

/// The pair `p` lies within the radius of the entry `e`.
pub open spec fn dist_within(cfg: Config, e: RoutingEntryView, p: Pair) -> bool {
    dist(cfg.kind, e.pivot, p.0) <= e.radius
}

/// When only the subtree of the child at `i` has changed, every other
/// child is as it was.
pub proof fn lemma_siblings_kept(
    m0: Nodes,
    m1: Nodes,
    cfg: Config,
    es0: Seq<RoutingEntryView>,
    i: int,
    h: nat,
)
    requires
        kids(m0, cfg, es0, h),
        0 <= i < es0.len(),
        same_outside(m0, m1, es0[i].child, h),
    ensures
        forall|j: int|
            0 <= j < es0.len() && j != i ==> {
                &&& wf_subtree(m1, cfg, (#[trigger] es0[j]).child, h, Some(es0[j].pivot))
                &&& subtree_pairs(m1, es0[j].child, h) == subtree_pairs(m0, es0[j].child, h)
                &&& covers(m1, cfg.kind, es0[j].child, h, es0[j].pivot, es0[j].radius as int)
            },
        forall|j: int, x: NodeId|
            0 <= j < es0.len() && j != i ==> #[trigger] in_subtree(m1, es0[j].child, h, x) == in_subtree(
                m0,
                es0[j].child,
                h,
                x,
            ),
{
    assert forall|j: int| 0 <= j < es0.len() && j != i implies {
        &&& wf_subtree(m1, cfg, (#[trigger] es0[j]).child, h, Some(es0[j].pivot))
        &&& subtree_pairs(m1, es0[j].child, h) == subtree_pairs(m0, es0[j].child, h)
        &&& covers(m1, cfg.kind, es0[j].child, h, es0[j].pivot, es0[j].radius as int)
        &&& forall|x: NodeId|
            in_subtree(m1, es0[j].child, h, x) == in_subtree(m0, es0[j].child, h, x)
    } by {
        assert forall|x: NodeId|
            #[trigger] in_subtree(m0, es0[j].child, h, x) && m0.contains_key(x) implies m1.contains_key(
            x,
        ) && m1[x] == m0[x] by {
            assert(!in_subtree(m0, es0[i].child, h, x));
        }
        lemma_frame(m0, m1, cfg, es0[j].child, h, Some(es0[j].pivot));
    }
}

/// A node below a child that has not changed lies below no subtree that
/// came from the child at `i`.
pub proof fn lemma_new_child_apart(
    m0: Nodes,
    m1: Nodes,
    cfg: Config,
    es0: Seq<RoutingEntryView>,
    i: int,
    c1: NodeId,
    h: nat,
    fresh: nat,
    j: int,
    x: NodeId,
)
    requires
        kids(m0, cfg, es0, h),
        keys_below(m0, fresh),
        0 <= i < es0.len(),
        0 <= j < es0.len(),
        j != i,
        ids_from(m0, es0[i].child, m1, c1, h, fresh),
        in_subtree(m0, es0[j].child, h, x),
    ensures
        !in_subtree(m1, c1, h, x),
{
    lemma_subtree_keys(m0, cfg, es0[j].child, h, Some(es0[j].pivot), x);
    if in_subtree(m1, c1, h, x) {
        assert(in_subtree(m0, es0[i].child, h, x) || x >= fresh);
        assert(!(in_subtree(m0, es0[i].child, h, x) && in_subtree(m0, es0[j].child, h, x)));
    }
}

/// After one child of a node was split, with the first half in its place
/// and the second half as a new last entry, the children are good again
/// and hold the new pair.
pub proof fn lemma_kids_after_split(
    m0: Nodes,
    m1: Nodes,
    cfg: Config,
    es0: Seq<RoutingEntryView>,
    es1: Seq<RoutingEntryView>,
    i: int,
    h: nat,
    a: PromotedView,
    b: PromotedView,
    p: Pair,
    fresh: nat,
)
    requires
        kids(m0, cfg, es0, h),
        keys_below(m0, fresh),
        0 <= i < es0.len(),
        grown_split(m0, m1, cfg, es0[i].child, h, a, b, p, fresh),
        es1.len() == es0.len() + 1,
        forall|j: int| 0 <= j < es0.len() && j != i ==> es1[j] == es0[j],
        es1[i].pivot == a.pivot && es1[i].radius == a.radius && es1[i].child == a.node,
        es1[es0.len() as int].pivot == b.pivot && es1[es0.len() as int].radius == b.radius && es1[es0.len() as int].child
            == b.node,
    ensures
        kids(m1, cfg, es1, h),
        children_pairs(m1, es1, h) == children_pairs(m0, es0, h).insert(p),
        forall|x: NodeId| #[trigger] below_any(m1, es1, h, x) ==> below_any(m0, es0, h, x) || x >= fresh,
        forall|x: NodeId|
            #![trigger m1.contains_key(x)]
            #![trigger m1[x]]
            m0.contains_key(x) && !below_any(m0, es0, h, x) ==> m1.contains_key(x) && m1[x] == m0[x],
{
    let c = es0[i].child;
    let n = es0.len() as int;
    lemma_siblings_kept(m0, m1, cfg, es0, i, h);
    assert forall|j: int| 0 <= j < es1.len() implies {
        let e = #[trigger] es1[j];
        &&& e.pivot.len() == cfg.dim
        &&& is_point(e.pivot)
        &&& wf_subtree(m1, cfg, e.child, h, Some(e.pivot))
        &&& covers(m1, cfg.kind, e.child, h, e.pivot, e.radius as int)
    } by {
        if j != i && j != n {
            assert(es1[j] == es0[j]);
            assert(wf_subtree(m0, cfg, es0[j].child, h, Some(es0[j].pivot)));
        }
    }
    assert forall|j: int, k: int, x: NodeId|
        0 <= j < es1.len() && 0 <= k < es1.len() && j != k implies !(#[trigger] in_subtree(
        m1,
        es1[j].child,
        h,
        x,
    ) && #[trigger] in_subtree(m1, es1[k].child, h, x)) by {
        if in_subtree(m1, es1[j].child, h, x) && in_subtree(m1, es1[k].child, h, x) {
            let j_new = j == i || j == n;
            let k_new = k == i || k == n;
            if j_new && k_new {
                assert(in_subtree(m1, a.node, h, x) && in_subtree(m1, b.node, h, x));
            } else if j_new {
                assert(in_subtree(m0, es0[k].child, h, x));
                lemma_new_child_apart(m0, m1, cfg, es0, i, es1[j].child, h, fresh, k, x);
            } else if k_new {
                assert(in_subtree(m0, es0[j].child, h, x));
                lemma_new_child_apart(m0, m1, cfg, es0, i, es1[k].child, h, fresh, j, x);
            } else {
                assert(in_subtree(m0, es0[j].child, h, x) && in_subtree(m0, es0[k].child, h, x));
            }
        }
    }
    let front = es1.drop_last();
    assert(es1 =~= front.push(es1[n]));
    lemma_children_pairs_push(m1, front, es1[n], h);
    assert forall|j: int| 0 <= j < es0.len() && j != i implies subtree_pairs(
        m1,
        (#[trigger] front[j]).child,
        h,
    ) == subtree_pairs(m0, es0[j].child, h) by {
        assert(front[j] == es0[j]);
    }
    lemma_children_pairs_replace(m0, es0, m1, front, h, i);
    let old_i = subtree_pairs(m0, c, h);
    let pa = subtree_pairs(m1, a.node, h);
    let pb = subtree_pairs(m1, b.node, h);
    let old_all = children_pairs(m0, es0, h);
    let mid = children_pairs(m1, front, h);
    let new_all = children_pairs(m1, es1, h);
    assert(front[i].child == a.node);
    assert(mid.add(old_i) == old_all.add(pa));
    assert(new_all == mid.add(pb));
    assert(pa.add(pb) == old_i.insert(p));
    assert forall|q: Pair| new_all.count(q) == old_all.insert(p).count(q) by {
        assert(mid.add(old_i).count(q) == old_all.add(pa).count(q));
        assert(pa.add(pb).count(q) == old_i.insert(p).count(q));
    }
    assert(new_all =~= old_all.insert(p));
    assert forall|x: NodeId| #[trigger] below_any(m1, es1, h, x) implies below_any(m0, es0, h, x) || x
        >= fresh by {
        let j = choose|j: int| 0 <= j < es1.len() && in_subtree(m1, (#[trigger] es1[j]).child, h, x);
        if j == i || j == n {
            if x < fresh {
                assert(in_subtree(m0, es0[i].child, h, x));
            }
        } else {
            assert(in_subtree(m0, es0[j].child, h, x));
        }
    }
    assert forall|x: NodeId|
        #![trigger m1.contains_key(x)]
        #![trigger m1[x]]
        m0.contains_key(x) && !below_any(m0, es0, h, x) implies m1.contains_key(x) && m1[x] == m0[x] by {
        assert(!in_subtree(m0, es0[i].child, h, x));
    }
}

/// The node `id` lies below none of the children after one of them has
/// grown, when it lay below none of them before.
pub proof fn lemma_apart_kept(
    m0: Nodes,
    m1: Nodes,
    id: NodeId,
    hc: nat,
    es0: Seq<RoutingEntryView>,
    es1: Seq<RoutingEntryView>,
    fresh: nat,
)
    requires
        apart(m0, es0, hc, id),
        id < fresh,
        forall|x: NodeId| #[trigger] below_any(m1, es1, hc, x) ==> below_any(m0, es0, hc, x) || x >= fresh,
    ensures
        apart(m1, es1, hc, id),
{
    assert forall|j: int| 0 <= j < es1.len() implies !in_subtree(m1, (#[trigger] es1[j]).child, hc, id) by {
        if in_subtree(m1, es1[j].child, hc, id) {
            assert(below_any(m1, es1, hc, id));
            assert(below_any(m0, es0, hc, id));
            let t = choose|t: int| 0 <= t < es0.len() && in_subtree(m0, (#[trigger] es0[t]).child, hc, id);
            assert(false);
        }
    }
}

} // verus!
