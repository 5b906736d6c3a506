//! The descent of an insertion: which child of a routing node takes a new
//! point, and at which leaf the way down ends.

use vstd::prelude::*;
use crate::node::{routing_views, NodeId, NodeView, RoutingEntry, RoutingEntryView};
use crate::split::measure_of;
use crate::tree::{agree_on, in_subtree, Nodes, Pair};
use crate::vector::{accumulate, dist, Distance, Vector};

verus! {

/// The rank of a child for the descent with the point `v`: children whose
/// radius holds `v` come first, the nearer pivot before the farther by the
/// exact measure of the distance; then the others, by the growth that the
/// radius needs and then by the radius.
pub open spec fn rank(kind: Distance, e: RoutingEntryView, v: Seq<int>) -> (int, int, int) {
    let d = dist(kind, e.pivot, v) as int;
    if d <= e.radius {
        (0, accumulate(kind, e.pivot, v) as int, 0)
    } else {
        (1, d - e.radius, e.radius as int)
    }
}

/// The rank `a` comes strictly before the rank `b`.
pub open spec fn rank_less(a: (int, int, int), b: (int, int, int)) -> bool {
    a.0 < b.0 || (a.0 == b.0 && (a.1 < b.1 || (a.1 == b.1 && a.2 < b.2)))
}

/// The entry at `i` has the least rank, and is the first that has it.
pub open spec fn is_choice(kind: Distance, es: Seq<RoutingEntryView>, v: Seq<int>, i: int) -> bool {
    &&& 0 <= i < es.len()
    &&& forall|j: int| 0 <= j < i ==> rank_less(rank(kind, es[i], v), rank(kind, #[trigger] es[j], v))
    &&& forall|j: int| i < j < es.len() ==> !rank_less(rank(kind, #[trigger] es[j], v), rank(kind, es[i], v))
}

/// The position of the child that the descent with the point `v` takes.
pub open spec fn choice(kind: Distance, es: Seq<RoutingEntryView>, v: Seq<int>) -> int {
    choose|i: int| is_choice(kind, es, v, i)
}

/// There is one choice at most.
pub proof fn lemma_choice(kind: Distance, es: Seq<RoutingEntryView>, v: Seq<int>, i: int)
    requires
        is_choice(kind, es, v, i),
    ensures
        choice(kind, es, v) == i,
{
    let j = choice(kind, es, v);
    assert(is_choice(kind, es, v, j));
    if i < j {
        assert(rank_less(rank(kind, es[j], v), rank(kind, es[i], v)));
        assert(!rank_less(rank(kind, es[j], v), rank(kind, es[i], v)));
    } else if j < i {
        assert(rank_less(rank(kind, es[i], v), rank(kind, es[j], v)));
        assert(!rank_less(rank(kind, es[i], v), rank(kind, es[j], v)));
    }
}

/// The child that the descent took is the child that it takes again when
/// the radius of its entry has been raised to hold the point.
pub proof fn lemma_choice_stable(
    kind: Distance,
    es0: Seq<RoutingEntryView>,
    es1: Seq<RoutingEntryView>,
    v: Seq<int>,
    i: int,
)
    requires
        is_choice(kind, es0, v, i),
        es1.len() == es0.len(),
        forall|j: int| 0 <= j < es0.len() && j != i ==> es1[j] == es0[j],
        es1[i].pivot == es0[i].pivot,
        es1[i].radius == if dist(kind, es0[i].pivot, v) > es0[i].radius {
            dist(kind, es0[i].pivot, v) as u128
        } else {
            es0[i].radius
        },
        dist(kind, es0[i].pivot, v) <= u128::MAX,
    ensures
        is_choice(kind, es1, v, i),
{
    assert forall|j: int| 0 <= j < i implies rank_less(rank(kind, es1[i], v), rank(kind, #[trigger] es1[j], v)) by {
        assert(rank_less(rank(kind, es0[i], v), rank(kind, es0[j], v)));
    }
    assert forall|j: int| i < j < es1.len() implies !rank_less(
        rank(kind, #[trigger] es1[j], v),
        rank(kind, es1[i], v),
    ) by {
        assert(!rank_less(rank(kind, es0[j], v), rank(kind, es0[i], v)));
    }
}

/// The child to descend into with the point `v`, and the distance from its
/// pivot to `v`. Among the children whose radius holds `v` it is the one
/// with the nearest pivot, by the exact measure of the distance. If there
/// is none, it is the one whose radius has
/// to grow least, and among several of those the one with the smallest
/// radius. The first of several equally good children is taken.
pub fn choose_subtree(kind: Distance, entries: &Vec<RoutingEntry>, v: &Vector) -> (r: (usize, u128))
    requires
        entries@.len() >= 1,
        forall|i: int| 0 <= i < entries@.len() ==> (#[trigger] entries@[i]).pivot@.len() == v@.len(),
    ensures
        is_choice(kind, routing_views(entries@), v@, r.0 as int),
        r.1 == dist(kind, entries@[r.0 as int].pivot@, v@),
{
    let ghost es = routing_views(entries@);
    let n: usize = entries.len();
    let mut best: usize = 0;
    let mut best_m: u128 = measure_of(kind, &entries[0].pivot, v);
    let mut best_d: u128 = kind.round(best_m);
    let mut j: usize = 1;
    assert(es[0] == entries@[0]@);
    while j < n
        invariant
            n == entries@.len(),
            es == routing_views(entries@),
            forall|i: int| 0 <= i < entries@.len() ==> (#[trigger] entries@[i]).pivot@.len() == v@.len(),
            1 <= j <= n,
            best < j,
            best_m == accumulate(kind, es[best as int].pivot, v@),
            best_d == dist(kind, es[best as int].pivot, v@),
            forall|t: int|
                0 <= t < best ==> rank_less(rank(kind, es[best as int], v@), rank(kind, #[trigger] es[t], v@)),
            forall|t: int|
                best < t < j ==> !rank_less(rank(kind, #[trigger] es[t], v@), rank(kind, es[best as int], v@)),
        decreases n - j,
    {
        assert(es[j as int] == entries@[j as int]@);
        assert(es[best as int] == entries@[best as int]@);
        let m: u128 = measure_of(kind, &entries[j].pivot, v);
        let d: u128 = kind.round(m);
        let r: u128 = entries[j].radius;
        let br: u128 = entries[best].radius;
        let better: bool = if d <= r {
            if best_d <= br {
                m < best_m
            } else {
                true
            }
        } else {
            if best_d <= br {
                false
            } else {
                d - r < best_d - br || (d - r == best_d - br && r < br)
            }
        };
        if better {
            best = j;
            best_m = m;
            best_d = d;
        }
        j = j + 1;
    }
    (best, best_d)
}

/// Every node of the subtree of `id` is in the map.
pub open spec fn in_subtree_keys(m: Nodes, id: NodeId, h: nat) -> bool {
    forall|x: NodeId| #[trigger] in_subtree(m, id, h, x) ==> m.contains_key(x)
}

/// The leaf at which the descent with the point `v` from the node `id` ends.
pub open spec fn target_leaf(m: Nodes, kind: Distance, id: NodeId, h: nat, v: Seq<int>) -> NodeId
    decreases h,
{
    if h == 0 || !m.contains_key(id) {
        id
    } else {
        match m[id] {
            NodeView::Leaf(_) => id,
            NodeView::Routing(es) => {
                let i = choice(kind, es, v);
                if 0 <= i < es.len() {
                    target_leaf(m, kind, es[i].child, (h - 1) as nat, v)
                } else {
                    id
                }
            },
        }
    }
}

/// The descent ends at the same leaf in two maps that hold the subtree alike.
pub proof fn lemma_target_frame(m: Nodes, m2: Nodes, kind: Distance, id: NodeId, h: nat, v: Seq<int>)
    requires
        agree_on(m, m2, id, h),
        in_subtree_keys(m, id, h),
    ensures
        target_leaf(m2, kind, id, h, v) == target_leaf(m, kind, id, h, v),
    decreases h,
{
    assert(in_subtree(m, id, h, id));
    if h > 0 && m.contains_key(id) {
        assert(m2[id] == m[id]);
        match m[id] {
            NodeView::Leaf(_) => {},
            NodeView::Routing(es) => {
                let i = choice(kind, es, v);
                if 0 <= i < es.len() {
                    let c = es[i].child;
                    assert forall|x: NodeId| #[trigger] in_subtree(m, c, (h - 1) as nat, x) implies in_subtree(
                        m,
                        id,
                        h,
                        x,
                    ) by {}
                    lemma_target_frame(m, m2, kind, c, (h - 1) as nat, v);
                }
            },
        }
    } else {
        if h > 0 {
            assert(!m.contains_key(id));
            assert(false);
        }
    }
}

/// The node `leaf` is a leaf with an entry for the point `v`.
pub open spec fn leaf_has_point(m: Nodes, leaf: NodeId, v: Seq<int>) -> bool {
    m.contains_key(leaf) && match m[leaf] {
        NodeView::Leaf(es) => exists|j: int| 0 <= j < es.len() && (#[trigger] es[j]).vector == v,
        NodeView::Routing(_) => false,
    }
}

/// The node `leaf` is a leaf with an entry for the point of the pair that
/// holds the record of the pair.
pub open spec fn leaf_has_pair(m: Nodes, leaf: NodeId, p: Pair) -> bool {
    m.contains_key(leaf) && match m[leaf] {
        NodeView::Leaf(es) => exists|j: int|
            0 <= j < es.len() && (#[trigger] es[j]).vector == p.0 && es[j].docs.contains(p.1),
        NodeView::Routing(_) => false,
    }
}

} // verus!
