//! The split of an overflowing node: promotion picks the two new pivots,
//! partition gives each entry to the nearer one, and the two halves are
//! written, one under the identifier of the node and one under a new one.

use vstd::prelude::*;
use crate::error::IndexError;
use crate::grow::{
    apart,
    half_ok,
    kids,
    lemma_assemble_routing,
    lemma_kids_frame,
    lemma_select_kids,
    selection,
    PromotedView,
};
use crate::kv::Transaction;
use crate::node::{
    copy_docs,
    leaf_views,
    routing_views,
    LeafEntry,
    LeafEntryView,
    Node,
    NodeId,
    NodeView,
    RoutingEntry,
    RoutingEntryView,
};
use crate::store::{fresh_id, put, NodeStore};
use crate::tree::{
    agree_on,
    below_any,
    children_pairs,
    covers,
    in_subtree,
    keys_below,
    leaf_ok,
    leaf_pairs,
    lemma_children_pairs_member,
    lemma_children_pairs_push,
    lemma_frame,
    lemma_leaf_pairs_member,
    lemma_leaf_pairs_push,
    lemma_pairs_are_points,
    lemma_subtree_keys,
    parent_dist_ok,
    routing_ok,
    subtree_pairs,
    wf_subtree,
    Config,
    Nodes,
    Pair,
};
use crate::vector::{
    accumulate,
    dist,
    is_point,
    lemma_dist_bound,
    lemma_dist_symmetric,
    lemma_dist_triangle,
    Distance,
    Vector,
};

verus! {

/// One half of a node that was split, as the parent will refer to it.
#[derive(Debug)]
pub struct Promoted {
    pub pivot: Vector,
    pub radius: u128,
    pub node: NodeId,
}

/// Where partition puts an entry, and how far the entry is from the pivot
/// of that half.
#[derive(Clone, Copy, Debug)]
pub struct Side {
    pub first: bool,
    pub dist: u128,
}

/// The points that a list of vectors holds.
pub open spec fn point_views(points: Seq<Vector>) -> Seq<Seq<int>> {
    Seq::new(points.len(), |i: int| points[i]@)
}

/// All the points have the dimension `dim`.
pub open spec fn all_dim(pts: Seq<Seq<int>>, dim: nat) -> bool {
    forall|i: int| 0 <= i < pts.len() ==> (#[trigger] pts[i]).len() == dim
}

/// The pair `(a, b)` comes before the pair `(i, j)` when pairs are listed
/// by their first index and then by their second.
pub open spec fn pair_before(a: int, b: int, i: int, j: int) -> bool {
    a < i || (a == i && b < j)
}

/// The points at `i` and `j` are farther apart than any pair listed before
/// them, and no pair is farther apart than they are. Distances are compared
/// by their exact measures.
pub open spec fn is_farthest_pair(kind: Distance, pts: Seq<Seq<int>>, i: int, j: int) -> bool {
    &&& 0 <= i < j < pts.len()
    &&& forall|a: int, b: int|
        0 <= a < b < pts.len() ==> #[trigger] accumulate(kind, pts[a], pts[b]) <= accumulate(
            kind,
            pts[i],
            pts[j],
        )
    &&& forall|a: int, b: int|
        0 <= a < b < pts.len() && pair_before(a, b, i, j) ==> #[trigger] accumulate(kind, pts[a], pts[b])
            < accumulate(kind, pts[i], pts[j])
}

/// The half that partition gives the point at `k` to: each pivot keeps
/// itself, and any other point goes to the nearer pivot, to the first when
/// both are equally near. Distances are compared by their exact measures.
pub open spec fn goes_first(kind: Distance, pts: Seq<Seq<int>>, i: int, j: int, k: int) -> bool {
    if k == i {
        true
    } else if k == j {
        false
    } else {
        accumulate(kind, pts[k], pts[i]) <= accumulate(kind, pts[k], pts[j])
    }
}

/// What partition decides for the point at `k`.
pub open spec fn side_of(kind: Distance, pts: Seq<Seq<int>>, i: int, j: int, k: int) -> Side {
    if goes_first(kind, pts, i, j, k) {
        Side { first: true, dist: dist(kind, pts[k], pts[i]) as u128 }
    } else {
        Side { first: false, dist: dist(kind, pts[k], pts[j]) as u128 }
    }
}

/// The vectors of the entries of a leaf.
pub open spec fn leaf_vectors(es: Seq<LeafEntryView>) -> Seq<Seq<int>> {
    Seq::new(es.len(), |t: int| es[t].vector)
}

/// The pivots of the entries of a routing node.
pub open spec fn pivots(es: Seq<RoutingEntryView>) -> Seq<Seq<int>> {
    Seq::new(es.len(), |t: int| es[t].pivot)
}

/// One half of the first `n` entries of a leaf that is split with the
/// pivots at `i` and `j`: the entries that partition gives to that half, in
/// their order, each with its distance to the pivot of the half recorded.
pub open spec fn leaf_half(kind: Distance, es: Seq<LeafEntryView>, i: int, j: int, n: nat, first: bool) -> Seq<
    LeafEntryView,
>
    decreases n,
{
    if n == 0 {
        Seq::empty()
    } else {
        let rest = leaf_half(kind, es, i, j, (n - 1) as nat, first);
        let side = side_of(kind, leaf_vectors(es), i, j, n - 1);
        if side.first == first {
            rest.push(
                LeafEntryView {
                    vector: es[n - 1].vector,
                    docs: es[n - 1].docs,
                    parent_dist: Some(side.dist),
                },
            )
        } else {
            rest
        }
    }
}

/// One half of the first `n` entries of a routing node that is split with
/// the pivots at `i` and `j`, as [`leaf_half`] is of a leaf.
pub open spec fn routing_half(
    kind: Distance,
    es: Seq<RoutingEntryView>,
    i: int,
    j: int,
    n: nat,
    first: bool,
) -> Seq<RoutingEntryView>
    decreases n,
{
    if n == 0 {
        Seq::empty()
    } else {
        let rest = routing_half(kind, es, i, j, (n - 1) as nat, first);
        let side = side_of(kind, pivots(es), i, j, n - 1);
        if side.first == first {
            rest.push(
                RoutingEntryView {
                    pivot: es[n - 1].pivot,
                    radius: es[n - 1].radius,
                    child: es[n - 1].child,
                    parent_dist: Some(side.dist),
                },
            )
        } else {
            rest
        }
    }
}

/// The sum of two distances, or the largest distance there is if the sum
/// is beyond it.
pub open spec fn capped_sum(a: u128, b: u128) -> u128 {
    if a + b <= u128::MAX {
        (a + b) as u128
    } else {
        u128::MAX
    }
}

/// The covering radius of a leaf: the largest distance that its entries
/// record, and zero for none.
pub open spec fn leaf_reach(half: Seq<LeafEntryView>) -> u128
    decreases half.len(),
{
    if half.len() == 0 {
        0
    } else {
        let rest = leaf_reach(half.drop_last());
        let d = half.last().parent_dist->Some_0;
        if d > rest { d } else { rest }
    }
}

/// The covering radius of a routing node: the largest sum of the distance
/// that an entry records and the radius of the entry.
pub open spec fn routing_reach(half: Seq<RoutingEntryView>) -> u128
    decreases half.len(),
{
    if half.len() == 0 {
        0
    } else {
        let rest = routing_reach(half.drop_last());
        let d = capped_sum(half.last().parent_dist->Some_0, half.last().radius);
        if d > rest { d } else { rest }
    }
}

/// There is one farthest pair.
pub proof fn lemma_farthest_unique(kind: Distance, pts: Seq<Seq<int>>, i: int, j: int, i2: int, j2: int)
    requires
        is_farthest_pair(kind, pts, i, j),
        is_farthest_pair(kind, pts, i2, j2),
    ensures
        i == i2,
        j == j2,
{
    if pair_before(i, j, i2, j2) {
        assert(accumulate(kind, pts[i], pts[j]) < accumulate(kind, pts[i2], pts[j2]));
        assert(accumulate(kind, pts[i2], pts[j2]) <= accumulate(kind, pts[i], pts[j]));
    } else if pair_before(i2, j2, i, j) {
        assert(accumulate(kind, pts[i2], pts[j2]) < accumulate(kind, pts[i], pts[j]));
        assert(accumulate(kind, pts[i], pts[j]) <= accumulate(kind, pts[i2], pts[j2]));
    }
}

/// The exact measure of the distance between two vectors of the same
/// dimension.
pub fn measure_of(kind: Distance, a: &Vector, b: &Vector) -> (m: u128)
    requires
        a@.len() == b@.len(),
    ensures
        m == accumulate(kind, a@, b@),
{
    match kind.measure(a, b) {
        Ok(m) => m,
        Err(_) => 0,
    }
}

/// The distance between two vectors of the same dimension.
pub fn distance_of(kind: Distance, a: &Vector, b: &Vector) -> (d: u128)
    requires
        a@.len() == b@.len(),
    ensures
        d == dist(kind, a@, b@),
{
    match kind.compute(a, b) {
        Ok(d) => d,
        Err(_) => 0,
    }
}

/// Copies of the vectors of the entries of a leaf.
pub fn leaf_points(entries: &Vec<LeafEntry>) -> (points: Vec<Vector>)
    ensures
        points@.len() == entries@.len(),
        forall|i: int| 0 <= i < entries@.len() ==> (#[trigger] points@[i])@ == entries@[i].vector@,
{
    let mut out: Vec<Vector> = Vec::new();
    let mut i: usize = 0;
    while i < entries.len()
        invariant
            i <= entries.len(),
            out@.len() == i,
            forall|j: int| 0 <= j < i ==> (#[trigger] out@[j])@ == entries@[j].vector@,
        decreases entries.len() - i,
    {
        out.push(entries[i].vector.clone());
        i = i + 1;
    }
    out
}

/// Copies of the pivots of the entries of a routing node.
pub fn routing_points(entries: &Vec<RoutingEntry>) -> (points: Vec<Vector>)
    ensures
        points@.len() == entries@.len(),
        forall|i: int| 0 <= i < entries@.len() ==> (#[trigger] points@[i])@ == entries@[i].pivot@,
{
    let mut out: Vec<Vector> = Vec::new();
    let mut i: usize = 0;
    while i < entries.len()
        invariant
            i <= entries.len(),
            out@.len() == i,
            forall|j: int| 0 <= j < i ==> (#[trigger] out@[j])@ == entries@[j].pivot@,
        decreases entries.len() - i,
    {
        out.push(entries[i].pivot.clone());
        i = i + 1;
    }
    out
}

/// Promotion: the two points that are farthest apart by the exact measure
/// of their distance, and among several such pairs the one that comes
/// first.
pub fn promote(kind: Distance, points: &Vec<Vector>) -> (r: (usize, usize))
    requires
        points@.len() >= 2,
        exists|dim: nat| all_dim(point_views(points@), dim),
    ensures
        is_farthest_pair(kind, point_views(points@), r.0 as int, r.1 as int),
{
    let ghost pts = point_views(points@);
    let ghost dim = choose|dim: nat| all_dim(point_views(points@), dim);
    let n: usize = points.len();
    assert(pts[0].len() == dim && pts[1].len() == dim);
    let mut best_i: usize = 0;
    let mut best_j: usize = 1;
    let mut best: u128 = measure_of(kind, &points[0], &points[1]);
    let mut i: usize = 0;
    while i < n
        invariant
            n == points@.len(),
            n >= 2,
            pts == point_views(points@),
            all_dim(pts, dim),
            i <= n,
            0 <= best_i < best_j < n,
            best == accumulate(kind, pts[best_i as int], pts[best_j as int]),
            forall|a: int, b: int|
                0 <= a < b < n && a < i ==> #[trigger] accumulate(kind, pts[a], pts[b]) <= best,
            forall|a: int, b: int|
                0 <= a < b < n && pair_before(a, b, best_i as int, best_j as int) ==> #[trigger] accumulate(
                    kind,
                    pts[a],
                    pts[b],
                ) < best,
        decreases n - i,
    {
        let mut j: usize = i + 1;
        while j < n
            invariant
                n == points@.len(),
                n >= 2,
                pts == point_views(points@),
                all_dim(pts, dim),
                i < n,
                i < j <= n,
                0 <= best_i < best_j < n,
                best == accumulate(kind, pts[best_i as int], pts[best_j as int]),
                forall|a: int, b: int|
                    0 <= a < b < n && pair_before(a, b, i as int, j as int) ==> #[trigger] accumulate(
                        kind,
                        pts[a],
                        pts[b],
                    ) <= best,
                forall|a: int, b: int|
                    0 <= a < b < n && pair_before(a, b, best_i as int, best_j as int)
                        ==> #[trigger] accumulate(kind, pts[a], pts[b]) < best,
            decreases n - j,
        {
            assert(pts[i as int].len() == dim && pts[j as int].len() == dim);
            let d: u128 = measure_of(kind, &points[i], &points[j]);
            if d > best {
                best = d;
                best_i = i;
                best_j = j;
            }
            j = j + 1;
        }
        i = i + 1;
    }
    (best_i, best_j)
}

/// Partition: for every point the half it goes to and its distance to the
/// pivot of that half.
pub fn assign(kind: Distance, points: &Vec<Vector>, i: usize, j: usize) -> (plan: Vec<Side>)
    requires
        i < points@.len(),
        j < points@.len(),
        exists|dim: nat| all_dim(point_views(points@), dim),
    ensures
        plan@.len() == points@.len(),
        forall|k: int|
            0 <= k < points@.len() ==> #[trigger] plan@[k] == side_of(
                kind,
                point_views(points@),
                i as int,
                j as int,
                k,
            ),
{
    let ghost pts = point_views(points@);
    let ghost dim = choose|dim: nat| all_dim(point_views(points@), dim);
    let n: usize = points.len();
    let mut plan: Vec<Side> = Vec::new();
    let mut k: usize = 0;
    while k < n
        invariant
            n == points@.len(),
            i < n,
            j < n,
            pts == point_views(points@),
            all_dim(pts, dim),
            k <= n,
            plan@.len() == k,
            forall|t: int| 0 <= t < k ==> #[trigger] plan@[t] == side_of(kind, pts, i as int, j as int, t),
        decreases n - k,
    {
        assert(pts[k as int].len() == dim && pts[i as int].len() == dim && pts[j as int].len() == dim);
        let mi: u128 = measure_of(kind, &points[k], &points[i]);
        let mj: u128 = measure_of(kind, &points[k], &points[j]);
        let first: bool = if k == i {
            true
        } else if k == j {
            false
        } else {
            mi <= mj
        };
        let side = if first {
            Side { first: true, dist: kind.round(mi) }
        } else {
            Side { first: false, dist: kind.round(mj) }
        };
        plan.push(side);
        k = k + 1;
    }
    plan
}

/// The entries of a leaf are as they should be, their number and their
/// recorded distances apart.
pub open spec fn loose_leaf(cfg: Config, es: Seq<LeafEntryView>) -> bool {
    &&& forall|i: int|
        0 <= i < es.len() ==> {
            let e = #[trigger] es[i];
            &&& e.vector.len() == cfg.dim
            &&& is_point(e.vector)
            &&& e.docs.len() >= 1
            &&& e.docs.no_duplicates()
        }
    &&& forall|i: int, j: int|
        0 <= i < j < es.len() ==> (#[trigger] es[i]).vector != (#[trigger] es[j]).vector
}

/// Every node that `m0` holds, apart from `x1` and `x2`, is in `m1` as it was.
pub open spec fn changed_two(m0: Nodes, m1: Nodes, x1: NodeId, x2: NodeId) -> bool {
    forall|x: NodeId|
        #![trigger m1.contains_key(x)]
        #![trigger m1[x]]
        x != x1 && x != x2 && m0.contains_key(x) ==> m1.contains_key(x) && m1[x] == m0[x]
}

/// The two points that promotion picks.
pub open spec fn farthest(kind: Distance, pts: Seq<Seq<int>>) -> (int, int) {
    choose|ij: (int, int)| is_farthest_pair(kind, pts, ij.0, ij.1)
}

/// Promotion picks the one farthest pair.
pub proof fn lemma_farthest(kind: Distance, pts: Seq<Seq<int>>, i: int, j: int)
    requires
        is_farthest_pair(kind, pts, i, j),
    ensures
        farthest(kind, pts) == (i, j),
{
    let w = (i, j);
    assert(is_farthest_pair(kind, pts, w.0, w.1));
    let ij = farthest(kind, pts);
    assert(is_farthest_pair(kind, pts, ij.0, ij.1));
    lemma_farthest_unique(kind, pts, i, j, ij.0, ij.1);
}

/// The leaf with the entries `es` was split with the pivots at `i` and
/// `j`, the two entries that are farthest apart: the halves `a` and `b`
/// have these pivots, their nodes hold what partition gives them, and
/// their radii are the largest distances from the pivots to their entries.
pub open spec fn leaf_split_at(
    kind: Distance,
    es: Seq<LeafEntryView>,
    i: int,
    j: int,
    a: PromotedView,
    b: PromotedView,
    m0: Nodes,
    m1: Nodes,
) -> bool {
    &&& is_farthest_pair(kind, leaf_vectors(es), i, j)
    &&& a.pivot == es[i].vector
    &&& b.pivot == es[j].vector
    &&& m1 == m0.insert(a.node, NodeView::Leaf(leaf_half(kind, es, i, j, es.len(), true))).insert(
        b.node,
        NodeView::Leaf(leaf_half(kind, es, i, j, es.len(), false)),
    )
    &&& a.radius == leaf_reach(leaf_half(kind, es, i, j, es.len(), true))
    &&& b.radius == leaf_reach(leaf_half(kind, es, i, j, es.len(), false))
}

/// The routing node with the entries `es` was split with the pivots at `i`
/// and `j`, as [`leaf_split_at`] says of a leaf; the radius of a half
/// reaches the radius of each of its entries.
pub open spec fn routing_split_at(
    kind: Distance,
    es: Seq<RoutingEntryView>,
    i: int,
    j: int,
    a: PromotedView,
    b: PromotedView,
    m0: Nodes,
    m1: Nodes,
) -> bool {
    &&& is_farthest_pair(kind, pivots(es), i, j)
    &&& a.pivot == es[i].pivot
    &&& b.pivot == es[j].pivot
    &&& m1 == m0.insert(a.node, NodeView::Routing(routing_half(kind, es, i, j, es.len(), true))).insert(
        b.node,
        NodeView::Routing(routing_half(kind, es, i, j, es.len(), false)),
    )
    &&& a.radius == routing_reach(routing_half(kind, es, i, j, es.len(), true))
    &&& b.radius == routing_reach(routing_half(kind, es, i, j, es.len(), false))
}

/// One half of the entries of a leaf, with its distances recorded against
/// the pivot `pv`, makes a good leaf within the radius `r`.
pub proof fn lemma_half_leaf(
    cfg: Config,
    es: Seq<LeafEntryView>,
    half: Seq<LeafEntryView>,
    idx: Seq<int>,
    pv: Seq<int>,
    r: u128,
)
    requires
        loose_leaf(cfg, es),
        es.len() <= cfg.cap + 1,
        1 <= half.len() < es.len(),
        pv.len() == cfg.dim,
        idx.len() == half.len(),
        forall|t: int|
            0 <= t < idx.len() ==> {
                let e = #[trigger] half[t];
                &&& 0 <= idx[t] < es.len()
                &&& e.vector == es[idx[t]].vector
                &&& e.docs == es[idx[t]].docs
                &&& e.parent_dist is Some
                &&& e.parent_dist->Some_0 == dist(cfg.kind, e.vector, pv)
                &&& dist(cfg.kind, e.vector, pv) <= r
            },
        forall|s: int, t: int| 0 <= s < t < idx.len() ==> idx[s] < idx[t],
    ensures
        leaf_ok(cfg, half, Some(pv)),
        forall|p: Pair| #[trigger] leaf_pairs(half).count(p) > 0 ==> dist(cfg.kind, pv, p.0) <= r,
{
    assert forall|i: int| 0 <= i < half.len() implies {
        let e = #[trigger] half[i];
        &&& e.vector.len() == cfg.dim
        &&& is_point(e.vector)
        &&& e.docs.len() >= 1
        &&& e.docs.no_duplicates()
        &&& parent_dist_ok(cfg.kind, e.vector, Some(pv), e.parent_dist)
    } by {
        let e0 = es[idx[i]];
        assert(e0.vector.len() == cfg.dim);
    }
    assert forall|i: int, j: int| 0 <= i < j < half.len() implies (#[trigger] half[i]).vector != (
    #[trigger] half[j]).vector by {
        assert(idx[i] < idx[j]);
        assert(es[idx[i]].vector != es[idx[j]].vector);
    }
    assert forall|p: Pair| #[trigger] leaf_pairs(half).count(p) > 0 implies dist(cfg.kind, pv, p.0)
        <= r by {
        lemma_leaf_pairs_member(half, p);
        let t = choose|t: int| 0 <= t < half.len() && (#[trigger] half[t]).vector == p.0 && half[t].docs.contains(p.1);
        assert(es[idx[t]].vector.len() == cfg.dim);
        lemma_dist_symmetric(cfg.kind, pv, p.0);
    }
}

/// Divides the entries of a leaf that has one entry too many between the
/// node `id` and a new node, and says how the parent is to refer to the two.
pub(crate) fn split_leaf(
    kind: Distance,
    store: &mut NodeStore,
    tx: &Transaction,
    id: NodeId,
    entries: Vec<LeafEntry>,
    Ghost(cfg): Ghost<Config>,
) -> (r: Result<(Promoted, Promoted), IndexError>)
    requires
        cfg.kind == kind,
        old(store).wf(tx),
        old(store).writable(),
        id < old(store).next(),
        old(store).next() < usize::MAX,
        2 <= entries@.len() <= cfg.cap + 1,
        loose_leaf(cfg, leaf_views(entries@)),
    ensures
        final(store).wf(tx),
        final(store).writable(),
        final(store).next() == old(store).next() + 1,
        r is Ok,
        r is Ok ==> {
            let a = r->Ok_0.0;
            let b = r->Ok_0.1;
            let m1 = final(store).nodes(tx);
            &&& a.node == id
            &&& b.node == old(store).next()
            &&& half_ok(m1, cfg, 0, a@)
            &&& half_ok(m1, cfg, 0, b@)
            &&& subtree_pairs(m1, a.node, 0).add(subtree_pairs(m1, b.node, 0)) == leaf_pairs(
                leaf_views(entries@),
            )
            &&& changed_two(old(store).nodes(tx), m1, id, b.node)
            &&& exists|i: int, j: int|
                leaf_split_at(kind, leaf_views(entries@), i, j, a@, b@, old(store).nodes(tx), m1)
        },
{
    let ghost m0 = store.nodes(tx);
    let ghost es = leaf_views(entries@);
    let n: usize = entries.len();
    let points = leaf_points(&entries);
    let ghost pts = point_views(points@);
    proof {
        assert forall|t: int| 0 <= t < pts.len() implies (#[trigger] pts[t]).len() == cfg.dim by {
            assert(es[t].vector == pts[t]);
        }
        assert(all_dim(pts, cfg.dim));
        assert(pts =~= leaf_vectors(es));
    }
    let (pi, pj) = promote(kind, &points);
    let plan = assign(kind, &points, pi, pj);
    let pivot_a = points[pi].clone();
    let pivot_b = points[pj].clone();
    let ghost pa = pts[pi as int];
    let ghost pb = pts[pj as int];
    let mut first: Vec<LeafEntry> = Vec::new();
    let mut second: Vec<LeafEntry> = Vec::new();
    let mut ra: u128 = 0;
    let mut rb: u128 = 0;
    let ghost mut ia: Seq<int> = Seq::empty();
    let ghost mut ib: Seq<int> = Seq::empty();
    let mut k: usize = 0;
    proof {
        assert(es.take(0) =~= Seq::<LeafEntryView>::empty());
        assert(leaf_pairs(leaf_views(first@)).add(leaf_pairs(leaf_views(second@))) =~= leaf_pairs(
            es.take(0),
        ));
    }
    while k < n
        invariant
            n == entries@.len(),
            es == leaf_views(entries@),
            loose_leaf(cfg, es),
            pts == point_views(points@),
            pts == leaf_vectors(es),
            leaf_views(first@) == leaf_half(kind, es, pi as int, pj as int, k as nat, true),
            leaf_views(second@) == leaf_half(kind, es, pi as int, pj as int, k as nat, false),
            ra == leaf_reach(leaf_views(first@)),
            rb == leaf_reach(leaf_views(second@)),
            points@.len() == n,
            forall|t: int| 0 <= t < n ==> #[trigger] pts[t] == es[t].vector,
            pi < pj,
            pj < n,
            pa == pts[pi as int],
            pb == pts[pj as int],
            plan@.len() == n,
            forall|t: int|
                0 <= t < n ==> #[trigger] plan@[t] == side_of(kind, pts, pi as int, pj as int, t),
            k <= n,
            first@.len() + second@.len() == k,
            ia.len() == first@.len(),
            ib.len() == second@.len(),
            pi < k ==> first@.len() >= 1,
            pj < k ==> second@.len() >= 1,
            forall|t: int|
                0 <= t < ia.len() ==> {
                    let e = #[trigger] leaf_views(first@)[t];
                    &&& 0 <= ia[t] < k
                    &&& e.vector == es[ia[t]].vector
                    &&& e.docs == es[ia[t]].docs
                    &&& e.parent_dist is Some
                    &&& e.parent_dist->Some_0 == dist(kind, e.vector, pa)
                    &&& dist(kind, e.vector, pa) <= ra
                },
            forall|s: int, t: int| 0 <= s < t < ia.len() ==> ia[s] < ia[t],
            forall|t: int|
                0 <= t < ib.len() ==> {
                    let e = #[trigger] leaf_views(second@)[t];
                    &&& 0 <= ib[t] < k
                    &&& e.vector == es[ib[t]].vector
                    &&& e.docs == es[ib[t]].docs
                    &&& e.parent_dist is Some
                    &&& e.parent_dist->Some_0 == dist(kind, e.vector, pb)
                    &&& dist(kind, e.vector, pb) <= rb
                },
            forall|s: int, t: int| 0 <= s < t < ib.len() ==> ib[s] < ib[t],
            leaf_pairs(leaf_views(first@)).add(leaf_pairs(leaf_views(second@))) == leaf_pairs(
                es.take(k as int),
            ),
        decreases n - k,
    {
        let e = &entries[k];
        let side: Side = plan[k];
        let ne = LeafEntry {
            vector: e.vector.clone(),
            docs: copy_docs(&e.docs),
            parent_dist: Some(side.dist),
        };
        proof {
            assert(es[k as int] == entries@[k as int]@);
            assert(pts[k as int] == es[k as int].vector);
            assert(es[pi as int].vector == pa && es[pj as int].vector == pb);
            lemma_dist_bound(kind, pts[k as int], pa);
            lemma_dist_bound(kind, pts[k as int], pb);
            assert(es.take(k + 1) =~= es.take(k as int).push(es[k as int]));
            lemma_leaf_pairs_push(es.take(k as int), es[k as int]);
        }
        let ghost fa = leaf_views(first@);
        let ghost fb = leaf_views(second@);
        if side.first {
            if side.dist > ra {
                ra = side.dist;
            }
            first.push(ne);
            proof {
                ia = ia.push(k as int);
                assert(leaf_views(first@) =~= fa.push(ne@));
                assert(leaf_views(first@).drop_last() =~= fa);
                lemma_leaf_pairs_push(fa, ne@);
                assert(leaf_pairs(leaf_views(first@)).add(leaf_pairs(leaf_views(second@)))
                    =~= leaf_pairs(es.take(k + 1)));
                assert forall|t: int| 0 <= t < ia.len() implies {
                    let e = #[trigger] leaf_views(first@)[t];
                    &&& 0 <= ia[t] < k + 1
                    &&& e.vector == es[ia[t]].vector
                    &&& e.docs == es[ia[t]].docs
                    &&& e.parent_dist is Some
                    &&& e.parent_dist->Some_0 == dist(kind, e.vector, pa)
                    &&& dist(kind, e.vector, pa) <= ra
                } by {
                    if t < fa.len() {
                        assert(leaf_views(first@)[t] == fa[t]);
                    }
                }
            }
        } else {
            if side.dist > rb {
                rb = side.dist;
            }
            second.push(ne);
            proof {
                ib = ib.push(k as int);
                assert(leaf_views(second@) =~= fb.push(ne@));
                assert(leaf_views(second@).drop_last() =~= fb);
                lemma_leaf_pairs_push(fb, ne@);
                assert(leaf_pairs(leaf_views(first@)).add(leaf_pairs(leaf_views(second@)))
                    =~= leaf_pairs(es.take(k + 1)));
                assert forall|t: int| 0 <= t < ib.len() implies {
                    let e = #[trigger] leaf_views(second@)[t];
                    &&& 0 <= ib[t] < k + 1
                    &&& e.vector == es[ib[t]].vector
                    &&& e.docs == es[ib[t]].docs
                    &&& e.parent_dist is Some
                    &&& e.parent_dist->Some_0 == dist(kind, e.vector, pb)
                    &&& dist(kind, e.vector, pb) <= rb
                } by {
                    if t < fb.len() {
                        assert(leaf_views(second@)[t] == fb[t]);
                    }
                }
            }
        }
        k = k + 1;
    }
    let ghost fa = leaf_views(first@);
    let ghost fb = leaf_views(second@);
    proof {
        assert(es.take(n as int) =~= es);
        assert(es[pi as int].vector == pa && es[pj as int].vector == pb);
        lemma_half_leaf(cfg, es, fa, ia, pa, ra);
        lemma_half_leaf(cfg, es, fb, ib, pb, rb);
    }
    let r1 = put(store, tx, id, Node::Leaf(first));
    let ghost ma = store.nodes(tx);
    let new_id = match fresh_id(store, tx) {
        Ok(x) => x,
        Err(e) => {
            return Err(e);
        },
    };
    let r2 = put(store, tx, new_id, Node::Leaf(second));
    let a = Promoted { pivot: pivot_a, radius: ra, node: id };
    let b = Promoted { pivot: pivot_b, radius: rb, node: new_id };
    proof {
        let m1 = store.nodes(tx);
        assert(ma == m0.insert(id, NodeView::Leaf(fa)));
        assert(m1 == ma.insert(new_id, NodeView::Leaf(fb)));
        assert(m1[id] == NodeView::Leaf(fa));
        assert(m1[new_id] == NodeView::Leaf(fb));
        assert(subtree_pairs(m1, id, 0) == leaf_pairs(fa));
        assert(subtree_pairs(m1, new_id, 0) == leaf_pairs(fb));
        assert(is_farthest_pair(kind, leaf_vectors(es), pi as int, pj as int));
        assert(leaf_vectors(es)[pi as int] == es[pi as int].vector);
        assert(leaf_vectors(es)[pj as int] == es[pj as int].vector);
        assert(leaf_split_at(kind, es, pi as int, pj as int, a@, b@, m0, m1));
    }
    Ok((a, b))
}

/// One half of the entries of a routing node, with its distances recorded
/// against the pivot `pv`, makes good entries within the radius `r`.
pub proof fn lemma_half_routing(
    m: Nodes,
    cfg: Config,
    es: Seq<RoutingEntryView>,
    half: Seq<RoutingEntryView>,
    idx: Seq<int>,
    pv: Seq<int>,
    r: u128,
    h: nat,
)
    requires
        kids(m, cfg, es, h),
        es.len() <= cfg.cap + 1,
        1 <= half.len() < es.len(),
        pv.len() == cfg.dim,
        is_point(pv),
        selection(es, half, idx),
        forall|t: int|
            0 <= t < half.len() ==> {
                let e = #[trigger] half[t];
                &&& e.parent_dist is Some
                &&& e.parent_dist->Some_0 == dist(cfg.kind, e.pivot, pv)
                &&& (dist(cfg.kind, e.pivot, pv) + e.radius <= r || r == u128::MAX)
            },
    ensures
        routing_ok(cfg, half, Some(pv)),
        kids(m, cfg, half, h),
        forall|p: Pair| #[trigger] children_pairs(m, half, h).count(p) > 0 ==> dist(cfg.kind, pv, p.0) <= r,
{
    lemma_select_kids(m, cfg, es, h, half, idx);
    assert forall|i: int| 0 <= i < half.len() implies {
        let e = #[trigger] half[i];
        &&& e.pivot.len() == cfg.dim
        &&& is_point(e.pivot)
        &&& parent_dist_ok(cfg.kind, e.pivot, Some(pv), e.parent_dist)
    } by {
        assert(es[idx[i]].pivot.len() == cfg.dim);
    }
    assert forall|p: Pair| #[trigger] children_pairs(m, half, h).count(p) > 0 implies dist(
        cfg.kind,
        pv,
        p.0,
    ) <= r by {
        lemma_children_pairs_member(m, half, h, p);
        let t = choose|t: int|
            0 <= t < half.len() && subtree_pairs(m, (#[trigger] half[t]).child, h).count(p) > 0;
        let e = half[t];
        assert(wf_subtree(m, cfg, e.child, h, Some(e.pivot)));
        assert(covers(m, cfg.kind, e.child, h, e.pivot, e.radius as int));
        lemma_pairs_are_points(m, cfg, e.child, h, Some(e.pivot), p);
        lemma_dist_triangle(cfg.kind, pv, e.pivot, p.0);
        lemma_dist_symmetric(cfg.kind, pv, e.pivot);
        lemma_dist_bound(cfg.kind, pv, p.0);
    }
}

/// Writing the two halves of a routing node, the first under the node's own
/// identifier and the second under a new one, makes two well-formed
/// subtrees that share no node.
pub proof fn lemma_two_halves(
    m0: Nodes,
    cfg: Config,
    id: NodeId,
    new_id: NodeId,
    es: Seq<RoutingEntryView>,
    fa: Seq<RoutingEntryView>,
    ia: Seq<int>,
    pa: Seq<int>,
    fb: Seq<RoutingEntryView>,
    ib: Seq<int>,
    pb: Seq<int>,
    h: nat,
)
    requires
        kids(m0, cfg, es, h),
        apart(m0, es, h, id),
        keys_below(m0, new_id as nat),
        id < new_id,
        selection(es, fa, ia),
        selection(es, fb, ib),
        forall|s: int, t: int| 0 <= s < ia.len() && 0 <= t < ib.len() ==> ia[s] != ib[t],
        routing_ok(cfg, fa, Some(pa)),
        routing_ok(cfg, fb, Some(pb)),
        kids(m0, cfg, fa, h),
        kids(m0, cfg, fb, h),
    ensures
        ({
            let m1 = m0.insert(id, NodeView::Routing(fa)).insert(new_id, NodeView::Routing(fb));
            &&& wf_subtree(m1, cfg, id, h + 1, Some(pa))
            &&& wf_subtree(m1, cfg, new_id, h + 1, Some(pb))
            &&& subtree_pairs(m1, id, h + 1) == children_pairs(m0, fa, h)
            &&& subtree_pairs(m1, new_id, h + 1) == children_pairs(m0, fb, h)
            &&& forall|x: NodeId| in_subtree(m1, id, h + 1, x) ==> x == id || below_any(m0, es, h, x)
            &&& forall|x: NodeId|
                in_subtree(m1, new_id, h + 1, x) ==> x == new_id || below_any(m0, es, h, x)
            &&& forall|x: NodeId|
                !(#[trigger] in_subtree(m1, id, h + 1, x) && in_subtree(m1, new_id, h + 1, x))
        }),
{
    let ma = m0.insert(id, NodeView::Routing(fa));
    let m1 = ma.insert(new_id, NodeView::Routing(fb));
    lemma_select_kids(m0, cfg, es, h, fa, ia);
    lemma_select_kids(m0, cfg, es, h, fb, ib);
    assert(apart(m0, fa, h, id)) by {
        assert forall|t: int| 0 <= t < fa.len() implies !in_subtree(m0, (#[trigger] fa[t]).child, h, id) by {
            assert(fa[t].child == es[ia[t]].child);
        }
    }
    assert(apart(m0, fb, h, id)) by {
        assert forall|t: int| 0 <= t < fb.len() implies !in_subtree(m0, (#[trigger] fb[t]).child, h, id) by {
            assert(fb[t].child == es[ib[t]].child);
        }
    }
    lemma_assemble_routing(m0, cfg, id, fa, h, Some(pa));
    assert forall|t: int| 0 <= t < fb.len() implies agree_on(
        m0,
        ma,
        (#[trigger] fb[t]).child,
        h,
    ) by {
        assert forall|x: NodeId|
            #[trigger] in_subtree(m0, fb[t].child, h, x) && m0.contains_key(x) implies ma.contains_key(
            x,
        ) && ma[x] == m0[x] by {
            assert(x != id);
        }
    }
    lemma_kids_frame(m0, ma, cfg, fb, h);
    assert(apart(ma, fb, h, new_id)) by {
        assert forall|t: int| 0 <= t < fb.len() implies !in_subtree(ma, (#[trigger] fb[t]).child, h, new_id) by {
            if in_subtree(m0, fb[t].child, h, new_id) {
                lemma_subtree_keys(m0, cfg, fb[t].child, h, Some(fb[t].pivot), new_id);
            }
        }
    }
    lemma_assemble_routing(ma, cfg, new_id, fb, h, Some(pb));
    assert forall|x: NodeId| below_any(m0, fa, h, x) implies m0.contains_key(x) && x != new_id by {
        let t = choose|t: int| 0 <= t < fa.len() && in_subtree(m0, (#[trigger] fa[t]).child, h, x);
        lemma_subtree_keys(m0, cfg, fa[t].child, h, Some(fa[t].pivot), x);
    }
    assert(agree_on(ma, m1, id, h + 1)) by {
        assert forall|x: NodeId|
            #[trigger] in_subtree(ma, id, h + 1, x) && ma.contains_key(x) implies m1.contains_key(x)
            && m1[x] == ma[x] by {
            assert(x == id || below_any(m0, fa, h, x));
        }
    }
    lemma_frame(ma, m1, cfg, id, h + 1, Some(pa));
    assert forall|x: NodeId|
        !(#[trigger] in_subtree(m1, id, h + 1, x) && in_subtree(m1, new_id, h + 1, x)) by {
        if in_subtree(m1, id, h + 1, x) && in_subtree(m1, new_id, h + 1, x) {
            assert(x == id || below_any(m0, fa, h, x));
            assert(x == new_id || below_any(m0, fb, h, x));
            assert(x != new_id);
            let t = choose|t: int| 0 <= t < fb.len() && in_subtree(m0, (#[trigger] fb[t]).child, h, x);
            assert(fb[t].child == es[ib[t]].child);
            if x == id {
                assert(!in_subtree(m0, es[ib[t]].child, h, id));
            } else {
                let s = choose|s: int| 0 <= s < fa.len() && in_subtree(m0, (#[trigger] fa[s]).child, h, x);
                assert(fa[s].child == es[ia[s]].child);
                assert(ia[s] != ib[t]);
                assert(!(in_subtree(m0, es[ia[s]].child, h, x) && in_subtree(m0, es[ib[t]].child, h, x)));
            }
        }
    }
}

/// Divides the entries of a routing node that has one entry too many
/// between the node `id` and a new node, and says how the parent is to
/// refer to the two. The radius of a half reaches every child's radius
/// from the pivot of the half.
pub(crate) fn split_routing(
    kind: Distance,
    store: &mut NodeStore,
    tx: &Transaction,
    id: NodeId,
    entries: Vec<RoutingEntry>,
    Ghost(cfg): Ghost<Config>,
    Ghost(h): Ghost<nat>,
) -> (r: Result<(Promoted, Promoted), IndexError>)
    requires
        cfg.kind == kind,
        old(store).wf(tx),
        old(store).writable(),
        id < old(store).next(),
        old(store).next() < usize::MAX,
        2 <= entries@.len() <= cfg.cap + 1,
        kids(old(store).nodes(tx), cfg, routing_views(entries@), h),
        apart(old(store).nodes(tx), routing_views(entries@), h, id),
    ensures
        final(store).wf(tx),
        final(store).writable(),
        final(store).next() == old(store).next() + 1,
        r is Ok,
        r is Ok ==> {
            let a = r->Ok_0.0;
            let b = r->Ok_0.1;
            let m0 = old(store).nodes(tx);
            let m1 = final(store).nodes(tx);
            let es = routing_views(entries@);
            &&& a.node == id
            &&& b.node == old(store).next()
            &&& half_ok(m1, cfg, h + 1, a@)
            &&& half_ok(m1, cfg, h + 1, b@)
            &&& subtree_pairs(m1, a.node, h + 1).add(subtree_pairs(m1, b.node, h + 1)) == children_pairs(
                m0,
                es,
                h,
            )
            &&& forall|x: NodeId| in_subtree(m1, a.node, h + 1, x) ==> x == id || below_any(m0, es, h, x)
            &&& forall|x: NodeId|
                in_subtree(m1, b.node, h + 1, x) ==> x == b.node || below_any(m0, es, h, x)
            &&& forall|x: NodeId|
                !(#[trigger] in_subtree(m1, a.node, h + 1, x) && in_subtree(m1, b.node, h + 1, x))
            &&& changed_two(m0, m1, id, b.node)
            &&& exists|i: int, j: int| routing_split_at(kind, es, i, j, a@, b@, m0, m1)
        },
{
    let ghost m0 = store.nodes(tx);
    let ghost es = routing_views(entries@);
    let n: usize = entries.len();
    let points = routing_points(&entries);
    let ghost pts = point_views(points@);
    proof {
        store.lemma_nodes_bounded(tx);
        assert forall|t: int| 0 <= t < pts.len() implies (#[trigger] pts[t]).len() == cfg.dim by {
            assert(es[t].pivot == pts[t]);
        }
        assert(all_dim(pts, cfg.dim));
        assert(pts =~= pivots(es));
    }
    let (pi, pj) = promote(kind, &points);
    let plan = assign(kind, &points, pi, pj);
    let pivot_a = points[pi].clone();
    let pivot_b = points[pj].clone();
    let ghost pa = pts[pi as int];
    let ghost pb = pts[pj as int];
    let mut first: Vec<RoutingEntry> = Vec::new();
    let mut second: Vec<RoutingEntry> = Vec::new();
    let mut ra: u128 = 0;
    let mut rb: u128 = 0;
    let ghost mut ia: Seq<int> = Seq::empty();
    let ghost mut ib: Seq<int> = Seq::empty();
    let mut k: usize = 0;
    proof {
        assert(es.take(0) =~= Seq::<RoutingEntryView>::empty());
        assert(children_pairs(m0, routing_views(first@), h).add(
            children_pairs(m0, routing_views(second@), h),
        ) =~= children_pairs(m0, es.take(0), h));
    }
    while k < n
        invariant
            n == entries@.len(),
            es == routing_views(entries@),
            kids(m0, cfg, es, h),
            pts == point_views(points@),
            pts == pivots(es),
            routing_views(first@) == routing_half(kind, es, pi as int, pj as int, k as nat, true),
            routing_views(second@) == routing_half(kind, es, pi as int, pj as int, k as nat, false),
            ra == routing_reach(routing_views(first@)),
            rb == routing_reach(routing_views(second@)),
            points@.len() == n,
            forall|t: int| 0 <= t < n ==> #[trigger] pts[t] == es[t].pivot,
            pi < pj,
            pj < n,
            pa == pts[pi as int],
            pb == pts[pj as int],
            plan@.len() == n,
            forall|t: int|
                0 <= t < n ==> #[trigger] plan@[t] == side_of(kind, pts, pi as int, pj as int, t),
            k <= n,
            cfg.kind == kind,
            first@.len() + second@.len() == k,
            ia.len() == first@.len(),
            ib.len() == second@.len(),
            pi < k ==> first@.len() >= 1,
            pj < k ==> second@.len() >= 1,
            forall|t: int|
                0 <= t < ia.len() ==> {
                    let e = #[trigger] routing_views(first@)[t];
                    &&& 0 <= ia[t] < k
                    &&& e.pivot == es[ia[t]].pivot
                    &&& e.radius == es[ia[t]].radius
                    &&& e.child == es[ia[t]].child
                    &&& e.parent_dist is Some
                    &&& e.parent_dist->Some_0 == dist(kind, e.pivot, pa)
                    &&& (dist(kind, e.pivot, pa) + e.radius <= ra || ra == u128::MAX)
                    &&& plan@[ia[t]].first
                },
            forall|s: int, t: int| 0 <= s < t < ia.len() ==> ia[s] < ia[t],
            forall|t: int|
                0 <= t < ib.len() ==> {
                    let e = #[trigger] routing_views(second@)[t];
                    &&& 0 <= ib[t] < k
                    &&& e.pivot == es[ib[t]].pivot
                    &&& e.radius == es[ib[t]].radius
                    &&& e.child == es[ib[t]].child
                    &&& e.parent_dist is Some
                    &&& e.parent_dist->Some_0 == dist(kind, e.pivot, pb)
                    &&& (dist(kind, e.pivot, pb) + e.radius <= rb || rb == u128::MAX)
                    &&& !plan@[ib[t]].first
                },
            forall|s: int, t: int| 0 <= s < t < ib.len() ==> ib[s] < ib[t],
            children_pairs(m0, routing_views(first@), h).add(
                children_pairs(m0, routing_views(second@), h),
            ) == children_pairs(m0, es.take(k as int), h),
        decreases n - k,
    {
        let e = &entries[k];
        let side: Side = plan[k];
        let ne = RoutingEntry {
            pivot: e.pivot.clone(),
            radius: e.radius,
            child: e.child,
            parent_dist: Some(side.dist),
        };
        let reach: u128 = if side.dist <= u128::MAX - e.radius {
            side.dist + e.radius
        } else {
            u128::MAX
        };
        proof {
            assert(es[k as int] == entries@[k as int]@);
            assert(pts[k as int] == es[k as int].pivot);
            assert(es[pi as int].pivot == pa && es[pj as int].pivot == pb);
            assert(es[k as int].pivot.len() == cfg.dim);
            assert(es[pi as int].pivot.len() == cfg.dim);
            assert(es[pj as int].pivot.len() == cfg.dim);
            lemma_dist_bound(kind, pts[k as int], pa);
            lemma_dist_bound(kind, pts[k as int], pb);
            assert(es.take(k + 1) =~= es.take(k as int).push(es[k as int]));
            lemma_children_pairs_push(m0, es.take(k as int), es[k as int], h);
        }
        let ghost fa = routing_views(first@);
        let ghost fb = routing_views(second@);
        if side.first {
            if reach > ra {
                ra = reach;
            }
            first.push(ne);
            proof {
                ia = ia.push(k as int);
                assert(routing_views(first@) =~= fa.push(ne@));
                assert(routing_views(first@).drop_last() =~= fa);
                assert(reach == capped_sum(side.dist, ne@.radius));
                lemma_children_pairs_push(m0, fa, ne@, h);
                assert(children_pairs(m0, routing_views(first@), h).add(
                    children_pairs(m0, routing_views(second@), h),
                ) =~= children_pairs(m0, es.take(k + 1), h));
                assert forall|t: int| 0 <= t < ia.len() implies {
                    let e = #[trigger] routing_views(first@)[t];
                    &&& 0 <= ia[t] < k + 1
                    &&& e.pivot == es[ia[t]].pivot
                    &&& e.radius == es[ia[t]].radius
                    &&& e.child == es[ia[t]].child
                    &&& e.parent_dist is Some
                    &&& e.parent_dist->Some_0 == dist(kind, e.pivot, pa)
                    &&& (dist(kind, e.pivot, pa) + e.radius <= ra || ra == u128::MAX)
                    &&& plan@[ia[t]].first
                } by {
                    if t < fa.len() {
                        assert(routing_views(first@)[t] == fa[t]);
                    }
                }
            }
        } else {
            if reach > rb {
                rb = reach;
            }
            second.push(ne);
            proof {
                ib = ib.push(k as int);
                assert(routing_views(second@) =~= fb.push(ne@));
                assert(routing_views(second@).drop_last() =~= fb);
                assert(reach == capped_sum(side.dist, ne@.radius));
                lemma_children_pairs_push(m0, fb, ne@, h);
                assert(children_pairs(m0, routing_views(first@), h).add(
                    children_pairs(m0, routing_views(second@), h),
                ) =~= children_pairs(m0, es.take(k + 1), h));
                assert forall|t: int| 0 <= t < ib.len() implies {
                    let e = #[trigger] routing_views(second@)[t];
                    &&& 0 <= ib[t] < k + 1
                    &&& e.pivot == es[ib[t]].pivot
                    &&& e.radius == es[ib[t]].radius
                    &&& e.child == es[ib[t]].child
                    &&& e.parent_dist is Some
                    &&& e.parent_dist->Some_0 == dist(kind, e.pivot, pb)
                    &&& (dist(kind, e.pivot, pb) + e.radius <= rb || rb == u128::MAX)
                    &&& !plan@[ib[t]].first
                } by {
                    if t < fb.len() {
                        assert(routing_views(second@)[t] == fb[t]);
                    }
                }
            }
        }
        k = k + 1;
    }
    let ghost fa = routing_views(first@);
    let ghost fb = routing_views(second@);
    proof {
        assert(es.take(n as int) =~= es);
        assert(es[pi as int].pivot == pa && es[pj as int].pivot == pb);
        assert(es[pi as int].pivot.len() == cfg.dim && es[pj as int].pivot.len() == cfg.dim);
        assert(selection(es, fa, ia)) by {
            assert forall|t: int| 0 <= t < fa.len() implies {
                &&& 0 <= #[trigger] ia[t] < es.len()
                &&& fa[t].pivot == es[ia[t]].pivot
                &&& fa[t].radius == es[ia[t]].radius
                &&& fa[t].child == es[ia[t]].child
            } by {
                let e = routing_views(first@)[t];
            }
        }
        assert(selection(es, fb, ib)) by {
            assert forall|t: int| 0 <= t < fb.len() implies {
                &&& 0 <= #[trigger] ib[t] < es.len()
                &&& fb[t].pivot == es[ib[t]].pivot
                &&& fb[t].radius == es[ib[t]].radius
                &&& fb[t].child == es[ib[t]].child
            } by {
                let e = routing_views(second@)[t];
            }
        }
        assert forall|s: int, t: int| 0 <= s < ia.len() && 0 <= t < ib.len() implies ia[s] != ib[t] by {
            let e1 = routing_views(first@)[s];
            let e2 = routing_views(second@)[t];
            assert(plan@[ia[s]].first && !plan@[ib[t]].first);
        }
        lemma_half_routing(m0, cfg, es, fa, ia, pa, ra, h);
        lemma_half_routing(m0, cfg, es, fb, ib, pb, rb, h);
    }
    let r1 = put(store, tx, id, Node::Routing(first));
    let new_id = match fresh_id(store, tx) {
        Ok(x) => x,
        Err(e) => {
            return Err(e);
        },
    };
    let r2 = put(store, tx, new_id, Node::Routing(second));
    let a = Promoted { pivot: pivot_a, radius: ra, node: id };
    let b = Promoted { pivot: pivot_b, radius: rb, node: new_id };
    proof {
        let m1 = store.nodes(tx);
        assert(m1 == m0.insert(id, NodeView::Routing(fa)).insert(new_id, NodeView::Routing(fb)));
        lemma_two_halves(m0, cfg, id, new_id, es, fa, ia, pa, fb, ib, pb, h);
        assert(is_farthest_pair(kind, pivots(es), pi as int, pj as int));
        assert(pivots(es)[pi as int] == es[pi as int].pivot);
        assert(pivots(es)[pj as int] == es[pj as int].pivot);
        assert(m1[id] == NodeView::Routing(fa));
        assert(m1[new_id] == NodeView::Routing(fb));
        assert(routing_split_at(kind, es, pi as int, pj as int, a@, b@, m0, m1));
    }
    Ok((a, b))
}

} // verus!
