//! What holds of every well-formed tree and of every search result.

use vstd::prelude::*;
use vstd::multiset::Multiset;
use crate::descent::{leaf_has_pair, leaf_has_point, target_leaf};
use crate::mtree::{inserted, single_entry, MTree};
use crate::node::{DocId, NodeId, NodeView};
use crate::outcome::placed;
use crate::search::{
    hit_count,
    hit_le,
    hit_lt,
    hit_of,
    is_knn,
    lemma_hit_count_insert,
    lemma_hit_count_witness,
    occurs,
    Hit,
};
use crate::tree::{covers, in_subtree, leaf_ok, subtree_pairs, wf_subtree, Config, Nodes, Pair};
use crate::vector::{accumulate, dist, lemma_rounded_monotonic, rounded, Distance};

verus! {

/// The node `x` holds at least one entry and no more than the capacity.
pub open spec fn within_capacity(m: Nodes, cfg: Config, x: NodeId) -> bool {
    m.contains_key(x) && match m[x] {
        NodeView::Leaf(es) => 1 <= es.len() <= cfg.cap,
        NodeView::Routing(es) => 1 <= es.len() <= cfg.cap,
    }
}

/// Every entry of the node `x`, if it is a routing node that stands `hx`
/// levels above the leaves, has a radius that reaches every vector stored
/// below its child.
pub open spec fn radii_cover(m: Nodes, cfg: Config, x: NodeId, hx: nat) -> bool {
    match m[x] {
        NodeView::Leaf(_) => hx == 0,
        NodeView::Routing(es) => hx > 0 && forall|i: int, p: Pair|
            0 <= i < es.len() && #[trigger] subtree_pairs(m, es[i].child, (hx - 1) as nat).count(p) > 0
                ==> dist(cfg.kind, es[i].pivot, p.0) <= es[i].radius,
    }
}

/// Capacity: no node of a well-formed tree holds more entries than the
/// capacity, and none is empty.
pub proof fn lemma_capacity(tree: MTree, m: Nodes, x: NodeId)
    requires
        tree.wf(m),
        tree.root() is Some,
        in_subtree(m, tree.root()->Some_0, tree.levels() as nat, x),
    ensures
        within_capacity(m, tree.config(m), x),
{
    lemma_capacity_below(m, tree.config(m), tree.root()->Some_0, tree.levels() as nat, None, x);
}

/// As [`lemma_capacity`], below any node of the tree.
proof fn lemma_capacity_below(m: Nodes, cfg: Config, id: NodeId, h: nat, parent: Option<Seq<int>>, x: NodeId)
    requires
        wf_subtree(m, cfg, id, h, parent),
        in_subtree(m, id, h, x),
    ensures
        within_capacity(m, cfg, x),
    decreases h,
{
    if x != id {
        let es = m[id]->Routing_0;
        let i = choose|i: int| 0 <= i < es.len() && in_subtree(m, (#[trigger] es[i]).child, (h - 1) as nat, x);
        lemma_capacity_below(m, cfg, es[i].child, (h - 1) as nat, Some(es[i].pivot), x);
    }
}

/// Coverage: for every routing entry of a well-formed tree, the distance
/// from its pivot to every vector stored below it is at most its radius.
pub proof fn lemma_coverage(tree: MTree, m: Nodes, x: NodeId)
    requires
        tree.wf(m),
        tree.root() is Some,
        in_subtree(m, tree.root()->Some_0, tree.levels() as nat, x),
    ensures
        exists|hx: nat| hx <= tree.levels() && radii_cover(m, tree.config(m), x, hx),
{
    lemma_coverage_below(m, tree.config(m), tree.root()->Some_0, tree.levels() as nat, None, x);
}

/// As [`lemma_coverage`], below any node of the tree.
proof fn lemma_coverage_below(m: Nodes, cfg: Config, id: NodeId, h: nat, parent: Option<Seq<int>>, x: NodeId)
    requires
        wf_subtree(m, cfg, id, h, parent),
        in_subtree(m, id, h, x),
    ensures
        exists|hx: nat| hx <= h && radii_cover(m, cfg, x, hx),
    decreases h,
{
    if x == id {
        match m[id] {
            NodeView::Leaf(_) => {},
            NodeView::Routing(es) => {
                assert forall|i: int, p: Pair|
                    0 <= i < es.len() && #[trigger] subtree_pairs(m, es[i].child, (h - 1) as nat).count(p)
                        > 0 implies dist(cfg.kind, es[i].pivot, p.0) <= es[i].radius by {
                    assert(covers(m, cfg.kind, es[i].child, (h - 1) as nat, es[i].pivot, es[i].radius as int));
                }
            },
        }
        assert(radii_cover(m, cfg, x, h));
    } else {
        let es = m[id]->Routing_0;
        let i = choose|i: int| 0 <= i < es.len() && in_subtree(m, (#[trigger] es[i]).child, (h - 1) as nat, x);
        lemma_coverage_below(m, cfg, es[i].child, (h - 1) as nat, Some(es[i].pivot), x);
        let hx = choose|hx: nat| hx <= (h - 1) as nat && radii_cover(m, cfg, x, hx);
        assert(hx <= h && radii_cover(m, cfg, x, hx));
    }
}

/// Any two hits compare one way or the other, or they are the same hit.
pub proof fn lemma_hits_total(a: Hit, b: Hit)
    ensures
        hit_lt(a, b) || hit_lt(b, a) || a == b,
        hit_lt(a, b) ==> hit_le(a, b) && !hit_le(b, a),
{
}

/// A hit occurs in two sequences put together as often as in both.
proof fn lemma_occurs_add(a: Seq<Hit>, b: Seq<Hit>, c: Hit)
    ensures
        occurs(a + b, c) == occurs(a, c) + occurs(b, c),
    decreases b.len(),
{
    if b.len() == 0 {
        assert(a + b =~= a);
    } else {
        assert((a + b).drop_last() =~= a + b.drop_last());
        assert((a + b).last() == b.last());
        lemma_occurs_add(a, b.drop_last(), c);
    }
}

/// A hit that differs from every element does not occur.
proof fn lemma_occurs_none(s: Seq<Hit>, c: Hit)
    requires
        forall|j: int| 0 <= j < s.len() ==> s[j] != c,
    ensures
        occurs(s, c) == 0,
    decreases s.len(),
{
    if s.len() > 0 {
        assert forall|j: int| 0 <= j < s.drop_last().len() implies s.drop_last()[j] != c by {
            assert(s.drop_last()[j] == s[j]);
        }
        lemma_occurs_none(s.drop_last(), c);
    }
}

/// Every element occurs.
proof fn lemma_occurs_some(s: Seq<Hit>, i: int)
    requires
        0 <= i < s.len(),
    ensures
        occurs(s, s[i]) >= 1,
    decreases s.len(),
{
    if i < s.len() - 1 {
        assert(s.drop_last()[i] == s[i]);
        lemma_occurs_some(s.drop_last(), i);
    }
}

/// Of two results that agree up to a position, neither has the better
/// hit at that position.
proof fn lemma_knn_no_better(
    r1: Seq<Hit>,
    r2: Seq<Hit>,
    pairs: Multiset<Pair>,
    kind: Distance,
    q: Seq<int>,
    k: nat,
    i: int,
)
    requires
        is_knn(r1, pairs, kind, q, k),
        is_knn(r2, pairs, kind, q, k),
        0 <= i < r1.len(),
        r1.take(i) == r2.take(i),
    ensures
        !hit_lt(r1[i], r2[i]),
{
    let x = r1[i];
    if hit_lt(x, r2[i]) {
        assert(r1 =~= r1.take(i) + r1.skip(i));
        assert(r2 =~= r2.take(i) + r2.skip(i));
        lemma_occurs_add(r1.take(i), r1.skip(i), x);
        lemma_occurs_add(r2.take(i), r2.skip(i), x);
        assert forall|j: int| 0 <= j < r2.skip(i).len() implies r2.skip(i)[j] != x by {
            assert(r2.skip(i)[j] == r2[i + j]);
            assert(j == 0 || hit_le(r2[i], r2[i + j]));
        }
        lemma_occurs_none(r2.skip(i), x);
        assert(r1.skip(i)[0] == x);
        lemma_occurs_some(r1.skip(i), 0);
        assert(occurs(r2, x) < occurs(r1, x));
        assert(occurs(r1, x) <= hit_count(pairs, kind, q, x));
        assert(occurs(r2, x) < hit_count(pairs, kind, q, x));
        assert(hit_le(r2.last(), x));
        assert(i == r2.len() - 1 || hit_le(r2[i], r2[r2.len() - 1]));
    }
}

/// Two results agree up to every position.
proof fn lemma_knn_prefix(
    r1: Seq<Hit>,
    r2: Seq<Hit>,
    pairs: Multiset<Pair>,
    kind: Distance,
    q: Seq<int>,
    k: nat,
    i: int,
)
    requires
        is_knn(r1, pairs, kind, q, k),
        is_knn(r2, pairs, kind, q, k),
        0 <= i <= r1.len(),
    ensures
        r1.take(i) == r2.take(i),
    decreases i,
{
    if i == 0 {
        assert(r1.take(0) =~= r2.take(0));
    } else {
        lemma_knn_prefix(r1, r2, pairs, kind, q, k, i - 1);
        lemma_knn_no_better(r1, r2, pairs, kind, q, k, i - 1);
        lemma_knn_no_better(r2, r1, pairs, kind, q, k, i - 1);
        lemma_hits_total(r1[i - 1], r2[i - 1]);
        assert(r1.take(i) =~= r1.take(i - 1).push(r1[i - 1]));
        assert(r2.take(i) =~= r2.take(i - 1).push(r2[i - 1]));
    }
}

/// Exactness: the pairs of a tree, the query and `k` determine the result
/// of a search. It is the first `k` of all hits in the order of distance
/// and then of record, as a scan of all pairs would give them.
pub proof fn lemma_knn_unique(
    r1: Seq<Hit>,
    r2: Seq<Hit>,
    pairs: Multiset<Pair>,
    kind: Distance,
    q: Seq<int>,
    k: nat,
)
    requires
        is_knn(r1, pairs, kind, q, k),
        is_knn(r2, pairs, kind, q, k),
    ensures
        r1 == r2,
{
    lemma_knn_prefix(r1, r2, pairs, kind, q, k, r1.len() as int);
    assert(r1.take(r1.len() as int) =~= r1);
    assert(r2.take(r2.len() as int) =~= r2);
}

/// Every hit of a result is the hit of a stored pair, and each of the
/// hits left out is no better than the last of the result.
pub proof fn lemma_knn_sound(
    res: Seq<Hit>,
    pairs: Multiset<Pair>,
    kind: Distance,
    q: Seq<int>,
    k: nat,
    i: int,
)
    requires
        is_knn(res, pairs, kind, q, k),
        0 <= i < res.len(),
    ensures
        exists|p: Pair| pairs.count(p) > 0 && p.1 == res[i].0 && accumulate(kind, q, p.0) == res[i].1,
{
    lemma_occurs_some(res, i);
    assert(occurs(res, res[i]) <= hit_count(pairs, kind, q, res[i]));
    let p = lemma_hit_count_witness(pairs, kind, q, res[i]);
    assert(pairs.count(p) > 0 && p.1 == res[i].0 && accumulate(kind, q, p.0) == res[i].1);
}

/// The leaf has exactly one entry for the point `v`, and that entry holds
/// both records.
pub open spec fn shares_entry(m: Nodes, leaf: NodeId, v: Seq<int>, d1: DocId, d2: DocId) -> bool {
    m.contains_key(leaf) && match m[leaf] {
        NodeView::Leaf(es) => exists|j: int|
            0 <= j < es.len() && (#[trigger] es[j]).vector == v && es[j].docs.contains(d1) && es[j].docs.contains(
                d2,
            ) && forall|t: int| 0 <= t < es.len() && t != j ==> (#[trigger] es[t]).vector != v,
        NodeView::Routing(_) => false,
    }
}

/// A leaf of a well-formed tree has good entries.
proof fn lemma_leaf_below(m: Nodes, cfg: Config, id: NodeId, h: nat, parent: Option<Seq<int>>, x: NodeId)
    requires
        wf_subtree(m, cfg, id, h, parent),
        in_subtree(m, id, h, x),
        m[x] is Leaf,
    ensures
        exists|px: Option<Seq<int>>| leaf_ok(cfg, m[x]->Leaf_0, px),
    decreases h,
{
    if x == id {
        assert(leaf_ok(cfg, m[x]->Leaf_0, parent));
    } else {
        let es = m[id]->Routing_0;
        let i = choose|i: int| 0 <= i < es.len() && in_subtree(m, (#[trigger] es[i]).child, (h - 1) as nat, x);
        lemma_leaf_below(m, cfg, es[i].child, (h - 1) as nat, Some(es[i].pivot), x);
    }
}

/// Inserting one vector twice, with two records, gives one leaf entry that
/// holds both records and not two entries, when the first insertion split
/// no node. The first insertion may have been the one into an empty tree.
pub proof fn lemma_same_vector_twice(
    t0: MTree,
    m0: Nodes,
    n0: nat,
    t1: MTree,
    m1: Nodes,
    n1: nat,
    t2: MTree,
    m2: Nodes,
    n2: nat,
    v: Seq<int>,
    d1: DocId,
    d2: DocId,
)
    requires
        inserted(t0, m0, n0, (v, d1), t1, m1, n1),
        t0.root() is Some ==> n1 == n0,
        inserted(t1, m1, n1, (v, d2), t2, m2, n2),
    ensures
        n2 == n1,
        t2.root() == t1.root(),
        t2.levels() == t1.levels(),
        exists|leaf: NodeId|
            in_subtree(m2, t2.root()->Some_0, t2.levels() as nat, leaf) && shares_entry(m2, leaf, v, d1, d2),
{
    let kind = t1.metric();
    let root = t1.root()->Some_0;
    let h = t1.levels() as nat;
    let leaf = target_leaf(m1, kind, root, h, v);
    assert(leaf_has_pair(m1, leaf, (v, d1))) by {
        match t0.root() {
            Some(r0) => {
                assert(placed(m0, m1, kind, root, h, (v, d1)));
            },
            None => {
                let es = seq![single_entry((v, d1))];
                assert(m1[root] == NodeView::Leaf(es));
                assert(es[0].vector == v && es[0].docs[0] == d1);
            },
        }
    }
    assert(leaf_has_point(m1, leaf, v)) by {
        let es = m1[leaf]->Leaf_0;
        let j = choose|j: int| 0 <= j < es.len() && (#[trigger] es[j]).vector == v && es[j].docs.contains(d1);
        assert(es[j].vector == v);
    }
    assert(placed(m1, m2, kind, root, h, (v, d2)));
    assert(leaf_has_pair(m2, leaf, (v, d1)));
    assert(leaf_has_pair(m2, leaf, (v, d2)));
    lemma_leaf_below(m2, t2.config(m2), root, h, None, leaf);
    let es = m2[leaf]->Leaf_0;
    let j1 = choose|j: int| 0 <= j < es.len() && (#[trigger] es[j]).vector == v && es[j].docs.contains(d1);
    let j2 = choose|j: int| 0 <= j < es.len() && (#[trigger] es[j]).vector == v && es[j].docs.contains(d2);
    let px = choose|px: Option<Seq<int>>| leaf_ok(t2.config(m2), es, px);
    assert(j1 == j2) by {
        if j1 < j2 {
            assert(es[j1].vector != es[j2].vector);
        } else if j2 < j1 {
            assert(es[j2].vector != es[j1].vector);
        }
    }
    assert forall|t: int| 0 <= t < es.len() && t != j1 implies (#[trigger] es[t]).vector != v by {
        if t < j1 {
            assert(es[t].vector != es[j1].vector);
        } else {
            assert(es[j1].vector != es[t].vector);
        }
    }
    assert(shares_entry(m2, leaf, v, d1, d2));
}

/// A committed tree answers as it did before the commit. The nodes that a
/// write transaction commits through the store are the nodes that the
/// traversal saw, so a search in a new transaction has the same pairs
/// before it, and the pairs determine the result.
pub proof fn lemma_round_trip(
    tree: MTree,
    seen: Nodes,
    committed: Nodes,
    q: Seq<int>,
    k: nat,
    before: Seq<Hit>,
    after: Seq<Hit>,
)
    requires
        committed == seen,
        is_knn(before, tree.pairs(seen), tree.metric(), q, k),
        is_knn(after, tree.pairs(committed), tree.metric(), q, k),
    ensures
        after == before,
{
    lemma_knn_unique(before, after, tree.pairs(seen), tree.metric(), q, k);
}

/// After an insertion that was not refused, the tree holds the new pair,
/// no node holds more entries than the capacity, and every radius reaches
/// every vector stored below its entry, the new one among them.
pub proof fn lemma_insert_keeps_tree(
    t0: MTree,
    m0: Nodes,
    n0: nat,
    p: Pair,
    t1: MTree,
    m1: Nodes,
    n1: nat,
    x: NodeId,
)
    requires
        inserted(t0, m0, n0, p, t1, m1, n1),
        in_subtree(m1, t1.root()->Some_0, t1.levels() as nat, x),
    ensures
        t1.pairs(m1).count(p) > 0,
        within_capacity(m1, t1.config(m1), x),
        exists|hx: nat| hx <= t1.levels() && radii_cover(m1, t1.config(m1), x, hx),
{
    lemma_capacity(t1, m1, x);
    lemma_coverage(t1, m1, x);
}

/// The hits of a result come nearest first: by their exact measures, and
/// so by the distances that the measures stand for.
pub proof fn lemma_knn_ascending(
    res: Seq<Hit>,
    pairs: Multiset<Pair>,
    kind: Distance,
    q: Seq<int>,
    k: nat,
    i: int,
    j: int,
)
    requires
        is_knn(res, pairs, kind, q, k),
        0 <= i < j < res.len(),
    ensures
        res[i].1 <= res[j].1,
        rounded(kind, res[i].1) <= rounded(kind, res[j].1),
{
    assert(hit_le(res[i], res[j]));
    lemma_rounded_monotonic(kind, res[i].1, res[j].1);
}

/// A result has `k` hits, or as many as there are pairs if those are fewer.
pub proof fn lemma_knn_length(res: Seq<Hit>, pairs: Multiset<Pair>, kind: Distance, q: Seq<int>, k: nat)
    requires
        is_knn(res, pairs, kind, q, k),
    ensures
        res.len() <= k,
        res.len() <= pairs.len(),
        res.len() == k || res.len() == pairs.len(),
{
}

/// A stored pair whose hit is not in the result is no nearer to the query
/// than any hit of the result.
pub proof fn lemma_knn_complete(
    res: Seq<Hit>,
    pairs: Multiset<Pair>,
    kind: Distance,
    q: Seq<int>,
    k: nat,
    p: Pair,
    i: int,
)
    requires
        is_knn(res, pairs, kind, q, k),
        pairs.count(p) > 0,
        occurs(res, hit_of(kind, q, p)) == 0,
        0 <= i < res.len(),
    ensures
        res[i].1 <= accumulate(kind, q, p.0),
{
    let c = hit_of(kind, q, p);
    let one = Multiset::<Pair>::empty().insert(p);
    let rest = pairs.sub(one);
    assert(pairs =~= rest.insert(p));
    lemma_hit_count_insert(rest, p, kind, q, c);
    assert(occurs(res, c) < hit_count(pairs, kind, q, c));
    assert(hit_le(res.last(), c));
    assert(i == res.len() - 1 || hit_le(res[i], res[res.len() - 1]));
}

} // verus!
