//! Nearest-neighbour search: a best-first traversal that visits the subtree
//! with the least lower bound first and keeps the best `k` hits seen.

use vstd::prelude::*;
use vstd::multiset::Multiset;
use crate::error::IndexError;
use crate::grow::{kids, lemma_routing_parts};
use crate::kv::Transaction;
use crate::node::{
    leaf_views,
    routing_views,
    DocId,
    LeafEntry,
    LeafEntryView,
    Node,
    NodeId,
    NodeView,
    RoutingEntry,
    RoutingEntryView,
};
use crate::split::{distance_of, measure_of};
use crate::store::NodeStore;
use crate::tree::{
    children_pairs,
    covers,
    doc_pairs,
    leaf_pairs,
    lemma_children_pairs_push,
    lemma_doc_pairs_push,
    lemma_leaf_pairs_push,
    lemma_pairs_are_points,
    subtree_pairs,
    wf_subtree,
    Config,
    Nodes,
    Pair,
};
use crate::vector::{
    accumulate,
    dist,
    lemma_dist_symmetric,
    lemma_dist_triangle,
    lemma_rounded_monotonic,
    rounded,
    Distance,
    Vector,
};

verus! {

/// A record with the exact measure of the distance of one of its vectors
/// to the query.
pub type Hit = (DocId, nat);

/// A subtree that is still to be visited.
#[derive(Clone, Copy, Debug)]
pub struct Visit {
    /// No vector of the subtree is nearer to the query than this.
    pub bound: u128,
    pub node: NodeId,
    /// The number of levels between the node and the leaves.
    pub level: u64,
}

/// The hit `a` is at least as good as `b`: it is nearer by its exact
/// measure, or as near with a record that is not larger.
pub open spec fn hit_le(a: Hit, b: Hit) -> bool {
    a.1 < b.1 || (a.1 == b.1 && a.0 <= b.0)
}

/// The hit `a` is better than `b`.
pub open spec fn hit_lt(a: Hit, b: Hit) -> bool {
    a.1 < b.1 || (a.1 == b.1 && a.0 < b.0)
}

/// The hits of a result.
pub open spec fn hits_view(r: Seq<(DocId, u128)>) -> Seq<Hit> {
    Seq::new(r.len(), |i: int| (r[i].0, r[i].1 as nat))
}

/// The hits come best first.
pub open spec fn sorted(s: Seq<Hit>) -> bool {
    forall|i: int, j: int| 0 <= i < j < s.len() ==> hit_le(s[i], s[j])
}

/// How often the hit `c` is in the sequence.
pub open spec fn occurs(s: Seq<Hit>, c: Hit) -> nat
    decreases s.len(),
{
    if s.len() == 0 {
        0
    } else {
        occurs(s.drop_last(), c) + if s.last() == c {
            1nat
        } else {
            0nat
        }
    }
}

/// The hit that a pair gives for the query `q`: its record with the exact
/// measure of the distance of its vector, which is the distance itself and
/// under the Euclidean metric the square of the distance.
pub open spec fn hit_of(kind: Distance, q: Seq<int>, p: Pair) -> Hit {
    (p.1, accumulate(kind, q, p.0))
}

/// How many of the pairs give the hit `c` for the query `q`.
pub open spec fn hit_count(pairs: Multiset<Pair>, kind: Distance, q: Seq<int>, c: Hit) -> nat {
    pairs.filter(|p: Pair| hit_of(kind, q, p) == c).len()
}

/// The sequence `res` holds the best `k` hits that the pairs give for the
/// query `q`, best first, or all of them if there are fewer than `k`: no
/// hit is in it more often than pairs give it, and a hit that pairs give
/// more often than it is in `res` is no better than the last of `res`.
pub open spec fn is_knn(res: Seq<Hit>, pairs: Multiset<Pair>, kind: Distance, q: Seq<int>, k: nat) -> bool {
    &&& sorted(res)
    &&& res.len() == if k <= pairs.len() { k } else { pairs.len() }
    &&& forall|c: Hit| #[trigger] occurs(res, c) <= hit_count(pairs, kind, q, c)
    &&& forall|c: Hit|
        #[trigger] occurs(res, c) < hit_count(pairs, kind, q, c) ==> res.len() == k && (k > 0 ==> hit_le(
            res.last(),
            c,
        ))
}

/// The subtree of a visit is well-formed, and its bound is a lower bound.
pub open spec fn visit_ok(m: Nodes, cfg: Config, q: Seq<int>, v: Visit) -> bool {
    &&& exists|parent: Option<Seq<int>>| wf_subtree(m, cfg, v.node, v.level as nat, parent)
    &&& forall|p: Pair|
        #[trigger] subtree_pairs(m, v.node, v.level as nat).count(p) > 0 ==> v.bound <= dist(cfg.kind, q, p.0)
}

/// The pairs of all the subtrees that are still to be visited.
pub open spec fn pending_pairs(m: Nodes, vs: Seq<Visit>) -> Multiset<Pair>
    decreases vs.len(),
{
    if vs.len() == 0 {
        Multiset::empty()
    } else {
        pending_pairs(m, vs.drop_last()).add(subtree_pairs(m, vs.last().node, vs.last().level as nat))
    }
}

/// The number of nodes of the subtree of `id`.
pub open spec fn subtree_size(m: Nodes, id: NodeId, h: nat) -> nat
    decreases h, 0nat,
{
    if h == 0 || !m.contains_key(id) {
        1
    } else {
        match m[id] {
            NodeView::Leaf(_) => 1,
            NodeView::Routing(es) => 1 + children_size(m, es, (h - 1) as nat),
        }
    }
}

/// The number of nodes of the subtrees of the children of the entries.
pub open spec fn children_size(m: Nodes, es: Seq<RoutingEntryView>, h: nat) -> nat
    decreases h, 1 + es.len(),
{
    if es.len() == 0 {
        0
    } else {
        children_size(m, es.drop_last(), h) + subtree_size(m, es.last().child, h)
    }
}

/// The number of nodes of all the subtrees that are still to be visited.
pub open spec fn pending_size(m: Nodes, vs: Seq<Visit>) -> nat
    decreases vs.len(),
{
    if vs.len() == 0 {
        0
    } else {
        pending_size(m, vs.drop_last()) + subtree_size(m, vs.last().node, vs.last().level as nat)
    }
}

/// One more visit adds its pairs and its nodes.
pub proof fn lemma_pending_push(m: Nodes, vs: Seq<Visit>, v: Visit)
    ensures
        pending_pairs(m, vs.push(v)) == pending_pairs(m, vs).add(subtree_pairs(m, v.node, v.level as nat)),
        pending_size(m, vs.push(v)) == pending_size(m, vs) + subtree_size(m, v.node, v.level as nat),
{
    assert(vs.push(v).drop_last() =~= vs);
}

/// Taking a visit out takes out its pairs and its nodes.
pub proof fn lemma_pending_remove(m: Nodes, vs: Seq<Visit>, i: int)
    requires
        0 <= i < vs.len(),
    ensures
        pending_pairs(m, vs) == pending_pairs(m, vs.remove(i)).add(
            subtree_pairs(m, vs[i].node, vs[i].level as nat),
        ),
        pending_size(m, vs) == pending_size(m, vs.remove(i)) + subtree_size(m, vs[i].node, vs[i].level as nat),
    decreases vs.len(),
{
    if i == vs.len() - 1 {
        assert(vs.remove(i) =~= vs.drop_last());
    } else {
        lemma_pending_remove(m, vs.drop_last(), i);
        assert(vs.remove(i).drop_last() =~= vs.drop_last().remove(i));
        assert(vs.remove(i).last() == vs.last());
        assert(vs.drop_last()[i] == vs[i]);
        let rest = pending_pairs(m, vs.drop_last().remove(i));
        let one = subtree_pairs(m, vs[i].node, vs[i].level as nat);
        let tail = subtree_pairs(m, vs.last().node, vs.last().level as nat);
        assert(pending_pairs(m, vs.remove(i)) == rest.add(tail));
        assert(pending_pairs(m, vs) == rest.add(one).add(tail));
        assert(rest.add(one).add(tail) =~= rest.add(tail).add(one));
    }
}

/// A pair that is still to be visited is in the subtree of one of the visits.
pub proof fn lemma_pending_member(m: Nodes, vs: Seq<Visit>, p: Pair)
    requires
        pending_pairs(m, vs).count(p) > 0,
    ensures
        exists|i: int|
            0 <= i < vs.len() && subtree_pairs(m, (#[trigger] vs[i]).node, vs[i].level as nat).count(p) > 0,
    decreases vs.len(),
{
    if vs.len() > 0 {
        if subtree_pairs(m, vs.last().node, vs.last().level as nat).count(p) > 0 {
            assert(subtree_pairs(m, vs[vs.len() - 1].node, vs[vs.len() - 1].level as nat).count(p) > 0);
        } else {
            lemma_pending_member(m, vs.drop_last(), p);
            let i = choose|i: int|
                0 <= i < vs.drop_last().len() && subtree_pairs(
                    m,
                    (#[trigger] vs.drop_last()[i]).node,
                    vs.drop_last()[i].level as nat,
                ).count(p) > 0;
            assert(vs.drop_last()[i] == vs[i]);
        }
    }
}

/// The pairs of two multisets together give a hit as often as the two do.
pub proof fn lemma_hit_count_add(a: Multiset<Pair>, b: Multiset<Pair>, kind: Distance, q: Seq<int>, c: Hit)
    ensures
        hit_count(a.add(b), kind, q, c) == hit_count(a, kind, q, c) + hit_count(b, kind, q, c),
{
    let f = |p: Pair| hit_of(kind, q, p) == c;
    assert(a.add(b).filter(f) =~= a.filter(f).add(b.filter(f)));
}

/// One more pair gives its own hit once more, and any other hit as often
/// as before.
pub proof fn lemma_hit_count_insert(a: Multiset<Pair>, p: Pair, kind: Distance, q: Seq<int>, c: Hit)
    ensures
        hit_count(a.insert(p), kind, q, c) == hit_count(a, kind, q, c) + if hit_of(kind, q, p) == c {
            1nat
        } else {
            0nat
        },
{
    let f = |p: Pair| hit_of(kind, q, p) == c;
    let one = Multiset::<Pair>::singleton(p);
    lemma_hit_count_add(a, one, kind, q, c);
    if hit_of(kind, q, p) == c {
        assert(one.filter(f) =~= one);
    } else {
        assert(one.filter(f) =~= Multiset::<Pair>::empty());
    }
}

/// A hit that pairs give is the hit of one of them.
pub proof fn lemma_hit_count_witness(a: Multiset<Pair>, kind: Distance, q: Seq<int>, c: Hit) -> (p: Pair)
    requires
        hit_count(a, kind, q, c) > 0,
    ensures
        a.count(p) > 0,
        hit_of(kind, q, p) == c,
{
    let f = |p: Pair| hit_of(kind, q, p) == c;
    let found = a.filter(f);
    assert(found.len() > 0);
    let p = found.choose();
    assert(found.count(p) > 0);
    p
}

/// No pairs give no hit.
pub proof fn lemma_hit_count_empty(kind: Distance, q: Seq<int>, c: Hit)
    ensures
        hit_count(Multiset::<Pair>::empty(), kind, q, c) == 0,
{
    let f = |p: Pair| hit_of(kind, q, p) == c;
    assert(Multiset::<Pair>::empty().filter(f) =~= Multiset::<Pair>::empty());
}

/// A hit put into a sequence occurs once more, and any other as often as before.
pub proof fn lemma_occurs_insert(s: Seq<Hit>, pos: int, x: Hit, c: Hit)
    requires
        0 <= pos <= s.len(),
    ensures
        occurs(s.insert(pos, x), c) == occurs(s, c) + if x == c {
            1nat
        } else {
            0nat
        },
    decreases s.len(),
{
    let t = s.insert(pos, x);
    if pos == s.len() {
        assert(t.drop_last() =~= s);
        assert(t.last() == x);
    } else {
        assert(t.drop_last() =~= s.drop_last().insert(pos, x));
        assert(t.last() == s.last());
        lemma_occurs_insert(s.drop_last(), pos, x, c);
    }
}

/// The result keeps the best `k` hits when subtrees whose hits are all
/// worse than its last hit are counted among the pairs seen.
pub proof fn lemma_knn_skip(
    res: Seq<Hit>,
    seen: Multiset<Pair>,
    skipped: Multiset<Pair>,
    kind: Distance,
    q: Seq<int>,
    k: nat,
)
    requires
        is_knn(res, seen, kind, q, k),
        skipped.len() > 0 ==> res.len() == k && k > 0,
        forall|p: Pair| #[trigger] skipped.count(p) > 0 ==> res.last().1 < accumulate(kind, q, p.0),
    ensures
        is_knn(res, seen.add(skipped), kind, q, k),
{
    assert forall|c: Hit| #[trigger] occurs(res, c) <= hit_count(seen.add(skipped), kind, q, c) by {
        lemma_hit_count_add(seen, skipped, kind, q, c);
    }
    assert forall|c: Hit| #[trigger] occurs(res, c) < hit_count(seen.add(skipped), kind, q, c) implies res.len()
        == k && (k > 0 ==> hit_le(res.last(), c)) by {
        lemma_hit_count_add(seen, skipped, kind, q, c);
        if hit_count(skipped, kind, q, c) > 0 {
            let p = lemma_hit_count_witness(skipped, kind, q, c);
            assert(skipped.len() > 0) by {
                if skipped.len() == 0 {
                    assert(skipped.count(p) <= skipped.len());
                }
            }
        } else {
            assert(occurs(res, c) < hit_count(seen, kind, q, c));
        }
    }
}

/// The distance from the query to any vector below a routing entry is at
/// least the distance to the pivot less the radius.
pub proof fn lemma_lower_bound(
    m: Nodes,
    cfg: Config,
    e: RoutingEntryView,
    h: nat,
    q: Seq<int>,
    p: Pair,
)
    requires
        q.len() == cfg.dim,
        e.pivot.len() == cfg.dim,
        wf_subtree(m, cfg, e.child, h, Some(e.pivot)),
        covers(m, cfg.kind, e.child, h, e.pivot, e.radius as int),
        subtree_pairs(m, e.child, h).count(p) > 0,
    ensures
        dist(cfg.kind, q, e.pivot) - e.radius <= dist(cfg.kind, q, p.0),
{
    lemma_pairs_are_points(m, cfg, e.child, h, Some(e.pivot), p);
    lemma_dist_triangle(cfg.kind, q, p.0, e.pivot);
    lemma_dist_symmetric(cfg.kind, p.0, e.pivot);
}

/// Offers a hit to the result, which holds at most `k`: the hit goes to
/// its place behind the hits that are at least as good, and the last hit
/// leaves when there are more than `k`.
pub(crate) fn offer(
    results: &mut Vec<(DocId, u128)>,
    k: usize,
    doc: DocId,
    d: u128,
    Ghost(seen): Ghost<Multiset<Pair>>,
    Ghost(p): Ghost<Pair>,
    Ghost(kind): Ghost<Distance>,
    Ghost(q): Ghost<Seq<int>>,
)
    requires
        is_knn(hits_view(old(results)@), seen, kind, q, k as nat),
        hit_of(kind, q, p) == (doc, d as nat),
    ensures
        is_knn(hits_view(final(results)@), seen.insert(p), kind, q, k as nat),
{
    let ghost res0 = hits_view(results@);
    let ghost x: Hit = (doc, d as nat);
    let n: usize = results.len();
    proof {
        assert forall|c: Hit| true implies hit_count(seen.insert(p), kind, q, c) == hit_count(seen, kind, q, c)
            + if x == c {
            1nat
        } else {
            0nat
        } by {
            lemma_hit_count_insert(seen, p, kind, q, c);
        }
        assert(seen.insert(p).len() == seen.len() + 1);
    }
    if n >= k {
        if k == 0 {
            proof {
                assert forall|c: Hit|
                    #[trigger] occurs(res0, c) <= hit_count(seen.insert(p), kind, q, c) by {
                    lemma_hit_count_insert(seen, p, kind, q, c);
                    assert(occurs(res0, c) <= hit_count(seen, kind, q, c));
                }
            }
            return ;
        }
        let last = results[n - 1];
        assert(res0.last() == (last.0, last.1 as nat));
        if !(d < last.1 || (d == last.1 && doc < last.0)) {
            proof {
                assert forall|c: Hit|
                    #[trigger] occurs(res0, c) <= hit_count(seen.insert(p), kind, q, c) by {
                    lemma_hit_count_insert(seen, p, kind, q, c);
                    assert(occurs(res0, c) <= hit_count(seen, kind, q, c));
                }
                assert forall|c: Hit|
                    #[trigger] occurs(res0, c) < hit_count(seen.insert(p), kind, q, c) implies res0.len() == k
                    && hit_le(res0.last(), c) by {
                    lemma_hit_count_insert(seen, p, kind, q, c);
                    if c != x {
                        assert(occurs(res0, c) < hit_count(seen, kind, q, c));
                    }
                }
            }
            return ;
        }
    }
    assert(n >= k ==> hit_lt(x, res0.last()));
    let mut pos: usize = 0;
    while pos < n && !(d < results[pos].1 || (d == results[pos].1 && doc < results[pos].0))
        invariant
            n == results@.len(),
            res0 == hits_view(results@),
            x == (doc, d as nat),
            pos <= n,
            forall|i: int| 0 <= i < pos ==> hit_le(#[trigger] res0[i], x),
        decreases n - pos,
    {
        assert(res0[pos as int] == (results@[pos as int].0, results@[pos as int].1 as nat));
        pos = pos + 1;
    }
    assert(pos < n ==> res0[pos as int] == (results@[pos as int].0, results@[pos as int].1 as nat));
    results.insert(pos, (doc, d));
    let ghost res1 = hits_view(results@);
    proof {
        assert(res1 =~= res0.insert(pos as int, x));
        assert(sorted(res1)) by {
            assert forall|i: int, j: int| 0 <= i < j < res1.len() implies hit_le(res1[i], res1[j]) by {
                if j < pos {
                    assert(res1[i] == res0[i] && res1[j] == res0[j]);
                } else if j == pos {
                    assert(res1[i] == res0[i]);
                } else if i < pos {
                    assert(res1[i] == res0[i] && res1[j] == res0[j - 1]);
                    assert(hit_le(res0[i], res0[j - 1]) || i == j - 1);
                } else if i == pos {
                    assert(res1[j] == res0[j - 1]);
                    assert(hit_lt(x, res0[pos as int]));
                    assert(pos as int == j - 1 || hit_le(res0[pos as int], res0[j - 1]));
                } else {
                    assert(res1[i] == res0[i - 1] && res1[j] == res0[j - 1]);
                }
            }
        }
        assert forall|c: Hit| true implies occurs(res1, c) == occurs(res0, c) + if x == c {
            1nat
        } else {
            0nat
        } by {
            lemma_occurs_insert(res0, pos as int, x, c);
        }
    }
    if results.len() > k {
        results.pop();
        let ghost res2 = hits_view(results@);
        proof {
            assert(res2 =~= res1.drop_last());
            assert(pos < n);
            let w = res0.last();
            assert(res1.last() == w);
            assert(res2.last() == res1[n - 1]);
            assert(hit_le(res2.last(), w)) by {
                if pos as int == n - 1 {
                    assert(res1[n - 1] == x);
                } else {
                    assert(res1[n - 1] == res0[n - 2]);
                }
            }
            assert(hit_lt(x, w));
            assert(occurs(res0, w) >= 1) by {
                assert(occurs(res0, w) == occurs(res0.drop_last(), w) + 1);
            }
            assert forall|c: Hit|
                #[trigger] occurs(res2, c) <= hit_count(seen.insert(p), kind, q, c) by {
                lemma_occurs_insert(res0, pos as int, x, c);
                lemma_hit_count_insert(seen, p, kind, q, c);
                assert(occurs(res1, c) == occurs(res1.drop_last(), c) + if res1.last() == c {
                    1nat
                } else {
                    0nat
                });
                assert(occurs(res0, c) <= hit_count(seen, kind, q, c));
            }
            assert forall|c: Hit|
                #[trigger] occurs(res2, c) < hit_count(seen.insert(p), kind, q, c) implies res2.len() == k
                && hit_le(res2.last(), c) by {
                lemma_occurs_insert(res0, pos as int, x, c);
                lemma_hit_count_insert(seen, p, kind, q, c);
                assert(occurs(res1, c) == occurs(res1.drop_last(), c) + if res1.last() == c {
                    1nat
                } else {
                    0nat
                });
                if c == w {
                } else if c == x {
                    assert(occurs(res0, c) < hit_count(seen, kind, q, c));
                    assert(hit_le(w, x));
                } else {
                    assert(occurs(res0, c) < hit_count(seen, kind, q, c));
                    assert(hit_le(w, c));
                }
            }
        }
    } else {
        proof {
            assert forall|c: Hit|
                #[trigger] occurs(res1, c) <= hit_count(seen.insert(p), kind, q, c) by {
                lemma_occurs_insert(res0, pos as int, x, c);
                lemma_hit_count_insert(seen, p, kind, q, c);
                assert(occurs(res0, c) <= hit_count(seen, kind, q, c));
            }
            assert forall|c: Hit|
                #[trigger] occurs(res1, c) < hit_count(seen.insert(p), kind, q, c) implies res1.len() == k
                && (k > 0 ==> hit_le(res1.last(), c)) by {
                lemma_occurs_insert(res0, pos as int, x, c);
                lemma_hit_count_insert(seen, p, kind, q, c);
                assert(occurs(res0, c) < hit_count(seen, kind, q, c));
            }
        }
    }
}

/// Offers every record of every entry of a leaf to the result, with the
/// distance of the entry's vector to the query.
pub(crate) fn scan_leaf(
    kind: Distance,
    entries: &Vec<LeafEntry>,
    query: &Vector,
    k: usize,
    results: &mut Vec<(DocId, u128)>,
    Ghost(seen): Ghost<Multiset<Pair>>,
)
    requires
        is_knn(hits_view(old(results)@), seen, kind, query@, k as nat),
        forall|i: int| 0 <= i < entries@.len() ==> (#[trigger] entries@[i]).vector@.len() == query@.len(),
    ensures
        is_knn(
            hits_view(final(results)@),
            seen.add(leaf_pairs(leaf_views(entries@))),
            kind,
            query@,
            k as nat,
        ),
{
    let ghost es = leaf_views(entries@);
    let n: usize = entries.len();
    let mut j: usize = 0;
    proof {
        assert(es.take(0) =~= Seq::<LeafEntryView>::empty());
        assert(seen.add(leaf_pairs(es.take(0))) =~= seen);
    }
    while j < n
        invariant
            n == entries@.len(),
            es == leaf_views(entries@),
            j <= n,
            forall|i: int| 0 <= i < entries@.len() ==> (#[trigger] entries@[i]).vector@.len() == query@.len(),
            is_knn(hits_view(results@), seen.add(leaf_pairs(es.take(j as int))), kind, query@, k as nat),
        decreases n - j,
    {
        let entry = &entries[j];
        let d: u128 = measure_of(kind, query, &entry.vector);
        let ghost base = seen.add(leaf_pairs(es.take(j as int)));
        let ghost v = entry.vector@;
        let ghost docs = entry.docs@;
        let m: usize = entry.docs.len();
        let mut t: usize = 0;
        proof {
            assert(es[j as int] == entries@[j as int]@);
            assert(docs.take(0) =~= Seq::<DocId>::empty());
            assert(base.add(doc_pairs(v, docs.take(0))) =~= base);
        }
        while t < m
            invariant
                m == docs.len(),
                docs == entry.docs@,
                v == entry.vector@,
                d == accumulate(kind, query@, v),
                t <= m,
                is_knn(hits_view(results@), base.add(doc_pairs(v, docs.take(t as int))), kind, query@, k as nat),
            decreases m - t,
        {
            let doc: DocId = entry.docs[t];
            let ghost cur = base.add(doc_pairs(v, docs.take(t as int)));
            offer(results, k, doc, d, Ghost(cur), Ghost((v, doc)), Ghost(kind), Ghost(query@));
            proof {
                assert(docs.take(t + 1) =~= docs.take(t as int).push(doc));
                lemma_doc_pairs_push(v, docs.take(t as int), doc);
                assert(cur.insert((v, doc)) =~= base.add(doc_pairs(v, docs.take(t + 1))));
            }
            t = t + 1;
        }
        proof {
            assert(docs.take(m as int) =~= docs);
            assert(es.take(j + 1) =~= es.take(j as int).push(es[j as int]));
            lemma_leaf_pairs_push(es.take(j as int), es[j as int]);
            assert(base.add(doc_pairs(v, docs)) =~= seen.add(leaf_pairs(es.take(j + 1))));
        }
        j = j + 1;
    }
    proof {
        assert(es.take(n as int) =~= es);
    }
}

/// Looks at every child of a routing node. A child whose lower bound
/// exceeds the distance of the last of `k` hits is passed over; every
/// other child is put among the subtrees to visit, with its lower bound:
/// the distance from the query to the pivot less the radius, or zero.
pub(crate) fn scan_routing(
    kind: Distance,
    entries: &Vec<RoutingEntry>,
    query: &Vector,
    k: usize,
    results: &Vec<(DocId, u128)>,
    pending: &mut Vec<Visit>,
    level: u64,
    Ghost(seen): Ghost<Multiset<Pair>>,
    Ghost(m): Ghost<Nodes>,
    Ghost(cfg): Ghost<Config>,
) -> (out: Ghost<Multiset<Pair>>)
    requires
        k > 0,
        cfg.kind == kind,
        query@.len() == cfg.dim,
        kids(m, cfg, routing_views(entries@), level as nat),
        is_knn(hits_view(results@), seen, kind, query@, k as nat),
        forall|i: int| 0 <= i < old(pending)@.len() ==> visit_ok(m, cfg, query@, #[trigger] old(pending)@[i]),
    ensures
        forall|i: int| 0 <= i < final(pending)@.len() ==> visit_ok(m, cfg, query@, #[trigger] final(pending)@[i]),
        is_knn(hits_view(results@), out@, kind, query@, k as nat),
        out@.add(pending_pairs(m, final(pending)@)) == seen.add(pending_pairs(m, old(pending)@)).add(
            children_pairs(m, routing_views(entries@), level as nat),
        ),
        pending_size(m, final(pending)@) <= pending_size(m, old(pending)@) + children_size(
            m,
            routing_views(entries@),
            level as nat,
        ),
{
    let ghost es = routing_views(entries@);
    let ghost h = level as nat;
    let ghost q = query@;
    let ghost res = hits_view(results@);
    let ghost mut cur = seen;
    let n: usize = entries.len();
    let full: bool = results.len() >= k;
    let worst: u128 = if full {
        kind.round(results[k - 1].1)
    } else {
        0
    };
    let mut j: usize = 0;
    proof {
        if full {
            assert(res.last() == (results@[k - 1].0, results@[k - 1].1 as nat));
        }
        assert(es.take(0) =~= Seq::<RoutingEntryView>::empty());
        assert(cur.add(pending_pairs(m, pending@)) =~= seen.add(pending_pairs(m, old(pending)@)).add(
            children_pairs(m, es.take(0), h),
        ));
    }
    while j < n
        invariant
            n == entries@.len(),
            es == routing_views(entries@),
            h == level as nat,
            q == query@,
            res == hits_view(results@),
            k > 0,
            cfg.kind == kind,
            q.len() == cfg.dim,
            kids(m, cfg, es, h),
            j <= n,
            full ==> res.len() == k && worst == rounded(kind, res.last().1),
            forall|i: int| 0 <= i < pending@.len() ==> visit_ok(m, cfg, q, #[trigger] pending@[i]),
            is_knn(res, cur, kind, q, k as nat),
            cur.add(pending_pairs(m, pending@)) == seen.add(pending_pairs(m, old(pending)@)).add(
                children_pairs(m, es.take(j as int), h),
            ),
            pending_size(m, pending@) <= pending_size(m, old(pending)@) + children_size(
                m,
                es.take(j as int),
                h,
            ),
        decreases n - j,
    {
        let entry = &entries[j];
        let ghost e = es[j as int];
        proof {
            assert(e == entries@[j as int]@);
            assert(e.pivot.len() == cfg.dim);
        }
        let d: u128 = distance_of(kind, query, &entry.pivot);
        let r: u128 = entry.radius;
        let ghost sub = subtree_pairs(m, e.child, h);
        let ghost before = pending@;
        proof {
            assert(es.take(j + 1) =~= es.take(j as int).push(e));
            assert(es.take(j + 1).drop_last() =~= es.take(j as int));
            lemma_children_pairs_push(m, es.take(j as int), e, h);
            assert(children_size(m, es.take(j + 1), h) == children_size(m, es.take(j as int), h)
                + subtree_size(m, e.child, h));
            assert forall|p: Pair| #[trigger] sub.count(p) > 0 implies d - r <= dist(kind, q, p.0) by {
                lemma_lower_bound(m, cfg, e, h, q, p);
            }
        }
        if full && d > r && d - r > worst {
            proof {
                assert forall|p: Pair| #[trigger] sub.count(p) > 0 implies res.last().1 < accumulate(
                    kind,
                    q,
                    p.0,
                ) by {
                    assert(d - r <= dist(kind, q, p.0));
                    if accumulate(kind, q, p.0) <= res.last().1 {
                        lemma_rounded_monotonic(kind, accumulate(kind, q, p.0), res.last().1);
                    }
                }
                lemma_knn_skip(res, cur, sub, kind, q, k as nat);
                let next = cur.add(sub);
                let pp = pending_pairs(m, pending@);
                let ppo = pending_pairs(m, old(pending)@);
                let cp0 = children_pairs(m, es.take(j as int), h);
                let cp1 = children_pairs(m, es.take(j + 1), h);
                assert(cp1 == cp0.add(sub));
                assert forall|p: Pair| next.add(pp).count(p) == seen.add(ppo).add(cp1).count(p) by {
                    assert(cur.add(pp).count(p) == seen.add(ppo).add(cp0).count(p));
                }
                assert(next.add(pp) =~= seen.add(ppo).add(cp1));
                cur = next;
            }
        } else {
            let bound: u128 = if d > r {
                d - r
            } else {
                0
            };
            let visit = Visit { bound, node: entry.child, level };
            pending.push(visit);
            proof {
                lemma_pending_push(m, before, visit);
                assert(wf_subtree(m, cfg, visit.node, visit.level as nat, Some(e.pivot)));
                assert(visit_ok(m, cfg, q, visit));
                assert forall|i: int| 0 <= i < pending@.len() implies visit_ok(
                    m,
                    cfg,
                    q,
                    #[trigger] pending@[i],
                ) by {
                    if i < before.len() {
                        assert(pending@[i] == before[i]);
                    }
                }
                let pp0 = pending_pairs(m, before);
                let pp = pending_pairs(m, pending@);
                let ppo = pending_pairs(m, old(pending)@);
                let cp0 = children_pairs(m, es.take(j as int), h);
                let cp1 = children_pairs(m, es.take(j + 1), h);
                assert(cp1 == cp0.add(sub));
                assert(pp == pp0.add(sub));
                assert forall|p: Pair| cur.add(pp).count(p) == seen.add(ppo).add(cp1).count(p) by {
                    assert(cur.add(pp0).count(p) == seen.add(ppo).add(cp0).count(p));
                }
                assert(cur.add(pp) =~= seen.add(ppo).add(cp1));
            }
        }
        j = j + 1;
    }
    proof {
        assert(es.take(n as int) =~= es);
    }
    Ghost(cur)
}

/// The position of the visit with the least lower bound, the first of
/// several.
pub fn min_index(pending: &Vec<Visit>) -> (i: usize)
    requires
        pending@.len() > 0,
    ensures
        i < pending@.len(),
        forall|j: int| 0 <= j < pending@.len() ==> pending@[i as int].bound <= (#[trigger] pending@[j]).bound,
        forall|j: int| 0 <= j < i ==> pending@[i as int].bound < (#[trigger] pending@[j]).bound,
{
    let mut best: usize = 0;
    let mut j: usize = 1;
    while j < pending.len()
        invariant
            1 <= j <= pending@.len(),
            best < j,
            forall|t: int| 0 <= t < j ==> pending@[best as int].bound <= (#[trigger] pending@[t]).bound,
            forall|t: int| 0 <= t < best ==> pending@[best as int].bound < (#[trigger] pending@[t]).bound,
        decreases pending@.len() - j,
    {
        if pending[j].bound < pending[best].bound {
            best = j;
        }
        j = j + 1;
    }
    best
}

/// The best `k` hits for the query among the pairs of the subtree of
/// `root`: the traversal visits the subtree with the least lower bound
/// first and ends when that bound exceeds the distance of the last of `k`
/// hits.
pub(crate) fn search_from(
    kind: Distance,
    store: &mut NodeStore,
    tx: &Transaction,
    root: NodeId,
    height: u64,
    query: &Vector,
    k: usize,
    Ghost(cfg): Ghost<Config>,
) -> (r: Result<Vec<(DocId, u128)>, IndexError>)
    requires
        k > 0,
        cfg.kind == kind,
        query@.len() == cfg.dim,
        old(store).wf(tx),
        wf_subtree(old(store).nodes(tx), cfg, root, height as nat, None),
    ensures
        final(store).wf(tx),
        final(store).nodes(tx) == old(store).nodes(tx),
        final(store).next() == old(store).next(),
        final(store).dirty_ids() == old(store).dirty_ids(),
        final(store).writable() == old(store).writable(),
        r is Ok,
        r is Ok ==> is_knn(
            hits_view(r->Ok_0@),
            subtree_pairs(old(store).nodes(tx), root, height as nat),
            kind,
            query@,
            k as nat,
        ),
{
    let ghost m = store.nodes(tx);
    let ghost q = query@;
    let ghost all = subtree_pairs(m, root, height as nat);
    let mut pending: Vec<Visit> = Vec::new();
    let first = Visit { bound: 0, node: root, level: height };
    pending.push(first);
    let mut results: Vec<(DocId, u128)> = Vec::new();
    let ghost mut seen: Multiset<Pair> = Multiset::empty();
    proof {
        lemma_pending_push(m, Seq::<Visit>::empty(), first);
        assert(pending@ =~= Seq::<Visit>::empty().push(first));
        assert(seen.add(pending_pairs(m, pending@)) =~= all);
        assert(visit_ok(m, cfg, q, first));
        assert(hits_view(results@) =~= Seq::<Hit>::empty());
        assert forall|c: Hit| #[trigger] occurs(hits_view(results@), c) <= hit_count(seen, kind, q, c) by {
            lemma_hit_count_empty(kind, q, c);
        }
        assert forall|c: Hit| !(#[trigger] occurs(hits_view(results@), c) < hit_count(seen, kind, q, c)) by {
            lemma_hit_count_empty(kind, q, c);
        }
    }
    while pending.len() > 0
        invariant
            k > 0,
            cfg.kind == kind,
            q == query@,
            q.len() == cfg.dim,
            store.wf(tx),
            store.nodes(tx) == m,
            m == old(store).nodes(tx),
            all == subtree_pairs(m, root, height as nat),
            store.next() == old(store).next(),
            store.dirty_ids() == old(store).dirty_ids(),
            store.writable() == old(store).writable(),
            forall|i: int| 0 <= i < pending@.len() ==> visit_ok(m, cfg, q, #[trigger] pending@[i]),
            seen.add(pending_pairs(m, pending@)) == all,
            is_knn(hits_view(results@), seen, kind, q, k as nat),
        decreases pending_size(m, pending@),
    {
        let i: usize = min_index(&pending);
        let visit: Visit = pending[i];
        let ghost before = pending@;
        let ghost res = hits_view(results@);
        let stop: bool = if results.len() >= k {
            visit.bound > kind.round(results[k - 1].1)
        } else {
            false
        };
        if stop {
            proof {
                let rest = pending_pairs(m, before);
                assert(res.last() == (results@[k - 1].0, results@[k - 1].1 as nat));
                assert forall|p: Pair| #[trigger] rest.count(p) > 0 implies res.last().1 < accumulate(
                    kind,
                    q,
                    p.0,
                ) by {
                    lemma_pending_member(m, before, p);
                    let j = choose|j: int|
                        0 <= j < before.len() && subtree_pairs(
                            m,
                            (#[trigger] before[j]).node,
                            before[j].level as nat,
                        ).count(p) > 0;
                    assert(visit_ok(m, cfg, q, before[j]));
                    assert(before[i as int].bound <= before[j].bound);
                    assert(before[j].bound <= dist(kind, q, p.0));
                    if accumulate(kind, q, p.0) <= res.last().1 {
                        lemma_rounded_monotonic(kind, accumulate(kind, q, p.0), res.last().1);
                    }
                }
                lemma_knn_skip(res, seen, rest, kind, q, k as nat);
            }
            return Ok(results);
        }
        pending.remove(i);
        let ghost after = pending@;
        let ghost h = visit.level as nat;
        let ghost sub = subtree_pairs(m, visit.node, h);
        proof {
            lemma_pending_remove(m, before, i as int);
            assert(visit_ok(m, cfg, q, before[i as int]));
            assert forall|t: int| 0 <= t < after.len() implies visit_ok(m, cfg, q, #[trigger] after[t]) by {
                if t < i {
                    assert(after[t] == before[t]);
                } else {
                    assert(after[t] == before[t + 1]);
                }
            }
            assert(subtree_size(m, visit.node, h) >= 1);
        }
        let ghost parent = choose|parent: Option<Seq<int>>| wf_subtree(m, cfg, visit.node, h, parent);
        let node = match store.load(tx, visit.node) {
            Ok(node) => node,
            Err(e) => {
                return Err(e);
            },
        };
        match node {
            Node::Leaf(entries) => {
                proof {
                    let es = leaf_views(entries@);
                    assert forall|t: int| 0 <= t < entries@.len() implies (#[trigger] entries@[t]).vector@.len()
                        == query@.len() by {
                        assert(es[t] == entries@[t]@);
                    }
                    assert(sub == leaf_pairs(es));
                }
                scan_leaf(kind, &entries, query, k, &mut results, Ghost(seen));
                proof {
                    let next = seen.add(sub);
                    assert(next.add(pending_pairs(m, after)) =~= all);
                    seen = next;
                }
            },
            Node::Routing(entries) => {
                proof {
                    lemma_routing_parts(m, cfg, visit.node, h, parent);
                }
                if visit.level == 0 {
                    return Err(IndexError::NodeNotFound);
                }
                let ghost es = routing_views(entries@);
                let out = scan_routing(
                    kind,
                    &entries,
                    query,
                    k,
                    &results,
                    &mut pending,
                    visit.level - 1,
                    Ghost(seen),
                    Ghost(m),
                    Ghost(cfg),
                );
                proof {
                    assert(sub == children_pairs(m, es, (h - 1) as nat));
                    assert(subtree_size(m, visit.node, h) == 1 + children_size(m, es, (h - 1) as nat));
                    assert(out@.add(pending_pairs(m, pending@)) =~= all);
                    seen = out@;
                }
            },
        }
    }
    proof {
        assert(pending_pairs(m, pending@) =~= Multiset::<Pair>::empty());
        assert(seen =~= all);
    }
    Ok(results)
}

} // verus!
