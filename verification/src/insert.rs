//! Insertion: the descent to a leaf, the entry that takes the new record,
//! and the way back up through the nodes whose children have grown.

use vstd::prelude::*;
use vstd::multiset::Multiset;
use crate::descent::{
    choose_subtree,
    in_subtree_keys,
    is_choice,
    leaf_has_pair,
    leaf_has_point,
    lemma_choice,
    lemma_choice_stable,
    lemma_target_frame,
    target_leaf,
};
use crate::error::IndexError;
use crate::grow::{
    apart,
    dist_within,
    grown_same,
    grown_split,
    half_ok,
    kids,
    lemma_apart_kept,
    lemma_assemble_leaf,
    lemma_assemble_routing,
    lemma_kids_after_same,
    lemma_kids_after_split,
    lemma_routing_parts,
    pairs_grown,
    PromotedView,
};
use crate::kv::Transaction;
use crate::node::{
    copy_docs,
    leaf_views,
    routing_views,
    DocId,
    LeafEntry,
    LeafEntryView,
    Node,
    NodeId,
    NodeView,
    RoutingEntry,
    RoutingEntryView,
};
use crate::outcome::{
    entry_of,
    exact,
    insert_spec,
    is_outcome,
    leaf_after,
    placed,
    raised,
    routing_outcome,
};
use crate::split::{
    changed_two,
    distance_of,
    leaf_split_at,
    leaf_vectors,
    lemma_farthest,
    pivots,
    routing_split_at,
    split_leaf,
    split_routing,
    Promoted,
};
use crate::store::{put, NodeStore};
use crate::tree::{
    agree_on,
    below_any,
    children_pairs,
    covers,
    doc_pairs,
    in_subtree,
    keys_below,
    leaf_ok,
    leaf_pairs,
    lemma_children_pairs_has,
    lemma_doc_pairs_member,
    lemma_doc_pairs_push,
    lemma_leaf_pairs_has,
    lemma_leaf_pairs_push,
    lemma_leaf_pairs_update,
    lemma_subtree_keys,
    parent_dist_ok,
    routing_ok,
    subtree_pairs,
    wf_subtree,
    Config,
    Nodes,
    Pair,
};
use crate::vector::{dist, is_point, lemma_dist_bound, Distance, Vector};

verus! {

/// What an insertion did to the subtree it went into.
#[derive(Debug)]
pub enum Growth {
    /// The root of the subtree is the node it was.
    Same,
    /// The root of the subtree was split into these two halves.
    Split(Promoted, Promoted),
}

/// The insertion ended without splitting the root of the subtree.
pub open spec fn is_same(r: Result<Growth, IndexError>) -> bool {
    r matches Ok(Growth::Same)
}

/// The point of an optional vector.
pub open spec fn parent_view(parent: Option<&Vector>) -> Option<Seq<int>> {
    match parent {
        Some(pv) => Some(pv@),
        None => None,
    }
}

/// The position of the entry that holds the point `v`, if there is one.
pub fn find_point(entries: &Vec<LeafEntry>, v: &Vector) -> (r: Option<usize>)
    ensures
        match r {
            Some(j) => j < entries@.len() && entries@[j as int].vector@ == v@ && forall|t: int|
                0 <= t < j ==> (#[trigger] entries@[t]).vector@ != v@,
            None => forall|t: int| 0 <= t < entries@.len() ==> (#[trigger] entries@[t]).vector@ != v@,
        },
{
    let mut j: usize = 0;
    while j < entries.len()
        invariant
            j <= entries.len(),
            forall|t: int| 0 <= t < j ==> (#[trigger] entries@[t]).vector@ != v@,
        decreases entries.len() - j,
    {
        if entries[j].vector.same_point(v) {
            return Some(j);
        }
        j = j + 1;
    }
    None
}

/// Whether the record is among the given ones.
pub fn contains_doc(docs: &Vec<DocId>, doc: DocId) -> (found: bool)
    ensures
        found == docs@.contains(doc),
{
    let mut j: usize = 0;
    while j < docs.len()
        invariant
            j <= docs.len(),
            forall|t: int| 0 <= t < j ==> docs@[t] != doc,
        decreases docs.len() - j,
    {
        if docs[j] == doc {
            return true;
        }
        j = j + 1;
    }
    false
}

/// The pairs of a vector with a single record.
pub proof fn lemma_doc_pairs_single(v: Seq<int>, doc: DocId)
    ensures
        doc_pairs(v, seq![doc]) == Multiset::<Pair>::empty().insert((v, doc)),
{
    assert(seq![doc].drop_last() =~= Seq::<DocId>::empty());
    assert(doc_pairs(v, Seq::<DocId>::empty()) == Multiset::<Pair>::empty());
    assert(seq![doc].last() == doc);
}

/// Puts the record `doc` of the point `v` into the leaf `id`, whose
/// entries are given. An entry that holds `v` takes the record, unless it
/// has it. Otherwise a new entry is added at the end, and a leaf that then
/// has more entries than the capacity is split.
pub(crate) fn insert_leaf(
    kind: Distance,
    cap: usize,
    store: &mut NodeStore,
    tx: &Transaction,
    id: NodeId,
    entries: Vec<LeafEntry>,
    parent: Option<&Vector>,
    v: &Vector,
    doc: DocId,
    Ghost(cfg): Ghost<Config>,
) -> (r: Result<Growth, IndexError>)
    requires
        cfg.kind == kind,
        cfg.cap == cap,
        cap >= 2,
        cfg.dim == v@.len(),
        old(store).wf(tx),
        old(store).writable(),
        old(store).next() < usize::MAX,
        wf_subtree(old(store).nodes(tx), cfg, id, 0, parent_view(parent)),
        old(store).nodes(tx)[id] == NodeView::Leaf(leaf_views(entries@)),
        parent is Some ==> parent->Some_0@.len() == cfg.dim,
    ensures
        final(store).wf(tx),
        final(store).writable(),
        old(store).next() <= final(store).next() <= old(store).next() + 1,
        r is Ok,
        match r {
            Ok(Growth::Same) => grown_same(
                old(store).nodes(tx),
                final(store).nodes(tx),
                cfg,
                id,
                0,
                parent_view(parent),
                (v@, doc),
                old(store).next() as nat,
            ),
            Ok(Growth::Split(a, b)) => grown_split(
                old(store).nodes(tx),
                final(store).nodes(tx),
                cfg,
                id,
                0,
                a@,
                b@,
                (v@, doc),
                old(store).next() as nat,
            ),
            Err(_) => true,
        },
        exact(
            old(store).nodes(tx),
            final(store).nodes(tx),
            kind,
            id,
            0,
            (v@, doc),
            is_same(r),
            old(store).next() as nat,
            final(store).next() as nat,
        ),
        is_outcome(
            insert_spec(
                old(store).nodes(tx),
                kind,
                cap as nat,
                id,
                0,
                parent_view(parent),
                (v@, doc),
                old(store).next() as nat,
            ),
            final(store).nodes(tx),
            final(store).next() as nat,
            r,
        ),
{
    let ghost m0 = store.nodes(tx);
    let ghost es0 = leaf_views(entries@);
    let ghost p: Pair = (v@, doc);
    let ghost par = parent_view(parent);
    let mut entries = entries;
    proof {
        store.lemma_nodes_bounded(tx);
        v.lemma_is_point();
        assert(subtree_pairs(m0, id, 0) == leaf_pairs(es0));
    }
    match find_point(&entries, v) {
        Some(j) => {
            assert(es0[j as int] == entries@[j as int]@);
            proof {
                let jj = choose|jj: int| 0 <= jj < es0.len() && (#[trigger] es0[jj]).vector == p.0;
                if jj < j {
                    assert(es0[jj].vector != es0[j as int].vector);
                } else if jj > j {
                    assert(es0[j as int].vector != es0[jj].vector);
                }
                assert(jj == j);
            }
            if contains_doc(&entries[j].docs, doc) {
                proof {
                    lemma_doc_pairs_member(es0[j as int].vector, es0[j as int].docs, p);
                    lemma_leaf_pairs_has(es0, j as int, p);
                    assert(leaf_has_pair(m0, id, p));
                    assert(placed(m0, m0, kind, id, 0, p));
                    assert(leaf_after(kind, es0, par, p) == es0);
                    assert(m0.insert(id, NodeView::Leaf(es0)) =~= m0);
                }
                Ok(Growth::Same)
            } else {
                let mut docs = copy_docs(&entries[j].docs);
                docs.push(doc);
                let ne = LeafEntry {
                    vector: entries[j].vector.clone(),
                    docs,
                    parent_dist: entries[j].parent_dist,
                };
                entries.set(j, ne);
                let ghost es1 = leaf_views(entries@);
                proof {
                    assert(es1 =~= es0.update(j as int, ne@));
                    assert(ne@.docs == es0[j as int].docs.push(doc));
                    assert(ne@.docs.no_duplicates());
                    assert forall|i: int| 0 <= i < es1.len() implies {
                        let e = #[trigger] es1[i];
                        &&& e.vector.len() == cfg.dim
                        &&& is_point(e.vector)
                        &&& e.docs.len() >= 1
                        &&& e.docs.no_duplicates()
                        &&& parent_dist_ok(cfg.kind, e.vector, par, e.parent_dist)
                    } by {
                        if i != j {
                            assert(es1[i] == es0[i]);
                        } else {
                            assert(es0[j as int].vector.len() == cfg.dim);
                        }
                    }
                    assert forall|a: int, b: int| 0 <= a < b < es1.len() implies (#[trigger] es1[a]).vector != (
                    #[trigger] es1[b]).vector by {
                        assert(es1[a].vector == es0[a].vector);
                        assert(es1[b].vector == es0[b].vector);
                    }
                    assert(leaf_ok(cfg, es1, par));
                    lemma_leaf_pairs_update(es0, j as int, ne@);
                    lemma_doc_pairs_push(es0[j as int].vector, es0[j as int].docs, doc);
                    let d_old = doc_pairs(es0[j as int].vector, es0[j as int].docs);
                    let d_new = doc_pairs(ne@.vector, ne@.docs);
                    assert(d_new == d_old.insert(p));
                    assert forall|q: Pair| leaf_pairs(es1).count(q) == leaf_pairs(es0).insert(p).count(q) by {
                        assert(leaf_pairs(es1).add(d_old).count(q) == leaf_pairs(es0).add(d_new).count(q));
                    }
                    assert(leaf_pairs(es1) =~= leaf_pairs(es0).insert(p));
                    lemma_assemble_leaf(m0, cfg, id, es1, par);
                    assert(!leaf_has_pair(m0, id, p)) by {
                        if leaf_has_pair(m0, id, p) {
                            let t = choose|t: int|
                                0 <= t < es0.len() && (#[trigger] es0[t]).vector == p.0 && es0[t].docs.contains(
                                    p.1,
                                );
                            if t < j {
                                assert(es0[t].vector != es0[j as int].vector);
                            } else if t > j {
                                assert(es0[j as int].vector != es0[t].vector);
                            }
                        }
                    }
                    let m1 = m0.insert(id, NodeView::Leaf(es1));
                    assert(leaf_has_pair(m1, id, p)) by {
                        assert(es1[j as int].vector == p.0);
                        assert(es1[j as int].docs[es1[j as int].docs.len() - 1] == doc);
                    }
                    assert forall|d: DocId| leaf_has_pair(m0, id, (p.0, d)) implies #[trigger] leaf_has_pair(
                        m1,
                        id,
                        (p.0, d),
                    ) by {
                        let t = choose|t: int|
                            0 <= t < es0.len() && (#[trigger] es0[t]).vector == p.0 && es0[t].docs.contains(d);
                        if t == j {
                            let w = choose|w: int| 0 <= w < es0[t].docs.len() && es0[t].docs[w] == d;
                            assert(es1[t].docs[w] == d);
                        } else {
                            assert(es1[t] == es0[t]);
                        }
                        assert(es1[t].vector == p.0 && es1[t].docs.contains(d));
                    }
                    assert(placed(m0, m1, kind, id, 0, p));
                    assert(ne@ == LeafEntryView {
                        vector: es0[j as int].vector,
                        docs: es0[j as int].docs.push(doc),
                        parent_dist: es0[j as int].parent_dist,
                    });
                    assert(leaf_after(kind, es0, par, p) == es1);
                }
                let r = put(store, tx, id, Node::Leaf(entries));
                Ok(Growth::Same)
            }
        },
        None => {
            let pd: Option<u128> = match parent {
                Some(pv) => Some(distance_of(kind, v, pv)),
                None => None,
            };
            let ne = LeafEntry { vector: v.clone(), docs: vec![doc], parent_dist: pd };
            entries.push(ne);
            let ghost es1 = leaf_views(entries@);
            proof {
                assert(es1 =~= es0.push(ne@));
                assert(ne@.docs =~= seq![doc]);
                assert(ne@.docs.no_duplicates());
                lemma_leaf_pairs_push(es0, ne@);
                lemma_doc_pairs_single(v@, doc);
                assert(leaf_pairs(es1) =~= leaf_pairs(es0).insert(p));
                assert forall|i: int| 0 <= i < es1.len() implies {
                    let e = #[trigger] es1[i];
                    &&& e.vector.len() == cfg.dim
                    &&& is_point(e.vector)
                    &&& e.docs.len() >= 1
                    &&& e.docs.no_duplicates()
                    &&& parent_dist_ok(cfg.kind, e.vector, par, e.parent_dist)
                } by {
                    if i < es0.len() {
                        assert(es1[i] == es0[i]);
                    }
                }
                assert forall|a: int, b: int| 0 <= a < b < es1.len() implies (#[trigger] es1[a]).vector != (
                #[trigger] es1[b]).vector by {
                    assert(es1[a] == es0[a]);
                    assert(es0[a] == entries@[a]@);
                    if b < es0.len() {
                        assert(es1[b] == es0[b]);
                    }
                }
            }
            proof {
                assert(!leaf_has_point(m0, id, p.0)) by {
                    if leaf_has_point(m0, id, p.0) {
                        let t = choose|t: int| 0 <= t < es0.len() && (#[trigger] es0[t]).vector == p.0;
                        assert(es0[t] == entries@[t]@);
                    }
                }
                assert(!leaf_has_pair(m0, id, p)) by {
                    if leaf_has_pair(m0, id, p) {
                        let t = choose|t: int|
                            0 <= t < es0.len() && (#[trigger] es0[t]).vector == p.0 && es0[t].docs.contains(p.1);
                        assert(leaf_has_point(m0, id, p.0));
                    }
                }
                assert(!(exists|t: int| 0 <= t < es0.len() && (#[trigger] es0[t]).vector == p.0)) by {
                    if exists|t: int| 0 <= t < es0.len() && (#[trigger] es0[t]).vector == p.0 {
                        assert(leaf_has_point(m0, id, p.0));
                    }
                }
                if parent is Some {
                    lemma_dist_bound(kind, p.0, parent->Some_0@);
                    parent->Some_0.lemma_is_point();
                }
                assert(leaf_after(kind, es0, par, p) == es1);
                assert forall|d: DocId| !leaf_has_pair(m0, id, (p.0, d)) by {
                    if leaf_has_pair(m0, id, (p.0, d)) {
                        let t = choose|t: int|
                            0 <= t < es0.len() && (#[trigger] es0[t]).vector == p.0 && es0[t].docs.contains(d);
                        assert(leaf_has_point(m0, id, p.0));
                    }
                }
            }
            if entries.len() <= cap {
                proof {
                    assert(leaf_ok(cfg, es1, par));
                    lemma_assemble_leaf(m0, cfg, id, es1, par);
                    let m1 = m0.insert(id, NodeView::Leaf(es1));
                    assert(leaf_has_pair(m1, id, p)) by {
                        let t = es1.len() - 1;
                        assert(es1[t] == ne@);
                        assert(ne@.docs[0] == doc);
                    }
                    assert(placed(m0, m1, kind, id, 0, p));
                }
                let r = put(store, tx, id, Node::Leaf(entries));
                Ok(Growth::Same)
            } else {
                match split_leaf(kind, store, tx, id, entries, Ghost(cfg)) {
                    Ok((a, b)) => {
                        proof {
                            let m1 = store.nodes(tx);
                            let ij = choose|ij: (int, int)|
                                leaf_split_at(kind, es1, ij.0, ij.1, a@, b@, m0, m1);
                            assert(leaf_split_at(kind, es1, ij.0, ij.1, a@, b@, m0, m1)) by {
                                let w = choose|i: int, j: int| leaf_split_at(kind, es1, i, j, a@, b@, m0, m1);
                                assert(leaf_split_at(kind, es1, (w.0, w.1).0, (w.0, w.1).1, a@, b@, m0, m1));
                            }
                            lemma_farthest(kind, leaf_vectors(es1), ij.0, ij.1);
                            assert(a.node == id && b.node == old(store).next());
                            assert forall|x: NodeId| #[trigger] in_subtree(m1, a.node, 0, x) implies in_subtree(
                                m0,
                                id,
                                0,
                                x,
                            ) || x >= old(store).next() by {}
                            assert forall|x: NodeId| #[trigger] in_subtree(m1, b.node, 0, x) implies in_subtree(
                                m0,
                                id,
                                0,
                                x,
                            ) || x >= old(store).next() by {}
                        }
                        Ok(Growth::Split(a, b))
                    },
                    Err(e) => Err(e),
                }
            }
        },
    }
}

/// Writing a routing node whose children are good again, after one of
/// them has taken the pair `p`, makes the subtree of the node one that has
/// taken `p`.
pub proof fn lemma_absorbed(
    m0: Nodes,
    m1: Nodes,
    cfg: Config,
    id: NodeId,
    h: nat,
    par: Option<Seq<int>>,
    es0: Seq<RoutingEntryView>,
    es1: Seq<RoutingEntryView>,
    p: Pair,
    fresh: nat,
)
    requires
        h > 0,
        m0.contains_key(id),
        m0[id] == NodeView::Routing(es0),
        id < fresh,
        apart(m0, es0, (h - 1) as nat, id),
        routing_ok(cfg, es1, par),
        kids(m1, cfg, es1, (h - 1) as nat),
        pairs_grown(children_pairs(m0, es0, (h - 1) as nat), children_pairs(m1, es1, (h - 1) as nat), p),
        forall|x: NodeId|
            #[trigger] below_any(m1, es1, (h - 1) as nat, x) ==> below_any(m0, es0, (h - 1) as nat, x) || x
                >= fresh,
        forall|x: NodeId|
            #![trigger m1.contains_key(x)]
            #![trigger m1[x]]
            m0.contains_key(x) && !below_any(m0, es0, (h - 1) as nat, x) ==> m1.contains_key(x) && m1[x]
                == m0[x],
    ensures
        grown_same(m0, m1.insert(id, NodeView::Routing(es1)), cfg, id, h, par, p, fresh),
        subtree_pairs(m1.insert(id, NodeView::Routing(es1)), id, h) == children_pairs(m1, es1, (h - 1) as nat),
        subtree_pairs(m0, id, h) == children_pairs(m0, es0, (h - 1) as nat),
        forall|x: NodeId|
            in_subtree(m1.insert(id, NodeView::Routing(es1)), id, h, x) == (x == id || below_any(
                m1,
                es1,
                (h - 1) as nat,
                x,
            )),
{
    let hc = (h - 1) as nat;
    let m2 = m1.insert(id, NodeView::Routing(es1));
    lemma_apart_kept(m0, m1, id, hc, es0, es1, fresh);
    lemma_assemble_routing(m1, cfg, id, es1, hc, par);
    assert(subtree_pairs(m0, id, h) == children_pairs(m0, es0, hc));
    assert forall|x: NodeId| #[trigger] in_subtree(m2, id, h, x) implies in_subtree(m0, id, h, x) || x
        >= fresh by {
        assert(x == id || below_any(m1, es1, hc, x));
    }
    assert forall|x: NodeId|
        #![trigger m2.contains_key(x)]
        #![trigger m2[x]]
        m0.contains_key(x) && !in_subtree(m0, id, h, x) implies m2.contains_key(x) && m2[x] == m0[x] by {
        assert(!below_any(m0, es0, hc, x));
        assert(m1.contains_key(x) && m1[x] == m0[x]);
    }
}

/// Takes up, in the routing node `id`, an insertion below the child at
/// `i` that left the child the node it was: the radius of the entry is
/// raised to `d`, the distance from its pivot to the new point, if it is
/// less.
pub(crate) fn absorb_same(
    kind: Distance,
    cap: usize,
    store: &mut NodeStore,
    tx: &Transaction,
    id: NodeId,
    entries: Vec<RoutingEntry>,
    i: usize,
    d: u128,
    parent: Option<&Vector>,
    Ghost(cfg): Ghost<Config>,
    Ghost(m0): Ghost<Nodes>,
    Ghost(fresh): Ghost<nat>,
    Ghost(h): Ghost<nat>,
    Ghost(p): Ghost<Pair>,
) -> (r: Result<Growth, IndexError>)
    requires
        cfg.kind == kind,
        cfg.cap == cap,
        cap >= 2,
        old(store).wf(tx),
        old(store).writable(),
        old(store).next() < usize::MAX,
        fresh <= old(store).next(),
        keys_below(m0, fresh),
        h > 0,
        wf_subtree(m0, cfg, id, h, parent_view(parent)),
        m0[id] == NodeView::Routing(routing_views(entries@)),
        parent is Some ==> parent->Some_0@.len() == cfg.dim,
        i < entries@.len(),
        is_choice(kind, routing_views(entries@), p.0, i as int),
        d == dist(kind, entries@[i as int].pivot@, p.0),
        exact(
            m0,
            old(store).nodes(tx),
            kind,
            entries@[i as int].child,
            (h - 1) as nat,
            p,
            true,
            fresh,
            old(store).next() as nat,
        ),
        is_outcome(
            insert_spec(
                m0,
                kind,
                cap as nat,
                entries@[i as int].child,
                (h - 1) as nat,
                Some(entries@[i as int].pivot@),
                p,
                fresh,
            ),
            old(store).nodes(tx),
            old(store).next() as nat,
            Ok::<Growth, IndexError>(Growth::Same),
        ),
        grown_same(
            m0,
            old(store).nodes(tx),
            cfg,
            entries@[i as int].child,
            (h - 1) as nat,
            Some(entries@[i as int].pivot@),
            p,
            fresh,
        ),
    ensures
        final(store).wf(tx),
        final(store).writable(),
        old(store).next() <= final(store).next() <= old(store).next() + 1,
        r is Ok,
        match r {
            Ok(Growth::Same) => grown_same(m0, final(store).nodes(tx), cfg, id, h, parent_view(parent), p, fresh),
            Ok(Growth::Split(a, b)) => grown_split(m0, final(store).nodes(tx), cfg, id, h, a@, b@, p, fresh),
            Err(_) => true,
        },
        exact(m0, final(store).nodes(tx), kind, id, h, p, is_same(r), fresh, final(store).next() as nat),
        is_outcome(
            insert_spec(m0, kind, cap as nat, id, h, parent_view(parent), p, fresh),
            final(store).nodes(tx),
            final(store).next() as nat,
            r,
        ),
{
    let ghost m1 = store.nodes(tx);
    let ghost es0 = routing_views(entries@);
    let ghost hc = (h - 1) as nat;
    let ghost par = parent_view(parent);
    let mut entries = entries;
    proof {
        store.lemma_nodes_bounded(tx);
        lemma_routing_parts(m0, cfg, id, h, par);
        assert(es0[i as int] == entries@[i as int]@);
        assert(subtree_pairs(m0, id, h) == children_pairs(m0, es0, hc));
        assert(m0.contains_key(id));
        lemma_choice(kind, es0, p.0, i as int);
        assert(target_leaf(m0, kind, id, h, p.0) == target_leaf(m0, kind, es0[i as int].child, hc, p.0));
        assert(in_subtree(m0, id, h, target_leaf(m0, kind, id, h, p.0))) by {
            assert(in_subtree(m0, es0[i as int].child, hc, target_leaf(m0, kind, id, h, p.0)));
        }
        lemma_children_pairs_has(m0, es0, hc, i as int, p);
    }
    let ghost leaf = target_leaf(m0, kind, id, h, p.0);
    let ghost next1 = store.next() as nat;
    let radius: u128 = if d > entries[i].radius {
        d
    } else {
        entries[i].radius
    };
    let ne = RoutingEntry {
        pivot: entries[i].pivot.clone(),
        radius,
        child: entries[i].child,
        parent_dist: entries[i].parent_dist,
    };
    entries.set(i, ne);
    let ghost es1 = routing_views(entries@);
    proof {
        assert(es1 =~= es0.update(i as int, ne@));
        assert(ne@ == raised(kind, es0[i as int], p.0));
        assert(dist_within(cfg, es1[i as int], p));
        lemma_kids_after_same(m0, m1, cfg, es0, es1, i as int, hc, p, fresh);
        lemma_absorbed(m0, m1, cfg, id, h, par, es0, es1, p, fresh);
        let m2 = m1.insert(id, NodeView::Routing(es1));
        let c = es0[i as int].child;
        if leaf_has_pair(m0, leaf, p) {
            assert(covers(m0, cfg.kind, c, hc, es0[i as int].pivot, es0[i as int].radius as int));
            assert(d <= es0[i as int].radius);
            assert(ne@ == es0[i as int]);
            assert(es1 =~= es0);
            assert(m2 =~= m0);
        }
        if next1 == fresh {
            lemma_choice_stable(kind, es0, es1, p.0, i as int);
            lemma_choice(kind, es1, p.0, i as int);
            lemma_apart_kept(m0, m1, id, hc, es0, es1, fresh);
            assert(agree_on(m1, m2, c, hc)) by {
                assert forall|x: NodeId|
                    #[trigger] in_subtree(m1, c, hc, x) && m1.contains_key(x) implies m2.contains_key(x)
                    && m2[x] == m1[x] by {
                    assert(es1[i as int].child == c);
                    assert(x != id);
                }
            }
            assert(in_subtree_keys(m1, c, hc)) by {
                assert forall|x: NodeId| #[trigger] in_subtree(m1, c, hc, x) implies m1.contains_key(x) by {
                    lemma_subtree_keys(m1, cfg, c, hc, Some(es0[i as int].pivot), x);
                }
            }
            lemma_target_frame(m1, m2, kind, c, hc, p.0);
            assert(m2[id] == NodeView::Routing(es1));
            assert(es1[i as int].child == c);
            assert(target_leaf(m2, kind, id, h, p.0) == target_leaf(m2, kind, c, hc, p.0));
            assert(in_subtree(m1, c, hc, leaf));
            assert(leaf != id);
            assert(below_any(m1, es1, hc, leaf));
            assert(m2[leaf] == m1[leaf]);
            assert forall|dd: DocId| leaf_has_pair(m0, leaf, (p.0, dd)) implies #[trigger] leaf_has_pair(
                m2,
                leaf,
                (p.0, dd),
            ) by {
                assert(leaf_has_pair(m1, leaf, (p.0, dd)));
            }
            assert(placed(m0, m2, kind, id, h, p));
        }
    }
    let r = put(store, tx, id, Node::Routing(entries));
    Ok(Growth::Same)
}

/// A routing node that was split after one of its children was split has
/// two halves that hold between them what the node held and the new pair,
/// out of nodes that the node had or that are new, and nothing outside the
/// node has changed.
pub proof fn lemma_split_taken(
    m0: Nodes,
    m1: Nodes,
    m2: Nodes,
    cfg: Config,
    id: NodeId,
    h: nat,
    es0: Seq<RoutingEntryView>,
    es1: Seq<RoutingEntryView>,
    a: PromotedView,
    b: PromotedView,
    p: Pair,
    fresh: nat,
)
    requires
        h > 0,
        m0.contains_key(id),
        m0[id] == NodeView::Routing(es0),
        id < fresh,
        keys_below(m0, fresh),
        children_pairs(m1, es1, (h - 1) as nat) == children_pairs(m0, es0, (h - 1) as nat).insert(p),
        forall|x: NodeId|
            #[trigger] below_any(m1, es1, (h - 1) as nat, x) ==> below_any(m0, es0, (h - 1) as nat, x) || x
                >= fresh,
        forall|x: NodeId|
            #![trigger m1.contains_key(x)]
            #![trigger m1[x]]
            m0.contains_key(x) && !below_any(m0, es0, (h - 1) as nat, x) ==> m1.contains_key(x) && m1[x]
                == m0[x],
        a.node == id,
        b.node >= fresh,
        half_ok(m2, cfg, h, a),
        half_ok(m2, cfg, h, b),
        subtree_pairs(m2, a.node, h).add(subtree_pairs(m2, b.node, h)) == children_pairs(
            m1,
            es1,
            (h - 1) as nat,
        ),
        forall|x: NodeId| in_subtree(m2, a.node, h, x) ==> x == id || below_any(m1, es1, (h - 1) as nat, x),
        forall|x: NodeId|
            in_subtree(m2, b.node, h, x) ==> x == b.node || below_any(m1, es1, (h - 1) as nat, x),
        forall|x: NodeId| !(#[trigger] in_subtree(m2, a.node, h, x) && in_subtree(m2, b.node, h, x)),
        changed_two(m1, m2, id, b.node),
    ensures
        grown_split(m0, m2, cfg, id, h, a, b, p, fresh),
{
    let hc = (h - 1) as nat;
    assert(subtree_pairs(m0, id, h) == children_pairs(m0, es0, hc));
    assert forall|x: NodeId| #[trigger] in_subtree(m2, a.node, h, x) implies in_subtree(m0, id, h, x) || x
        >= fresh by {
        assert(x == id || below_any(m1, es1, hc, x));
    }
    assert forall|x: NodeId| #[trigger] in_subtree(m2, b.node, h, x) implies in_subtree(m0, id, h, x) || x
        >= fresh by {
        assert(x == b.node || below_any(m1, es1, hc, x));
    }
    assert forall|x: NodeId|
        #![trigger m2.contains_key(x)]
        #![trigger m2[x]]
        m0.contains_key(x) && !in_subtree(m0, id, h, x) implies m2.contains_key(x) && m2[x] == m0[x] by {
        assert(!below_any(m0, es0, hc, x));
        assert(m1.contains_key(x) && m1[x] == m0[x]);
    }
}

/// Writes the routing node `id` with the entries it has after one of its
/// children was split, or splits it if the entries are more than the
/// capacity.
pub(crate) fn settle(
    kind: Distance,
    cap: usize,
    store: &mut NodeStore,
    tx: &Transaction,
    id: NodeId,
    entries: Vec<RoutingEntry>,
    Ghost(cfg): Ghost<Config>,
    Ghost(m0): Ghost<Nodes>,
    Ghost(fresh): Ghost<nat>,
    Ghost(h): Ghost<nat>,
    Ghost(p): Ghost<Pair>,
    Ghost(par): Ghost<Option<Seq<int>>>,
    Ghost(es0): Ghost<Seq<RoutingEntryView>>,
) -> (r: Result<Growth, IndexError>)
    requires
        cfg.kind == kind,
        cfg.cap == cap,
        cap >= 2,
        old(store).wf(tx),
        old(store).writable(),
        old(store).next() < usize::MAX,
        id < fresh <= old(store).next(),
        keys_below(m0, fresh),
        h > 0,
        m0.contains_key(id),
        m0[id] == NodeView::Routing(es0),
        apart(m0, es0, (h - 1) as nat, id),
        apart(old(store).nodes(tx), routing_views(entries@), (h - 1) as nat, id),
        2 <= entries@.len() <= cap + 1,
        forall|j: int|
            0 <= j < entries@.len() ==> {
                let e = #[trigger] routing_views(entries@)[j];
                &&& e.pivot.len() == cfg.dim
                &&& is_point(e.pivot)
                &&& parent_dist_ok(cfg.kind, e.pivot, par, e.parent_dist)
            },
        kids(old(store).nodes(tx), cfg, routing_views(entries@), (h - 1) as nat),
        children_pairs(old(store).nodes(tx), routing_views(entries@), (h - 1) as nat) == children_pairs(
            m0,
            es0,
            (h - 1) as nat,
        ).insert(p),
        forall|x: NodeId|
            #[trigger] below_any(old(store).nodes(tx), routing_views(entries@), (h - 1) as nat, x)
                ==> below_any(m0, es0, (h - 1) as nat, x) || x >= fresh,
        forall|x: NodeId|
            #![trigger old(store).nodes(tx).contains_key(x)]
            #![trigger old(store).nodes(tx)[x]]
            m0.contains_key(x) && !below_any(m0, es0, (h - 1) as nat, x)
                ==> old(store).nodes(tx).contains_key(x) && old(store).nodes(tx)[x] == m0[x],
    ensures
        final(store).wf(tx),
        final(store).writable(),
        old(store).next() <= final(store).next() <= old(store).next() + 1,
        r is Ok,
        match r {
            Ok(Growth::Same) => grown_same(m0, final(store).nodes(tx), cfg, id, h, par, p, fresh)
                && final(store).next() == old(store).next(),
            Ok(Growth::Split(a, b)) => grown_split(m0, final(store).nodes(tx), cfg, id, h, a@, b@, p, fresh)
                && final(store).next() == old(store).next() + 1,
            Err(_) => true,
        },
        !is_same(r) || subtree_pairs(final(store).nodes(tx), id, h) == children_pairs(
            m0,
            es0,
            (h - 1) as nat,
        ).insert(p),
        is_outcome(
            routing_outcome(
                old(store).nodes(tx),
                kind,
                cap as nat,
                id,
                routing_views(entries@),
                old(store).next() as nat,
            ),
            final(store).nodes(tx),
            final(store).next() as nat,
            r,
        ),
{
    let ghost m1 = store.nodes(tx);
    let ghost es1 = routing_views(entries@);
    let ghost hc = (h - 1) as nat;
    if entries.len() <= cap {
        proof {
            assert(routing_ok(cfg, es1, par));
            lemma_absorbed(m0, m1, cfg, id, h, par, es0, es1, p, fresh);
        }
        let r = put(store, tx, id, Node::Routing(entries));
        Ok(Growth::Same)
    } else {
        match split_routing(kind, store, tx, id, entries, Ghost(cfg), Ghost(hc)) {
            Ok((a2, b2)) => {
                proof {
                    let m2 = store.nodes(tx);
                    let w = choose|i: int, j: int| routing_split_at(kind, es1, i, j, a2@, b2@, m1, m2);
                    assert(routing_split_at(kind, es1, w.0, w.1, a2@, b2@, m1, m2));
                    lemma_farthest(kind, pivots(es1), w.0, w.1);
                    lemma_split_taken(m0, m1, m2, cfg, id, h, es0, es1, a2@, b2@, p, fresh);
                }
                Ok(Growth::Split(a2, b2))
            },
            Err(e) => Err(e),
        }
    }
}

/// Takes up, in the routing node `id`, an insertion below the child at
/// `i` that split the child: the first half stands in the place of the
/// child and the second half at the end, and a node that then has more
/// entries than the capacity is split itself.
pub(crate) fn absorb_split(
    kind: Distance,
    cap: usize,
    store: &mut NodeStore,
    tx: &Transaction,
    id: NodeId,
    entries: Vec<RoutingEntry>,
    i: usize,
    a: Promoted,
    b: Promoted,
    parent: Option<&Vector>,
    Ghost(cfg): Ghost<Config>,
    Ghost(m0): Ghost<Nodes>,
    Ghost(fresh): Ghost<nat>,
    Ghost(h): Ghost<nat>,
    Ghost(p): Ghost<Pair>,
) -> (r: Result<Growth, IndexError>)
    requires
        cfg.kind == kind,
        cfg.cap == cap,
        cap >= 2,
        old(store).wf(tx),
        old(store).writable(),
        old(store).next() < usize::MAX,
        fresh <= old(store).next(),
        keys_below(m0, fresh),
        h > 0,
        wf_subtree(m0, cfg, id, h, parent_view(parent)),
        m0[id] == NodeView::Routing(routing_views(entries@)),
        parent is Some ==> parent->Some_0@.len() == cfg.dim,
        i < entries@.len(),
        is_choice(kind, routing_views(entries@), p.0, i as int),
        exact(
            m0,
            old(store).nodes(tx),
            kind,
            entries@[i as int].child,
            (h - 1) as nat,
            p,
            false,
            fresh,
            old(store).next() as nat,
        ),
        is_outcome(
            insert_spec(
                m0,
                kind,
                cap as nat,
                entries@[i as int].child,
                (h - 1) as nat,
                Some(entries@[i as int].pivot@),
                p,
                fresh,
            ),
            old(store).nodes(tx),
            old(store).next() as nat,
            Ok::<Growth, IndexError>(Growth::Split(a, b)),
        ),
        grown_split(
            m0,
            old(store).nodes(tx),
            cfg,
            entries@[i as int].child,
            (h - 1) as nat,
            a@,
            b@,
            p,
            fresh,
        ),
    ensures
        final(store).wf(tx),
        final(store).writable(),
        old(store).next() <= final(store).next() <= old(store).next() + 1,
        r is Ok,
        match r {
            Ok(Growth::Same) => grown_same(m0, final(store).nodes(tx), cfg, id, h, parent_view(parent), p, fresh),
            Ok(Growth::Split(a, b)) => grown_split(m0, final(store).nodes(tx), cfg, id, h, a@, b@, p, fresh),
            Err(_) => true,
        },
        exact(m0, final(store).nodes(tx), kind, id, h, p, is_same(r), fresh, final(store).next() as nat),
        is_outcome(
            insert_spec(m0, kind, cap as nat, id, h, parent_view(parent), p, fresh),
            final(store).nodes(tx),
            final(store).next() as nat,
            r,
        ),
{
    let ghost m1 = store.nodes(tx);
    let ghost es0 = routing_views(entries@);
    let ghost hc = (h - 1) as nat;
    let ghost par = parent_view(parent);
    let mut entries = entries;
    proof {
        store.lemma_nodes_bounded(tx);
        lemma_routing_parts(m0, cfg, id, h, par);
        assert(es0[i as int] == entries@[i as int]@);
        assert(subtree_pairs(m0, id, h) == children_pairs(m0, es0, hc));
        assert(m0.contains_key(id));
        lemma_choice(kind, es0, p.0, i as int);
        assert(target_leaf(m0, kind, id, h, p.0) == target_leaf(m0, kind, es0[i as int].child, hc, p.0));
        assert(in_subtree(m0, id, h, target_leaf(m0, kind, id, h, p.0))) by {
            assert(in_subtree(m0, es0[i as int].child, hc, target_leaf(m0, kind, id, h, p.0)));
        }
        lemma_children_pairs_has(m0, es0, hc, i as int, p);
    }
    let ghost leaf = target_leaf(m0, kind, id, h, p.0);
    let ghost next1 = store.next() as nat;
    let pa: Option<u128> = match parent {
        Some(pv) => Some(distance_of(kind, &a.pivot, pv)),
        None => None,
    };
    let pb: Option<u128> = match parent {
        Some(pv) => Some(distance_of(kind, &b.pivot, pv)),
        None => None,
    };
    let ghost av = a@;
    let ghost bv = b@;
    let ea = RoutingEntry { pivot: a.pivot, radius: a.radius, child: a.node, parent_dist: pa };
    let eb = RoutingEntry { pivot: b.pivot, radius: b.radius, child: b.node, parent_dist: pb };
    entries.set(i, ea);
    entries.push(eb);
    let ghost es1 = routing_views(entries@);
    proof {
        assert(es1 =~= es0.update(i as int, ea@).push(eb@));
        if parent is Some {
            parent->Some_0.lemma_is_point();
            lemma_dist_bound(kind, av.pivot, parent->Some_0@);
            lemma_dist_bound(kind, bv.pivot, parent->Some_0@);
        }
        assert(ea@ == entry_of(kind, av, par));
        assert(eb@ == entry_of(kind, bv, par));
        lemma_kids_after_split(m0, m1, cfg, es0, es1, i as int, hc, av, bv, p, fresh);
        assert forall|j: int| 0 <= j < es1.len() implies {
            let e = #[trigger] es1[j];
            &&& e.pivot.len() == cfg.dim
            &&& is_point(e.pivot)
            &&& parent_dist_ok(cfg.kind, e.pivot, par, e.parent_dist)
        } by {
            if j != i && j < es0.len() {
                assert(es1[j] == es0[j]);
            }
        }
    }
    proof {
        lemma_apart_kept(m0, m1, id, hc, es0, es1, fresh);
    }
    settle(
        kind,
        cap,
        store,
        tx,
        id,
        entries,
        Ghost(cfg),
        Ghost(m0),
        Ghost(fresh),
        Ghost(h),
        Ghost(p),
        Ghost(par),
        Ghost(es0),
    )
}

/// Inserts the record `doc` of the point `v` below the node `id`, which
/// stands `h` levels above the leaves.
pub(crate) fn insert_at(
    kind: Distance,
    cap: usize,
    store: &mut NodeStore,
    tx: &Transaction,
    id: NodeId,
    h: u64,
    parent: Option<&Vector>,
    v: &Vector,
    doc: DocId,
    Ghost(cfg): Ghost<Config>,
) -> (r: Result<Growth, IndexError>)
    requires
        cfg.kind == kind,
        cfg.cap == cap,
        cap >= 2,
        cfg.dim == v@.len(),
        old(store).wf(tx),
        old(store).writable(),
        old(store).next() + h + 1 <= usize::MAX,
        wf_subtree(old(store).nodes(tx), cfg, id, h as nat, parent_view(parent)),
        parent is Some ==> parent->Some_0@.len() == cfg.dim,
    ensures
        final(store).wf(tx),
        final(store).writable(),
        old(store).next() <= final(store).next() <= old(store).next() + h + 1,
        r is Ok,
        match r {
            Ok(Growth::Same) => grown_same(
                old(store).nodes(tx),
                final(store).nodes(tx),
                cfg,
                id,
                h as nat,
                parent_view(parent),
                (v@, doc),
                old(store).next() as nat,
            ),
            Ok(Growth::Split(a, b)) => grown_split(
                old(store).nodes(tx),
                final(store).nodes(tx),
                cfg,
                id,
                h as nat,
                a@,
                b@,
                (v@, doc),
                old(store).next() as nat,
            ),
            Err(_) => true,
        },
        exact(
            old(store).nodes(tx),
            final(store).nodes(tx),
            kind,
            id,
            h as nat,
            (v@, doc),
            is_same(r),
            old(store).next() as nat,
            final(store).next() as nat,
        ),
        is_outcome(
            insert_spec(
                old(store).nodes(tx),
                kind,
                cap as nat,
                id,
                h as nat,
                parent_view(parent),
                (v@, doc),
                old(store).next() as nat,
            ),
            final(store).nodes(tx),
            final(store).next() as nat,
            r,
        ),
    decreases h,
{
    let ghost m0 = store.nodes(tx);
    let ghost fresh = store.next() as nat;
    let ghost par = parent_view(parent);
    proof {
        store.lemma_nodes_bounded(tx);
    }
    let node = match store.load(tx, id) {
        Ok(node) => node,
        Err(e) => {
            return Err(e);
        },
    };
    match node {
        Node::Leaf(entries) => insert_leaf(kind, cap, store, tx, id, entries, parent, v, doc, Ghost(cfg)),
        Node::Routing(entries) => {
            proof {
                lemma_routing_parts(m0, cfg, id, h as nat, par);
            }
            if h == 0 {
                return Err(IndexError::NodeNotFound);
            }
            let ghost es0 = routing_views(entries@);
            proof {
                assert forall|t: int| 0 <= t < entries@.len() implies (#[trigger] entries@[t]).pivot@.len()
                    == v@.len() by {
                    assert(es0[t] == entries@[t]@);
                }
            }
            let (i, d) = choose_subtree(kind, &entries, v);
            let child = entries[i].child;
            proof {
                assert(es0[i as int] == entries@[i as int]@);
                lemma_choice(kind, es0, v@, i as int);
            }
            let res = insert_at(kind, cap, store, tx, child, h - 1, Some(&entries[i].pivot), v, doc, Ghost(cfg));
            match res {
                Ok(Growth::Same) => absorb_same(
                    kind,
                    cap,
                    store,
                    tx,
                    id,
                    entries,
                    i,
                    d,
                    parent,
                    Ghost(cfg),
                    Ghost(m0),
                    Ghost(fresh),
                    Ghost(h as nat),
                    Ghost((v@, doc)),
                ),
                Ok(Growth::Split(a, b)) => absorb_split(
                    kind,
                    cap,
                    store,
                    tx,
                    id,
                    entries,
                    i,
                    a,
                    b,
                    parent,
                    Ghost(cfg),
                    Ghost(m0),
                    Ghost(fresh),
                    Ghost(h as nat),
                    Ghost((v@, doc)),
                ),
                Err(e) => Err(e),
            }
        },
    }
}

} // verus!
