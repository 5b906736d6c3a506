//! The metric tree: a balanced tree of pivots and covering radii over the
//! nodes of a store, for nearest-neighbour search.

use vstd::prelude::*;
use vstd::multiset::Multiset;
use crate::error::IndexError;
use crate::grow::{
    apart,
    grown_split,
    kids,
    lemma_assemble_leaf,
    lemma_assemble_routing,
    pairs_grown,
};
use crate::insert::{insert_at, lemma_doc_pairs_single, Growth};
use crate::kv::{Datastore, LockType, Transaction, TransactionType};
use crate::node::{
    leaf_views,
    routing_views,
    DocId,
    LeafEntry,
    LeafEntryView,
    Node,
    NodeId,
    NodeView,
    RoutingEntry,
    RoutingEntryView,
};
use crate::outcome::{entry_of, exact, insert_spec, is_outcome};
use crate::search::{
    hit_count,
    hit_le,
    hits_view,
    is_knn,
    lemma_hit_count_witness,
    occurs,
    search_from,
    Hit,
};
use crate::split::Promoted;
use crate::store::{NodeStore, TreeStoreType};
use crate::tree::{
    children_pairs,
    in_subtree,
    leaf_ok,
    leaf_pairs,
    lemma_children_pairs_push,
    lemma_leaf_pairs_push,
    lemma_subtree_keys,
    routing_ok,
    subtree_pairs,
    wf_subtree,
    Config,
    Nodes,
    Pair,
};
use crate::vector::{Distance, Vector};

verus! {

/// What is fixed when an index is created: the largest number of entries
/// that a node holds.
#[derive(Clone, Copy, Debug)]
pub struct MState {
    capacity: usize,
}

impl MState {
    /// The largest number of entries that a node holds.
    pub closed spec fn cap(&self) -> usize {
        self.capacity
    }

    /// The state of an index whose nodes hold up to `capacity` entries.
    pub fn new(capacity: usize) -> (state: Self)
        requires
            capacity >= 2,
        ensures
            state.cap() == capacity,
    {
        MState { capacity }
    }

    /// The largest number of entries that a node holds.
    pub fn capacity(&self) -> (c: usize)
        ensures
            c == self.cap(),
    {
        self.capacity
    }
}

/// The dimension of the vectors of the node `id`: that of its first entry.
pub open spec fn node_dim(m: Nodes, id: NodeId) -> nat {
    match m[id] {
        NodeView::Leaf(es) => es[0].vector.len(),
        NodeView::Routing(es) => es[0].pivot.len(),
    }
}

/// The one entry of a leaf that holds a single pair.
pub open spec fn single_entry(p: Pair) -> LeafEntryView {
    LeafEntryView { vector: p.0, docs: seq![p.1], parent_dist: None }
}

/// What an insertion of the pair `p` has done when it was not refused. The
/// tree is well-formed and holds `p`, once more than before unless the
/// leaf at the end of the descent had it. An empty tree has become a
/// single leaf under a new identifier. In any other, the nodes are those
/// that [`insert_spec`] gives for the root, and if the root was split, a
/// new root with one entry for each half stands above them, which raises
/// the tree by one level.
pub open spec fn inserted(
    before: MTree,
    m0: Nodes,
    next0: nat,
    p: Pair,
    after: MTree,
    m1: Nodes,
    next1: nat,
) -> bool {
    &&& after.wf(m1)
    &&& after.cap() == before.cap()
    &&& after.metric() == before.metric()
    &&& after.root() is Some
    &&& after.dim(m1) == p.0.len()
    &&& pairs_grown(before.pairs(m0), after.pairs(m1), p)
    &&& match before.root() {
        Some(root) => {
            let same = after.root() == before.root();
            &&& same ==> after.levels() == before.levels()
            &&& !same ==> after.levels() == before.levels() + 1
            &&& exact(m0, m1, before.metric(), root, before.levels() as nat, p, same, next0, next1)
            &&& {
                let o = insert_spec(
                    m0,
                    before.metric(),
                    before.cap() as nat,
                    root,
                    before.levels() as nat,
                    None,
                    p,
                    next0,
                );
                match o.split {
                    None => same && m1 == o.nodes && next1 == o.next,
                    Some(halves) => {
                        &&& after.root() == Some(o.next as NodeId)
                        &&& next1 == o.next + 1
                        &&& m1 == o.nodes.insert(
                            o.next as NodeId,
                            NodeView::Routing(
                                seq![
                                    entry_of(before.metric(), halves.0, None),
                                    entry_of(before.metric(), halves.1, None),
                                ],
                            ),
                        )
                    },
                }
            }
        },
        None => {
            &&& after.levels() == 0
            &&& next1 == next0 + 1
            &&& after.root() == Some(next0 as NodeId)
            &&& m1 == m0.insert(next0 as NodeId, NodeView::Leaf(seq![single_entry(p)]))
        },
    }
}

/// A metric tree. It holds no node itself: the nodes are in the store, and
/// the tree knows its root and how many levels lie between the root and
/// the leaves.
#[derive(Clone, Copy, Debug)]
pub struct MTree {
    state: MState,
    distance: Distance,
    root: Option<NodeId>,
    height: u64,
}

impl MTree {
    /// The root, if the tree is not empty.
    pub closed spec fn root(&self) -> Option<NodeId> {
        self.root
    }

    /// The number of levels between the root and the leaves.
    pub closed spec fn levels(&self) -> u64 {
        self.height
    }

    /// The largest number of entries that a node holds.
    pub closed spec fn cap(&self) -> usize {
        self.state.capacity
    }

    /// The metric of the tree.
    pub closed spec fn metric(&self) -> Distance {
        self.distance
    }

    /// The dimension of the vectors of a tree that is not empty.
    pub open spec fn dim(&self, m: Nodes) -> nat {
        node_dim(m, self.root()->Some_0)
    }

    /// What is fixed for this tree.
    pub open spec fn config(&self, m: Nodes) -> Config {
        Config { kind: self.metric(), cap: self.cap() as nat, dim: self.dim(m) }
    }

    /// The tree is well-formed over the nodes `m`.
    pub open spec fn wf(&self, m: Nodes) -> bool {
        &&& self.cap() >= 2
        &&& match self.root() {
            Some(root) => wf_subtree(m, self.config(m), root, self.levels() as nat, None),
            None => self.levels() == 0,
        }
    }

    /// The pairs of vector and record that the tree holds.
    pub open spec fn pairs(&self, m: Nodes) -> Multiset<Pair> {
        match self.root() {
            Some(root) => subtree_pairs(m, root, self.levels() as nat),
            None => Multiset::empty(),
        }
    }

    /// An empty tree.
    pub fn new(state: MState, distance: Distance) -> (tree: Self)
        requires
            state.cap() >= 2,
        ensures
            tree.root() is None,
            tree.levels() == 0,
            tree.cap() == state.cap(),
            tree.metric() == distance,
            forall|m: Nodes| tree.wf(m),
    {
        MTree { state, distance, root: None, height: 0 }
    }

    /// The root, if the tree is not empty.
    pub fn root_id(&self) -> (r: Option<NodeId>)
        ensures
            r == self.root(),
    {
        self.root
    }

    /// The number of levels between the root and the leaves.
    pub fn height(&self) -> (h: u64)
        ensures
            h == self.levels(),
    {
        self.height
    }

    /// The largest number of entries that a node holds.
    pub fn capacity(&self) -> (c: usize)
        ensures
            c == self.cap(),
    {
        self.state.capacity
    }

    /// The metric of the tree.
    pub fn distance(&self) -> (d: Distance)
        ensures
            d == self.metric(),
    {
        self.distance
    }

    /// Makes a leaf with the single pair the root of an empty tree.
    fn plant(&mut self, tx: &Transaction, store: &mut NodeStore, vector: Vector, doc: DocId) -> (r: Result<
        (),
        IndexError,
    >)
        requires
            old(self).root() is None,
            old(self).cap() >= 2,
            old(store).wf(tx),
            old(store).writable(),
            old(store).next() + 2 <= usize::MAX,
        ensures
            r is Ok,
            final(store).wf(tx),
            final(store).writable(),
            final(store).next() == old(store).next() + 1,
            inserted(
                *old(self),
                old(store).nodes(tx),
                old(store).next() as nat,
                (vector@, doc),
                *final(self),
                final(store).nodes(tx),
                final(store).next() as nat,
            ),
    {
        let ghost m0 = store.nodes(tx);
        let ghost p: Pair = (vector@, doc);
        proof {
            store.lemma_nodes_bounded(tx);
        }
        let id = match store.new_node_id() {
            Ok(id) => id,
            Err(e) => {
                return Err(e);
            },
        };
        let entry = LeafEntry { vector, docs: vec![doc], parent_dist: None };
        let mut entries: Vec<LeafEntry> = Vec::new();
        entries.push(entry);
        let ghost es = leaf_views(entries@);
        let ghost cfg = Config { kind: self.distance, cap: self.state.capacity as nat, dim: vector@.len() };
        proof {
            vector.lemma_is_point();
            assert(es =~= Seq::<LeafEntryView>::empty().push(entry@));
            assert(entry@.docs =~= seq![doc]);
            lemma_leaf_pairs_push(Seq::<LeafEntryView>::empty(), entry@);
            lemma_doc_pairs_single(vector@, doc);
            assert(leaf_pairs(es) =~= Multiset::<Pair>::empty().insert(p));
            assert(leaf_ok(cfg, es, None));
            lemma_assemble_leaf(m0, cfg, id, es, None);
        }
        match store.store(id, Node::Leaf(entries)) {
            Ok(()) => {},
            Err(e) => {
                return Err(e);
            },
        }
        proof {
            assert(store.nodes(tx) =~= m0.insert(id, NodeView::Leaf(es)));
            assert forall|x: NodeId|
                #[trigger] store.cached().contains_key(x) && !store.dirty_ids().contains(
                    x,
                ) implies tx@.contains_key(x) && tx@[x] == store.cached()[x] by {
                assert(old(store).cached().contains_key(x));
            }
            assert forall|x: NodeId| #[trigger] store.cached().contains_key(x) implies x
                < store.next() by {
                if x != id {
                    assert(old(store).cached().contains_key(x));
                }
            }
        }
        self.root = Some(id);
        self.height = 0;
        proof {
            let m1 = store.nodes(tx);
            assert(self.config(m1) == cfg);
            assert(entry@ == single_entry(p));
            assert(es =~= seq![single_entry(p)]);
        }
        Ok(())
    }

    /// Puts a new root above the two halves of a root that was split.
    fn raise(
        &mut self,
        tx: &Transaction,
        store: &mut NodeStore,
        a: Promoted,
        b: Promoted,
        Ghost(m0): Ghost<Nodes>,
        Ghost(fresh): Ghost<nat>,
        Ghost(p): Ghost<Pair>,
    ) -> (r: Result<(), IndexError>)
        requires
            old(self).root() is Some,
            old(self).wf(m0),
            old(self).dim(m0) == p.0.len(),
            old(self).levels() < u64::MAX,
            old(store).wf(tx),
            old(store).writable(),
            old(store).next() < usize::MAX,
            fresh < old(store).next(),
            grown_split(
                m0,
                old(store).nodes(tx),
                old(self).config(m0),
                old(self).root()->Some_0,
                old(self).levels() as nat,
                a@,
                b@,
                p,
                fresh,
            ),
            exact(
                m0,
                old(store).nodes(tx),
                old(self).metric(),
                old(self).root()->Some_0,
                old(self).levels() as nat,
                p,
                false,
                fresh,
                old(store).next() as nat,
            ),
            is_outcome(
                insert_spec(
                    m0,
                    old(self).metric(),
                    old(self).cap() as nat,
                    old(self).root()->Some_0,
                    old(self).levels() as nat,
                    None,
                    p,
                    fresh,
                ),
                old(store).nodes(tx),
                old(store).next() as nat,
                Ok::<Growth, IndexError>(Growth::Split(a, b)),
            ),
        ensures
            r is Ok,
            final(store).wf(tx),
            final(store).writable(),
            final(store).next() == old(store).next() + 1,
            inserted(*old(self), m0, fresh, p, *final(self), final(store).nodes(tx), final(store).next() as nat),
    {
        let ghost cfg = self.config(m0);
        let ghost root = self.root->Some_0;
        let ghost m1 = store.nodes(tx);
        let ghost av = a@;
        let ghost bv = b@;
        proof {
            store.lemma_nodes_bounded(tx);
        }
        let new_id = match store.new_node_id() {
            Ok(id) => id,
            Err(e) => {
                return Err(e);
            },
        };
        let ea = RoutingEntry { pivot: a.pivot, radius: a.radius, child: a.node, parent_dist: None };
        let eb = RoutingEntry { pivot: b.pivot, radius: b.radius, child: b.node, parent_dist: None };
        let mut entries: Vec<RoutingEntry> = Vec::new();
        entries.push(ea);
        entries.push(eb);
        let ghost es = routing_views(entries@);
        let ghost h = self.height as nat;
        proof {
            store.lemma_nodes_bounded(tx);
            let e0 = Seq::<RoutingEntryView>::empty();
            assert(es =~= e0.push(ea@).push(eb@));
            lemma_children_pairs_push(m1, e0, ea@, h);
            lemma_children_pairs_push(m1, e0.push(ea@), eb@, h);
            assert(children_pairs(m1, es, h) =~= subtree_pairs(m1, av.node, h).add(
                subtree_pairs(m1, bv.node, h),
            ));
            assert(routing_ok(cfg, es, None));
            assert(kids(m1, cfg, es, h)) by {
                assert(es[0] == ea@ && es[1] == eb@);
                assert forall|i: int, j: int, x: NodeId|
                    0 <= i < es.len() && 0 <= j < es.len() && i != j implies !(
                #[trigger] in_subtree(m1, es[i].child, h, x) && #[trigger] in_subtree(
                    m1,
                    es[j].child,
                    h,
                    x,
                )) by {
                    assert(!(in_subtree(m1, av.node, h, x) && in_subtree(m1, bv.node, h, x)));
                }
            }
            assert(apart(m1, es, h, new_id)) by {
                assert forall|i: int| 0 <= i < es.len() implies !in_subtree(
                    m1,
                    (#[trigger] es[i]).child,
                    h,
                    new_id,
                ) by {
                    assert(es[0] == ea@ && es[1] == eb@);
                    if in_subtree(m1, es[i].child, h, new_id) {
                        lemma_subtree_keys(m1, cfg, es[i].child, h, Some(es[i].pivot), new_id);
                    }
                }
            }
            lemma_assemble_routing(m1, cfg, new_id, es, h, None);
        }
        match store.store(new_id, Node::Routing(entries)) {
            Ok(()) => {},
            Err(e) => {
                return Err(e);
            },
        }
        proof {
            assert(store.nodes(tx) =~= m1.insert(new_id, NodeView::Routing(es)));
            assert forall|x: NodeId|
                #[trigger] store.cached().contains_key(x) && !store.dirty_ids().contains(
                    x,
                ) implies tx@.contains_key(x) && tx@[x] == store.cached()[x] by {
                if x != new_id {
                    assert(store.cached()[x] == m1[x]);
                }
            }
        }
        self.root = Some(new_id);
        self.height = self.height + 1;
        proof {
            let m2 = store.nodes(tx);
            assert(node_dim(m2, new_id) == cfg.dim);
            assert(self.config(m2) == cfg);
            assert(ea@ == entry_of(self.distance, av, None));
            assert(eb@ == entry_of(self.distance, bv, None));
            assert(es =~= seq![ea@, eb@]);
        }
        Ok(())
    }

    /// Adds the record `doc` of the point `vector` to the index.
    ///
    /// A vector whose dimension is not that of the tree is refused, then a
    /// store that takes no changes, then a store that cannot hand out one
    /// new identifier for each level and two more. Nothing has changed
    /// when the insertion is refused. Otherwise the tree holds the pair
    /// of `vector` and `doc` in addition, unless the leaf that the descent
    /// came to had this very pair, and it is well-formed again.
    pub fn insert(&mut self, tx: &Transaction, store: &mut NodeStore, vector: Vector, doc: DocId) -> (r:
        Result<(), IndexError>)
        requires
            old(store).wf(tx),
            old(self).wf(old(store).nodes(tx)),
        ensures
            final(store).wf(tx),
            final(store).writable() == old(store).writable(),
            final(self).cap() == old(self).cap(),
            final(self).metric() == old(self).metric(),
            old(self).root() is Some && vector@.len() != old(self).dim(old(store).nodes(tx)) ==> r
                == Err::<(), IndexError>(IndexError::DimensionMismatch),
            !(old(self).root() is Some && vector@.len() != old(self).dim(old(store).nodes(tx))) && (
            !old(store).writable() || old(store).next() + old(self).levels() + 2 > usize::MAX) ==> r
                == Err::<(), IndexError>(IndexError::StorageFailure),
            !(old(self).root() is Some && vector@.len() != old(self).dim(old(store).nodes(tx)))
                && old(store).writable() && old(store).next() + old(self).levels() + 2 <= usize::MAX
                ==> r is Ok,
            r is Err ==> *final(self) == *old(self) && final(store).nodes(tx) == old(store).nodes(tx)
                && final(store).next() == old(store).next() && final(store).dirty_ids() == old(
                store,
            ).dirty_ids(),
            r is Ok ==> {
                &&& inserted(
                    *old(self),
                    old(store).nodes(tx),
                    old(store).next() as nat,
                    (vector@, doc),
                    *final(self),
                    final(store).nodes(tx),
                    final(store).next() as nat,
                )
                &&& old(store).next() <= final(store).next() <= old(store).next() + old(self).levels() + 2
            },
    {
        let ghost m0 = store.nodes(tx);
        let ghost p: Pair = (vector@, doc);
        proof {
            store.lemma_nodes_bounded(tx);
        }
        match self.root {
            None => {
                if !store.is_writable() || store.free_ids() < 2 {
                    return Err(IndexError::StorageFailure);
                }
                self.plant(tx, store, vector, doc)
            },
            Some(root) => {
                let ghost cfg = self.config(m0);
                let node = match store.load(tx, root) {
                    Ok(node) => node,
                    Err(e) => {
                        return Err(e);
                    },
                };
                let dim: usize = match &node {
                    Node::Leaf(entries) => {
                        assert(leaf_views(entries@)[0] == entries@[0]@);
                        if entries.len() == 0 {
                            return Err(IndexError::NodeNotFound);
                        }
                        entries[0].vector.len()
                    },
                    Node::Routing(entries) => {
                        assert(routing_views(entries@)[0] == entries@[0]@);
                        if entries.len() == 0 {
                            return Err(IndexError::NodeNotFound);
                        }
                        entries[0].pivot.len()
                    },
                };
                if vector.len() != dim {
                    return Err(IndexError::DimensionMismatch);
                }
                if !store.is_writable() {
                    return Err(IndexError::StorageFailure);
                }
                let free: u64 = store.free_ids();
                if free < 2 || free - 2 < self.height {
                    return Err(IndexError::StorageFailure);
                }
                let ghost fresh = store.next() as nat;
                let res = insert_at(
                    self.distance,
                    self.state.capacity,
                    store,
                    tx,
                    root,
                    self.height,
                    None,
                    &vector,
                    doc,
                    Ghost(cfg),
                );
                match res {
                    Ok(Growth::Same) => {
                        proof {
                            let m1 = store.nodes(tx);
                            assert(node_dim(m1, root) == cfg.dim);
                            assert(self.config(m1) == cfg);
                        }
                        Ok(())
                    },
                    Ok(Growth::Split(a, b)) => self.raise(tx, store, a, b, Ghost(m0), Ghost(fresh), Ghost(p)),
                    Err(e) => Err(e),
                }
            },
        }
    }

    /// The `k` records nearest to the query, nearest first, each with the
    /// exact measure of the distance of its vector: the distance itself,
    /// and under the Euclidean metric the square of the distance, of which
    /// [`Distance::round`] gives the root rounded up. Of two records at the
    /// same distance the smaller comes first. An empty tree and `k = 0`
    /// give an empty result; otherwise a query whose dimension is not that
    /// of the tree is refused. The search changes no node.
    pub fn knn_search(&self, tx: &Transaction, store: &mut NodeStore, query: &Vector, k: usize) -> (r:
        Result<Vec<(DocId, u128)>, IndexError>)
        requires
            old(store).wf(tx),
            self.wf(old(store).nodes(tx)),
        ensures
            final(store).wf(tx),
            final(store).nodes(tx) == old(store).nodes(tx),
            final(store).next() == old(store).next(),
            final(store).dirty_ids() == old(store).dirty_ids(),
            final(store).writable() == old(store).writable(),
            self.root() is Some && k > 0 && query@.len() != self.dim(old(store).nodes(tx)) ==> r is Err
                && r->Err_0 == IndexError::DimensionMismatch,
            !(self.root() is Some && k > 0 && query@.len() != self.dim(old(store).nodes(tx))) ==> r is Ok,
            r is Ok ==> is_knn(
                hits_view(r->Ok_0@),
                self.pairs(old(store).nodes(tx)),
                self.metric(),
                query@,
                k as nat,
            ),
    {
        let ghost m = store.nodes(tx);
        let root = match self.root {
            Some(root) => root,
            None => {
                let results: Vec<(DocId, u128)> = Vec::new();
                proof {
                    assert(hits_view(results@) =~= Seq::<Hit>::empty());
                    lemma_knn_nothing(Multiset::<Pair>::empty(), self.distance, query@, k as nat);
                }
                return Ok(results);
            },
        };
        if k == 0 {
            let results: Vec<(DocId, u128)> = Vec::new();
            proof {
                assert(hits_view(results@) =~= Seq::<Hit>::empty());
                lemma_knn_nothing(self.pairs(m), self.distance, query@, 0);
            }
            return Ok(results);
        }
        let ghost cfg = self.config(m);
        let node = match store.load(tx, root) {
            Ok(node) => node,
            Err(e) => {
                return Err(e);
            },
        };
        let dim: usize = match &node {
            Node::Leaf(entries) => {
                assert(leaf_views(entries@)[0] == entries@[0]@);
                if entries.len() == 0 {
                    return Err(IndexError::NodeNotFound);
                }
                entries[0].vector.len()
            },
            Node::Routing(entries) => {
                assert(routing_views(entries@)[0] == entries@[0]@);
                if entries.len() == 0 {
                    return Err(IndexError::NodeNotFound);
                }
                entries[0].pivot.len()
            },
        };
        if query.len() != dim {
            return Err(IndexError::DimensionMismatch);
        }
        search_from(self.distance, store, tx, root, self.height, query, k, Ghost(cfg))
    }

    /// The `k` records nearest to the query among what is committed: the
    /// search runs in a read transaction of its own, with a store of its
    /// own, and gives both up when it is done.
    pub fn knn_committed(&self, ds: &Datastore, query: &Vector, k: usize) -> (r: Result<
        Vec<(DocId, u128)>,
        IndexError,
    >)
        requires
            self.wf(ds.nodes()),
        ensures
            self.root() is Some && k > 0 && query@.len() != self.dim(ds.nodes()) ==> r is Err && r->Err_0
                == IndexError::DimensionMismatch,
            !(self.root() is Some && k > 0 && query@.len() != self.dim(ds.nodes())) ==> r is Ok,
            r is Ok ==> is_knn(hits_view(r->Ok_0@), self.pairs(ds.nodes()), self.metric(), query@, k as nat),
    {
        let tx = ds.transaction(TransactionType::Read, LockType::Optimistic);
        let mut store = NodeStore::new(TreeStoreType::Read, &tx);
        let r = self.knn_search(&tx, &mut store, query, k);
        tx.cancel();
        r
    }
}

/// An empty result is right when nothing is asked for or nothing is there.
pub proof fn lemma_knn_nothing(pairs: Multiset<Pair>, kind: Distance, q: Seq<int>, k: nat)
    requires
        k == 0 || pairs.len() == 0,
    ensures
        is_knn(Seq::<Hit>::empty(), pairs, kind, q, k),
{
    let res = Seq::<Hit>::empty();
    assert forall|c: Hit| #[trigger] occurs(res, c) < hit_count(pairs, kind, q, c) implies res.len() == k && (
    k > 0 ==> hit_le(res.last(), c)) by {
        if k > 0 {
            let p = lemma_hit_count_witness(pairs, kind, q, c);
            assert(pairs.count(p) <= pairs.len());
        }
    }
}

} // verus!
