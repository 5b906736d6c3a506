//! The node store: a cache of nodes in front of one transaction, which
//! buffers every change until it is told to finish.

use vstd::prelude::*;
use std::collections::HashMap;
use crate::error::IndexError;
use crate::kv::{Datastore, Transaction};
use crate::node::{Node, NodeId, NodeView};

verus! {

/// Whether a store only caches or also buffers changes.
#[derive(Clone, Copy, Debug, PartialEq, Eq, Structural)]
pub enum TreeStoreType {
    Read,
    Write,
}

struct CachedNode {
    node: Node,
    dirty: bool,
}

/// A cache of nodes for one traversal of the tree. Changed nodes stay in the
/// cache, marked, until [`NodeStore::finish`] writes them to the transaction.
pub struct NodeStore {
    kind: TreeStoreType,
    cache: HashMap<NodeId, CachedNode>,
    dirty: Vec<NodeId>,
    next_id: NodeId,
}

impl NodeStore {
    /// The nodes that the cache holds.
    pub closed spec fn cached(&self) -> Map<NodeId, NodeView> {
        Map::new(|id: NodeId| self.cache@.contains_key(id), |id: NodeId| self.cache@[id].node@)
    }

    /// The cached nodes that differ from what the transaction holds.
    pub closed spec fn dirty_ids(&self) -> Set<NodeId> {
        Set::new(|id: NodeId| self.cache@.contains_key(id) && self.cache@[id].dirty)
    }

    /// The identifier that the next new node gets.
    pub closed spec fn next(&self) -> NodeId {
        self.next_id
    }

    /// Whether the store buffers changes.
    pub closed spec fn writable(&self) -> bool {
        self.kind == TreeStoreType::Write
    }

    /// The list of changed nodes names each of them once, and a store for
    /// reading has none.
    pub closed spec fn inv(&self) -> bool {
        &&& self.next_id <= usize::MAX
        &&& forall|i: int|
            0 <= i < self.dirty@.len() ==> self.cache@.contains_key(#[trigger] self.dirty@[i])
                && self.cache@[self.dirty@[i]].dirty
        &&& forall|id: NodeId|
            self.cache@.contains_key(id) && (#[trigger] self.cache@[id]).dirty
                ==> self.dirty@.contains(id)
        &&& forall|i: int, j: int|
            0 <= i < j < self.dirty@.len() ==> self.dirty@[i] != self.dirty@[j]
        &&& self.kind == TreeStoreType::Read ==> self.dirty@.len() == 0
    }

    /// The nodes as the traversal sees them: those of the transaction,
    /// overlaid with those of the cache.
    pub open spec fn nodes(&self, tx: &Transaction) -> Map<NodeId, NodeView> {
        tx@.union_prefer_right(self.cached())
    }

    /// The store fits the transaction: every identifier in use lies below
    /// the next new one, and a cached node that is not marked as changed is
    /// the node of the transaction.
    pub open spec fn wf(&self, tx: &Transaction) -> bool {
        &&& self.inv()
        &&& tx.bound() <= self.next()
        &&& forall|id: NodeId| #[trigger] self.cached().contains_key(id) ==> id < self.next()
        &&& forall|id: NodeId|
            #[trigger] self.cached().contains_key(id) && !self.dirty_ids().contains(id)
                ==> tx@.contains_key(id) && tx@[id] == self.cached()[id]
        &&& !self.writable() ==> self.dirty_ids() == Set::<NodeId>::empty()
    }

    /// Every node that the traversal sees has an identifier below the next
    /// new one.
    pub proof fn lemma_nodes_bounded(&self, tx: &Transaction)
        requires
            self.wf(tx),
        ensures
            forall|id: NodeId| #[trigger] self.nodes(tx).contains_key(id) ==> id < self.next(),
            self.next() <= usize::MAX,
    {
        tx.lemma_keys_bounded();
        assert forall|id: NodeId| #[trigger] self.nodes(tx).contains_key(id) implies id
            < self.next() by {
            if !self.cached().contains_key(id) {
                assert(tx@.contains_key(id));
            }
        }
    }

    /// An empty store in front of `tx`.
    pub fn new(kind: TreeStoreType, tx: &Transaction) -> (store: Self)
        ensures
            store.wf(tx),
            store.cached() == Map::<NodeId, NodeView>::empty(),
            store.dirty_ids() == Set::<NodeId>::empty(),
            store.nodes(tx) == tx@,
            store.next() == tx.bound(),
            store.writable() == (kind == TreeStoreType::Write),
    {
        proof {
            tx.lemma_keys_bounded();
        }
        let store = NodeStore {
            kind,
            cache: HashMap::new(),
            dirty: Vec::new(),
            next_id: tx.key_bound(),
        };
        assert(store.cached() =~= Map::<NodeId, NodeView>::empty());
        assert(store.dirty_ids() =~= Set::<NodeId>::empty());
        assert(store.nodes(tx) =~= tx@);
        store
    }

    /// Whether the store buffers changes.
    pub fn is_writable(&self) -> (w: bool)
        ensures
            w == self.writable(),
    {
        match self.kind {
            TreeStoreType::Write => true,
            TreeStoreType::Read => false,
        }
    }

    /// The identifier that the next new node gets.
    pub fn next_node_id(&self) -> (id: NodeId)
        ensures
            id == self.next(),
    {
        self.next_id
    }

    /// How many further identifiers the store can hand out.
    pub fn free_ids(&self) -> (n: u64)
        requires
            self.inv(),
        ensures
            n == usize::MAX - self.next(),
    {
        usize::MAX as u64 - self.next_id
    }

    /// A copy of the node under `id`: the cached one, or else the one of the
    /// transaction, which is cached on the way.
    pub fn load(&mut self, tx: &Transaction, id: NodeId) -> (r: Result<Node, IndexError>)
        requires
            old(self).wf(tx),
        ensures
            final(self).wf(tx),
            final(self).nodes(tx) == old(self).nodes(tx),
            final(self).dirty_ids() == old(self).dirty_ids(),
            final(self).next() == old(self).next(),
            final(self).writable() == old(self).writable(),
            match r {
                Ok(node) => old(self).nodes(tx).contains_key(id) && node@ == old(self).nodes(tx)[id],
                Err(e) => e == IndexError::NodeNotFound && !old(self).nodes(tx).contains_key(id),
            },
    {
        match self.cache.get(&id) {
            Some(c) => {
                return Ok(c.node.clone());
            },
            None => {},
        }
        match tx.get(id) {
            Some(node) => {
                let copy = node.clone();
                let kept = node.clone();
                proof {
                    tx.lemma_keys_bounded();
                }
                self.cache.insert(id, CachedNode { node: kept, dirty: false });
                proof {
                    assert(self.cached() =~= old(self).cached().insert(id, node@));
                    assert(self.dirty_ids() =~= old(self).dirty_ids());
                    assert(self.nodes(tx) =~= old(self).nodes(tx));
                    assert forall|i: int| 0 <= i < self.dirty@.len() implies self.cache@.contains_key(
                        #[trigger] self.dirty@[i],
                    ) && self.cache@[self.dirty@[i]].dirty by {
                        assert(old(self).cache@.contains_key(old(self).dirty@[i]));
                    }
                }
                Ok(copy)
            },
            None => Err(IndexError::NodeNotFound),
        }
    }

    /// Puts `node` into the cache under `id` and marks it as changed. A
    /// store for reading takes no change, and `id` has to be in use.
    pub fn store(&mut self, id: NodeId, node: Node) -> (r: Result<(), IndexError>)
        requires
            old(self).inv(),
        ensures
            final(self).inv(),
            final(self).next() == old(self).next(),
            final(self).writable() == old(self).writable(),
            !old(self).writable() ==> r == Err::<(), IndexError>(IndexError::StorageFailure),
            old(self).writable() && id >= old(self).next() ==> r == Err::<(), IndexError>(
                IndexError::NodeNotFound,
            ),
            old(self).writable() && id < old(self).next() ==> r is Ok,
            r is Ok ==> final(self).cached() == old(self).cached().insert(id, node@)
                && final(self).dirty_ids() == old(self).dirty_ids().insert(id),
            r is Err ==> final(self).cached() == old(self).cached() && final(self).dirty_ids() == old(self).dirty_ids(),
    {
        if !self.is_writable() {
            return Err(IndexError::StorageFailure);
        }
        if id >= self.next_id {
            return Err(IndexError::NodeNotFound);
        }
        let was_dirty = match self.cache.get(&id) {
            Some(c) => c.dirty,
            None => false,
        };
        self.cache.insert(id, CachedNode { node, dirty: true });
        if !was_dirty {
            self.dirty.push(id);
        }
        proof {
            assert(self.cached() =~= old(self).cached().insert(id, node@));
            assert(self.dirty_ids() =~= old(self).dirty_ids().insert(id));
            let n = self.dirty@.len() as int;
            assert forall|i: int| 0 <= i < n implies self.cache@.contains_key(
                #[trigger] self.dirty@[i],
            ) && self.cache@[self.dirty@[i]].dirty by {
                if i < old(self).dirty@.len() {
                    assert(old(self).cache@.contains_key(old(self).dirty@[i]));
                }
            }
            assert forall|k: NodeId|
                self.cache@.contains_key(k) && (#[trigger] self.cache@[k]).dirty
                    implies self.dirty@.contains(k) by {
                if k == id {
                    if was_dirty {
                        assert(old(self).cache@[id].dirty);
                        assert(old(self).dirty@.contains(id));
                        let j = choose|j: int| 0 <= j < old(self).dirty@.len() && old(self).dirty@[j] == id;
                        assert(self.dirty@[j] == id);
                    } else {
                        assert(self.dirty@[n - 1] == id);
                    }
                } else {
                    assert(old(self).cache@[k].dirty);
                    assert(old(self).dirty@.contains(k));
                    let j = choose|j: int| 0 <= j < old(self).dirty@.len() && old(self).dirty@[j] == k;
                    assert(self.dirty@[j] == k);
                }
            }
            assert forall|i: int, j: int| 0 <= i < j < n implies self.dirty@[i] != self.dirty@[j] by {
                if !was_dirty && j == n - 1 {
                    assert(old(self).cache@.contains_key(old(self).dirty@[i]));
                    assert(old(self).cache@[old(self).dirty@[i]].dirty);
                }
            }
        }
        Ok(())
    }

    /// A fresh identifier: larger than every one handed out before.
    pub fn new_node_id(&mut self) -> (r: Result<NodeId, IndexError>)
        requires
            old(self).inv(),
        ensures
            final(self).inv(),
            final(self).cached() == old(self).cached(),
            final(self).dirty_ids() == old(self).dirty_ids(),
            final(self).writable() == old(self).writable(),
            r is Ok <==> old(self).next() < usize::MAX,
            r is Ok ==> r->Ok_0 == old(self).next() && final(self).next() == old(self).next() + 1,
            r is Err ==> r == Err::<NodeId, IndexError>(IndexError::StorageFailure) && final(self).next() == old(self).next(),
    {
        if self.next_id >= usize::MAX as u64 {
            return Err(IndexError::StorageFailure);
        }
        let id = self.next_id;
        self.next_id = id + 1;
        Ok(id)
    }

    /// Writes every changed node to the transaction and forgets the marks.
    /// Nothing is written when the transaction takes no writes.
    pub fn finish(&mut self, tx: &mut Transaction) -> (r: Result<(), IndexError>)
        requires
            old(self).wf(old(tx)),
        ensures
            final(tx).kind() == old(tx).kind(),
            final(tx).base() == old(tx).base(),
            final(self).next() == old(self).next(),
            final(self).writable() == old(self).writable(),
            final(self).cached() == old(self).cached(),
            r is Ok <==> old(self).dirty_ids() == Set::<NodeId>::empty() || old(tx).writable(),
            r is Ok ==> final(tx)@ == old(self).nodes(old(tx)) && final(self).wf(final(tx)) && final(self).nodes(final(tx)) == old(self).nodes(old(tx)) && final(self).dirty_ids() == Set::<
                NodeId,
            >::empty(),
            r is Err ==> r == Err::<(), IndexError>(IndexError::StorageFailure) && final(tx)@ == old(tx)@ && final(self).dirty_ids() == old(self).dirty_ids() && final(self).wf(final(tx)),
    {
        let n: usize = self.dirty.len();
        if n == 0 {
            proof {
                assert(self.dirty_ids() =~= Set::<NodeId>::empty()) by {
                    assert forall|id: NodeId| !self.dirty_ids().contains(id) by {
                        if self.dirty_ids().contains(id) {
                            assert(self.cache@[id].dirty);
                            assert(self.dirty@.contains(id));
                        }
                    }
                }
                assert(self.nodes(tx) =~= tx@);
            }
            return Ok(());
        }
        if !tx.is_writable() {
            proof {
                assert(self.dirty_ids().contains(self.dirty@[0]));
            }
            return Err(IndexError::StorageFailure);
        }
        let ghost start = tx@;
        let ghost done: Set<NodeId> = Set::empty();
        let mut i: usize = 0;
        proof {
            tx.lemma_keys_bounded();
            assert(tx@ =~= start.union_prefer_right(self.cached().restrict(done)));
        }
        while i < n
            invariant
                i <= n,
                n == self.dirty@.len(),
                *self == *old(self),
                self.inv(),
                tx.kind() == old(tx).kind(),
                tx.base() == old(tx).base(),
                tx.writable(),
                tx.bound() <= self.next_id,
                start == old(tx)@,
                forall|id: NodeId| #[trigger] self.cached().contains_key(id) ==> id < self.next(),
                forall|j: int| 0 <= j < i ==> done.contains(#[trigger] self.dirty@[j]),
                forall|id: NodeId| done.contains(id) ==> self.dirty_ids().contains(id),
                tx@ == start.union_prefer_right(self.cached().restrict(done)),
            decreases n - i,
        {
            let id: NodeId = self.dirty[i];
            let copy = match self.cache.get(&id) {
                Some(c) => c.node.clone(),
                None => {
                    proof {
                        assert(self.cache@.contains_key(self.dirty@[i as int]));
                    }
                    return Err(IndexError::StorageFailure);
                },
            };
            proof {
                assert(self.cache@.contains_key(self.dirty@[i as int]));
                assert(self.cached().contains_key(id));
                assert(id < usize::MAX);
            }
            let ghost prev = tx@;
            let ghost prev_bound = tx.bound();
            match tx.set(id, copy) {
                Ok(()) => {},
                Err(e) => {
                    return Err(e);
                },
            }
            proof {
                assert(self.cache@[id].dirty);
                done = done.insert(id);
                assert(tx@ =~= start.union_prefer_right(self.cached().restrict(done)));
            }
            i = i + 1;
        }
        proof {
            assert(done =~= self.dirty_ids()) by {
                assert forall|id: NodeId| self.dirty_ids().contains(id) implies done.contains(id) by {
                    assert(self.cache@[id].dirty);
                    assert(self.dirty@.contains(id));
                    let j = choose|j: int| 0 <= j < self.dirty@.len() && self.dirty@[j] == id;
                    assert(done.contains(self.dirty@[j]));
                }
            }
            assert(tx@ =~= old(self).nodes(old(tx))) by {
                assert forall|id: NodeId| #[trigger] tx@.contains_key(id) implies tx@[id] == old(self).nodes(old(tx))[id] by {
                    if self.cached().contains_key(id) && !done.contains(id) {
                        assert(old(tx)@[id] == self.cached()[id]);
                    }
                }
                assert forall|id: NodeId| #[trigger] old(self).nodes(old(tx)).contains_key(
                    id,
                ) implies tx@.contains_key(id) by {
                    if self.cached().contains_key(id) && !done.contains(id) {
                        assert(old(tx)@.contains_key(id));
                    }
                }
            }
        }
        let ghost cached = self.cached();
        let ghost marked = self.dirty_ids();
        let mut k: usize = 0;
        while k < n
            invariant
                k <= n,
                n == self.dirty@.len(),
                self.dirty == old(self).dirty,
                self.kind == old(self).kind,
                self.next_id == old(self).next_id,
                self.cached() == cached,
                forall|j: int| 0 <= j < n ==> self.cache@.contains_key(#[trigger] self.dirty@[j]),
                forall|j: int| 0 <= j < k ==> !self.cache@[#[trigger] self.dirty@[j]].dirty,
                forall|id: NodeId|
                    self.cache@.contains_key(id) && (#[trigger] self.cache@[id]).dirty
                        ==> marked.contains(id),
                forall|i: int, j: int|
                    0 <= i < j < self.dirty@.len() ==> self.dirty@[i] != self.dirty@[j],
            decreases n - k,
        {
            let id: NodeId = self.dirty[k];
            let ghost prev = self.cache@;
            match self.cache.remove(&id) {
                Some(c) => {
                    let CachedNode { node, dirty: _ } = c;
                    self.cache.insert(id, CachedNode { node, dirty: false });
                },
                None => {},
            }
            proof {
                assert(prev.contains_key(self.dirty@[k as int]));
                assert(self.cached() =~= cached);
                assert forall|j: int| 0 <= j < k + 1 implies !self.cache@[#[trigger] self.dirty@[j]].dirty by {
                    if j < k {
                        assert(!prev[self.dirty@[j]].dirty);
                    }
                }
                assert forall|t: NodeId|
                    self.cache@.contains_key(t) && (#[trigger] self.cache@[t]).dirty
                        implies marked.contains(t) by {
                    assert(prev[t].dirty);
                }
            }
            k = k + 1;
        }
        proof {
            assert forall|id: NodeId| self.cache@.contains_key(id) implies !(#[trigger] self.cache@[id]).dirty by {
                if self.cache@[id].dirty {
                    assert(marked.contains(id));
                    assert(old(self).cache@[id].dirty);
                    assert(old(self).dirty@.contains(id));
                    let j = choose|j: int| 0 <= j < old(self).dirty@.len() && old(self).dirty@[j] == id;
                    assert(!self.cache@[self.dirty@[j]].dirty);
                }
            }
        }
        self.dirty = Vec::new();
        proof {
            assert(self.dirty_ids() =~= Set::<NodeId>::empty());
            assert(self.nodes(tx) =~= old(self).nodes(old(tx)));
        }
        Ok(())
    }

    /// Writes every changed node to the transaction and commits it, so
    /// that no change is lost for want of a call of [`NodeStore::finish`].
    /// What a write transaction commits is what the traversal saw.
    pub fn commit(&mut self, tx: Transaction, ds: &mut Datastore) -> (r: Result<(), IndexError>)
        requires
            old(self).wf(&tx),
        ensures
            r is Ok <==> (old(self).dirty_ids() == Set::<NodeId>::empty() || tx.writable()) && (tx.writable()
                ==> old(ds).version() == tx.base() && tx.base() < u64::MAX),
            r is Ok && tx.writable() ==> final(ds).nodes() == old(self).nodes(&tx) && final(ds).version()
                == old(ds).version() + 1 && final(ds).bound() <= old(self).next(),
            r is Err || !tx.writable() ==> final(ds).nodes() == old(ds).nodes() && final(ds).version() == old(
                ds,
            ).version(),
    {
        let mut tx = tx;
        match self.finish(&mut tx) {
            Ok(()) => tx.commit(ds),
            Err(e) => Err(e),
        }
    }
}

/// Stores a node under an identifier that is in use.
pub(crate) fn put(store: &mut NodeStore, tx: &Transaction, id: NodeId, node: Node) -> (r: Result<(), IndexError>)
    requires
        old(store).wf(tx),
        old(store).writable(),
        id < old(store).next(),
    ensures
        r is Ok,
        final(store).wf(tx),
        final(store).writable(),
        final(store).next() == old(store).next(),
        final(store).nodes(tx) == old(store).nodes(tx).insert(id, node@),
{
    let r = store.store(id, node);
    proof {
        assert(store.nodes(tx) =~= old(store).nodes(tx).insert(id, node@));
        assert forall|x: NodeId|
            #[trigger] store.cached().contains_key(x) && !store.dirty_ids().contains(
                x,
            ) implies tx@.contains_key(x) && tx@[x] == store.cached()[x] by {
            assert(old(store).cached().contains_key(x));
        }
        assert forall|x: NodeId| #[trigger] store.cached().contains_key(x) implies x < store.next() by {
            if x != id {
                assert(old(store).cached().contains_key(x));
            }
        }
    }
    r
}

/// Takes a new identifier from the store.
pub(crate) fn fresh_id(store: &mut NodeStore, tx: &Transaction) -> (r: Result<NodeId, IndexError>)
    requires
        old(store).wf(tx),
        old(store).next() < usize::MAX,
    ensures
        r is Ok,
        r->Ok_0 == old(store).next(),
        final(store).wf(tx),
        final(store).writable() == old(store).writable(),
        final(store).next() == old(store).next() + 1,
        final(store).nodes(tx) == old(store).nodes(tx),
{
    store.new_node_id()
}

} // verus!
