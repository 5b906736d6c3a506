//! An in-memory transactional store of nodes: snapshots on begin, optimistic
//! conflict detection on commit.

use vstd::prelude::*;
use crate::error::IndexError;
use crate::node::{Node, NodeId, NodeView};

verus! {

/// Whether a transaction may write.
#[derive(Clone, Copy, Debug, PartialEq, Eq, Structural)]
pub enum TransactionType {
    Read,
    Write,
}

/// How a transaction guards against other writers. Both kinds are checked
/// at commit.
#[derive(Clone, Copy, Debug, PartialEq, Eq, Structural)]
pub enum LockType {
    Optimistic,
    Pessimistic,
}

/// The nodes that a sequence of slots holds, by their position.
pub open spec fn slots_view(slots: Seq<Option<Node>>) -> Map<NodeId, NodeView> {
    Map::new(
        |id: NodeId| id < slots.len() && slots[id as int] is Some,
        |id: NodeId| slots[id as int]->Some_0@,
    )
}

/// A copy of the slots, node by node.
fn copy_slots(slots: &Vec<Option<Node>>) -> (copy: Vec<Option<Node>>)
    ensures
        copy@.len() == slots@.len(),
        slots_view(copy@) == slots_view(slots@),
{
    let mut out: Vec<Option<Node>> = Vec::new();
    let mut i: usize = 0;
    while i < slots.len()
        invariant
            i <= slots.len(),
            out@.len() == i,
            forall|j: int|
                0 <= j < i ==> ((#[trigger] out@[j]) is Some <==> slots@[j] is Some) && (slots@[j] is Some
                    ==> out@[j]->Some_0@ == slots@[j]->Some_0@),
        decreases slots.len() - i,
    {
        let slot = match &slots[i] {
            Some(node) => Some(node.clone()),
            None => None,
        };
        out.push(slot);
        i = i + 1;
    }
    assert(slots_view(out@) =~= slots_view(slots@));
    out
}

/// The committed nodes, with a version that every committed write raises.
pub struct Datastore {
    slots: Vec<Option<Node>>,
    version: u64,
}

/// A snapshot of a [`Datastore`] that buffers its own writes until commit.
pub struct Transaction {
    kind: TransactionType,
    lock: LockType,
    base: u64,
    slots: Vec<Option<Node>>,
}

impl Datastore {
    /// The committed nodes.
    pub closed spec fn nodes(&self) -> Map<NodeId, NodeView> {
        slots_view(self.slots@)
    }

    /// The number of write transactions that have been committed.
    pub closed spec fn version(&self) -> u64 {
        self.version
    }

    /// A number above every key that is committed.
    pub closed spec fn bound(&self) -> nat {
        self.slots@.len()
    }

    /// An empty store.
    pub fn new() -> (ds: Self)
        ensures
            ds.nodes() == Map::<NodeId, NodeView>::empty(),
            ds.version() == 0,
            ds.bound() == 0,
    {
        let ds = Datastore { slots: Vec::new(), version: 0 };
        assert(ds.nodes() =~= Map::<NodeId, NodeView>::empty());
        ds
    }

    /// Begins a transaction on a snapshot of what is committed now.
    pub fn transaction(&self, kind: TransactionType, lock: LockType) -> (tx: Transaction)
        ensures
            tx@ == self.nodes(),
            tx.kind() == kind,
            tx.base() == self.version(),
            tx.bound() == self.bound(),
            tx.lock_kind() == lock,
    {
        Transaction { kind, lock, base: self.version, slots: copy_slots(&self.slots) }
    }
}

impl View for Transaction {
    type V = Map<NodeId, NodeView>;

    closed spec fn view(&self) -> Map<NodeId, NodeView> {
        slots_view(self.slots@)
    }
}

impl Transaction {
    /// Whether the transaction was begun for reading or for writing.
    pub closed spec fn kind(&self) -> TransactionType {
        self.kind
    }

    /// The version of the store that the transaction started from.
    pub closed spec fn base(&self) -> u64 {
        self.base
    }

    /// The kind of lock that the transaction was begun with.
    pub closed spec fn lock_kind(&self) -> LockType {
        self.lock
    }

    /// A number above every key that the transaction holds.
    pub closed spec fn bound(&self) -> nat {
        self.slots@.len()
    }

    /// Whether the transaction takes writes.
    pub open spec fn writable(&self) -> bool {
        self.kind() == TransactionType::Write
    }

    /// Every key lies below the bound, and the bound is a machine size.
    pub proof fn lemma_keys_bounded(&self)
        ensures
            self.bound() <= usize::MAX,
            forall|id: NodeId| self@.contains_key(id) ==> id < self.bound(),
    {
        assert(self.slots@.len() == self.slots.len());
    }

    /// Whether the transaction takes writes.
    pub fn is_writable(&self) -> (w: bool)
        ensures
            w == self.writable(),
    {
        match self.kind {
            TransactionType::Write => true,
            TransactionType::Read => false,
        }
    }

    /// How the transaction guards against other writers: the kind of lock
    /// that it was begun with.
    pub fn lock(&self) -> (l: LockType)
        ensures
            l == self.lock_kind(),
    {
        self.lock
    }

    /// A number above every key that the transaction holds.
    pub fn key_bound(&self) -> (b: NodeId)
        ensures
            b == self.bound(),
    {
        self.slots.len() as u64
    }

    /// The node stored under `id`, if there is one.
    pub fn get(&self, id: NodeId) -> (r: Option<&Node>)
        ensures
            match r {
                Some(node) => self@.contains_key(id) && node@ == self@[id],
                None => !self@.contains_key(id),
            },
    {
        if id < self.slots.len() as u64 {
            match &self.slots[id as usize] {
                Some(node) => Some(node),
                None => None,
            }
        } else {
            None
        }
    }

    /// Stores `node` under `id`. A read transaction takes no write, and no
    /// key reaches the largest machine size.
    pub fn set(&mut self, id: NodeId, node: Node) -> (r: Result<(), IndexError>)
        ensures
            final(self).kind() == old(self).kind(),
            final(self).base() == old(self).base(),
            final(self).lock_kind() == old(self).lock_kind(),
            r is Ok <==> old(self).writable() && id < usize::MAX,
            r is Ok ==> final(self)@ == old(self)@.insert(id, node@) && final(self).bound() == (if id
                < old(self).bound() {
                old(self).bound()
            } else {
                (id + 1) as nat
            }),
            r is Err ==> r == Err::<(), IndexError>(IndexError::StorageFailure) && final(self)@ == old(self)@ && final(self).bound() == old(self).bound(),
    {
        if !self.is_writable() || id >= usize::MAX as u64 {
            return Err(IndexError::StorageFailure);
        }
        let at: usize = id as usize;
        let ghost before = self.slots@;
        while self.slots.len() <= at
            invariant
                at < usize::MAX,
                self.kind == old(self).kind,
                self.base == old(self).base,
                self.lock == old(self).lock,
                slots_view(self.slots@) == slots_view(before),
                self.slots@.len() >= before.len(),
                self.slots@.len() <= at + 1 || self.slots@.len() == before.len(),
            decreases at + 1 - self.slots.len(),
        {
            let ghost prev = self.slots@;
            self.slots.push(None);
            assert(slots_view(self.slots@) =~= slots_view(prev));
        }
        let ghost grown = self.slots@;
        self.slots.set(at, Some(node));
        assert(self@ =~= old(self)@.insert(id, node@)) by {
            assert(slots_view(grown) == slots_view(before));
            assert forall|k: NodeId| #[trigger] self@.contains_key(k) <==> old(self)@.insert(
                id,
                node@,
            ).contains_key(k) by {
                if k != id {
                    assert(slots_view(grown).contains_key(k) <==> slots_view(before).contains_key(k));
                }
            }
            assert forall|k: NodeId| #[trigger] self@.contains_key(k) implies self@[k] == old(self)@.insert(id, node@)[k] by {
                if k != id {
                    assert(slots_view(grown).contains_key(k));
                    assert(slots_view(grown)[k] == slots_view(before)[k]);
                }
            }
        }
        Ok(())
    }

    /// Makes the writes of the transaction the committed state. A read
    /// transaction commits nothing. A write transaction fails when another
    /// one was committed since it began.
    pub fn commit(self, ds: &mut Datastore) -> (r: Result<(), IndexError>)
        ensures
            !self.writable() ==> r is Ok,
            self.writable() ==> (r is Ok <==> old(ds).version() == self.base() && self.base()
                < u64::MAX),
            self.writable() && old(ds).version() != self.base() ==> r == Err::<(), IndexError>(
                IndexError::TransactionConflict,
            ),
            self.writable() && old(ds).version() == self.base() && self.base() == u64::MAX ==> r
                == Err::<(), IndexError>(IndexError::StorageFailure),
            r is Ok && self.writable() ==> final(ds).nodes() == self@ && final(ds).version() == old(ds).version() + 1
                && final(ds).bound() == self.bound(),
            r is Err || !self.writable() ==> final(ds).nodes() == old(ds).nodes() && final(ds).version()
                == old(ds).version() && final(ds).bound() == old(ds).bound(),
    {
        if !self.is_writable() {
            return Ok(());
        }
        if ds.version != self.base {
            return Err(IndexError::TransactionConflict);
        }
        if ds.version == u64::MAX {
            return Err(IndexError::StorageFailure);
        }
        ds.slots = self.slots;
        ds.version = ds.version + 1;
        Ok(())
    }

    /// Gives the transaction up; nothing it wrote is kept.
    pub fn cancel(self) {
    }
}

} // verus!
