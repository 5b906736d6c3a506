use mtree::error::IndexError;
use mtree::kv::{Datastore, LockType, TransactionType};
use mtree::mtree::{MState, MTree};
use mtree::node::{Node, NodeId};
use mtree::kv::Transaction;
use mtree::store::{NodeStore, TreeStoreType};
use mtree::vector::{ceil_sqrt_of, Distance, Vector};

fn point(x: i32, y: i32) -> Vector {
    Vector::I32(vec![x, y])
}

fn next_random(state: &mut u64) -> u64 {
    *state = state.wrapping_mul(6364136223846793005).wrapping_add(1442695040888963407);
    *state >> 33
}

fn brute_force(kind: Distance, points: &[(Vector, u64)], query: &Vector, k: usize) -> Vec<(u64, u128)> {
    let mut all: Vec<(u128, u64)> = Vec::new();
    for (v, doc) in points.iter() {
        all.push((kind.measure(query, v).unwrap(), *doc));
    }
    all.sort();
    all.truncate(k);
    all.into_iter().map(|(d, doc)| (doc, d)).collect()
}

/// Walks the subtree of `id`, checks capacity, recorded distances and
/// covering radii, and returns the vectors it holds.
fn check_subtree(
    store: &mut NodeStore,
    tx: &Transaction,
    kind: Distance,
    capacity: usize,
    id: NodeId,
    level: u64,
    parent: Option<&Vector>,
) -> Vec<Vector> {
    let node = store.load(tx, id).unwrap();
    let mut found: Vec<Vector> = Vec::new();
    match node {
        Node::Leaf(entries) => {
            assert_eq!(level, 0);
            assert!(entries.len() >= 1 && entries.len() <= capacity);
            for e in entries.iter() {
                assert!(!e.docs.is_empty());
                match parent {
                    Some(p) => assert_eq!(e.parent_dist, Some(kind.compute(&e.vector, p).unwrap())),
                    None => assert_eq!(e.parent_dist, None),
                }
                found.push(e.vector.clone());
            }
        }
        Node::Routing(entries) => {
            assert!(level > 0);
            assert!(entries.len() >= 1 && entries.len() <= capacity);
            for e in entries.iter() {
                match parent {
                    Some(p) => assert_eq!(e.parent_dist, Some(kind.compute(&e.pivot, p).unwrap())),
                    None => assert_eq!(e.parent_dist, None),
                }
                let below = check_subtree(store, tx, kind, capacity, e.child, level - 1, Some(&e.pivot));
                let mut reach = 0u128;
                for v in below.iter() {
                    let d = kind.compute(&e.pivot, v).unwrap();
                    assert!(d <= e.radius);
                    reach = reach.max(d);
                }
                if level == 1 {
                    assert_eq!(e.radius, reach);
                }
                found.extend(below);
            }
        }
    }
    found
}

fn exercise(kind: Distance, capacity: usize, count: usize, spread: u64, seed: u64) {
    let ds = Datastore::new();
    let tx = ds.transaction(TransactionType::Write, LockType::Optimistic);
    let mut store = NodeStore::new(TreeStoreType::Write, &tx);
    let mut tree = MTree::new(MState::new(capacity), kind);
    let mut state = seed;
    let mut points: Vec<(Vector, u64)> = Vec::new();
    for i in 0..count {
        let x = (next_random(&mut state) % spread) as i32 - (spread / 2) as i32;
        let y = (next_random(&mut state) % spread) as i32 - (spread / 2) as i32;
        let z = (next_random(&mut state) % spread) as i32 - (spread / 2) as i32;
        let v = Vector::I32(vec![x, y, z]);
        let known = points.iter().any(|(w, _)| w.same_point(&v));
        tree.insert(&tx, &mut store, v.clone(), i as u64).unwrap();
        let _ = known;
        points.push((v, i as u64));
        let root = tree.root_id().unwrap();
        let held = check_subtree(&mut store, &tx, kind, capacity, root, tree.height(), None);
        assert!(held.len() <= points.len());
        for (w, _) in points.iter() {
            assert!(held.iter().any(|h| h.same_point(w)));
        }
    }
    for round in 0..20 {
        let q = Vector::I32(vec![
            (next_random(&mut state) % spread) as i32 - (spread / 2) as i32,
            (next_random(&mut state) % spread) as i32 - (spread / 2) as i32,
            (next_random(&mut state) % spread) as i32 - (spread / 2) as i32,
        ]);
        for k in [0usize, 1, 2, 5, count / 2, count, count + 3] {
            let got = tree.knn_search(&tx, &mut store, &q, k).unwrap();
            let want = brute_force(kind, &points, &q, k);
            assert_eq!(got, want, "round {} k {}", round, k);
        }
    }
}

#[test]
fn knn_matches_linear_scan_euclidean() {
    exercise(Distance::Euclidean, 4, 120, 40, 1);
    exercise(Distance::Euclidean, 2, 60, 8, 2);
}

#[test]
fn knn_matches_linear_scan_manhattan() {
    exercise(Distance::Manhattan, 3, 120, 30, 3);
}

#[test]
fn knn_matches_linear_scan_chebyshev() {
    exercise(Distance::Chebyshev, 5, 120, 20, 4);
}

#[test]
fn knn_matches_linear_scan_hamming() {
    exercise(Distance::Hamming, 4, 100, 4, 5);
}

#[test]
fn knn_for_every_k_up_to_the_count() {
    let ds = Datastore::new();
    let tx = ds.transaction(TransactionType::Write, LockType::Optimistic);
    let mut store = NodeStore::new(TreeStoreType::Write, &tx);
    let mut tree = MTree::new(MState::new(3), Distance::Manhattan);
    let mut points: Vec<(Vector, u64)> = Vec::new();
    for i in 0..25u64 {
        let v = point((i * 7 % 11) as i32, (i * 5 % 13) as i32);
        tree.insert(&tx, &mut store, v.clone(), i).unwrap();
        points.push((v, i));
    }
    let q = point(4, 4);
    for k in 0..=25usize {
        let got = tree.knn_search(&tx, &mut store, &q, k).unwrap();
        assert_eq!(got.len(), k);
        assert_eq!(got, brute_force(Distance::Manhattan, &points, &q, k));
    }
}

#[test]
fn five_points_two_nearest() {
    let ds = Datastore::new();
    let tx = ds.transaction(TransactionType::Write, LockType::Optimistic);
    let mut store = NodeStore::new(TreeStoreType::Write, &tx);
    let mut tree = MTree::new(MState::new(4), Distance::Euclidean);
    tree.insert(&tx, &mut store, point(0, 0), 1).unwrap();
    tree.insert(&tx, &mut store, point(1, 0), 2).unwrap();
    tree.insert(&tx, &mut store, point(0, 1), 3).unwrap();
    tree.insert(&tx, &mut store, point(5, 5), 4).unwrap();
    tree.insert(&tx, &mut store, point(5, 6), 5).unwrap();
    let got = tree.knn_search(&tx, &mut store, &point(0, 0), 2).unwrap();
    assert_eq!(got, vec![(1, 0), (2, 1)]);
    let all = tree.knn_search(&tx, &mut store, &point(0, 0), 10).unwrap();
    assert_eq!(all, vec![(1, 0), (2, 1), (3, 1), (4, 50), (5, 61)]);
    assert_eq!(Distance::Euclidean.round(all[3].1), 8);
    assert_eq!(Distance::Euclidean.round(all[4].1), 8);
}

#[test]
fn three_points_split_a_node_of_two() {
    let ds = Datastore::new();
    let tx = ds.transaction(TransactionType::Write, LockType::Optimistic);
    let mut store = NodeStore::new(TreeStoreType::Write, &tx);
    let mut tree = MTree::new(MState::new(2), Distance::Euclidean);
    tree.insert(&tx, &mut store, point(0, 0), 1).unwrap();
    tree.insert(&tx, &mut store, point(10, 0), 2).unwrap();
    assert_eq!(tree.height(), 0);
    assert_eq!(store.next_node_id(), 1);
    tree.insert(&tx, &mut store, point(1, 0), 3).unwrap();
    assert_eq!(tree.height(), 1);
    assert_eq!(store.next_node_id(), 3);
    let root = store.load(&tx, tree.root_id().unwrap()).unwrap();
    match root {
        Node::Routing(entries) => {
            assert_eq!(entries.len(), 2);
            assert!(entries[0].pivot.same_point(&point(0, 0)));
            assert!(entries[1].pivot.same_point(&point(10, 0)));
            assert_eq!(entries[0].radius, 1);
            assert_eq!(entries[1].radius, 0);
            assert_eq!(entries[0].parent_dist, None);
            let mut total = 0;
            for e in entries.iter() {
                match store.load(&tx, e.child).unwrap() {
                    Node::Leaf(leaf) => total += leaf.len(),
                    Node::Routing(_) => panic!("a child of the root is not a leaf"),
                }
            }
            assert_eq!(total, 3);
        }
        Node::Leaf(_) => panic!("the root was not split"),
    }
}

#[test]
fn empty_tree_gives_no_hits() {
    let ds = Datastore::new();
    let tx = ds.transaction(TransactionType::Read, LockType::Optimistic);
    let mut store = NodeStore::new(TreeStoreType::Read, &tx);
    let tree = MTree::new(MState::new(4), Distance::Euclidean);
    assert_eq!(tree.knn_search(&tx, &mut store, &point(0, 0), 3).unwrap(), vec![]);
    assert_eq!(tree.root_id(), None);
}

#[test]
fn query_of_another_dimension_is_refused() {
    let ds = Datastore::new();
    let tx = ds.transaction(TransactionType::Write, LockType::Optimistic);
    let mut store = NodeStore::new(TreeStoreType::Write, &tx);
    let mut tree = MTree::new(MState::new(4), Distance::Euclidean);
    tree.insert(&tx, &mut store, point(0, 0), 1).unwrap();
    tree.insert(&tx, &mut store, point(3, 4), 2).unwrap();
    let q = Vector::I32(vec![0, 0, 0]);
    assert_eq!(tree.knn_search(&tx, &mut store, &q, 1), Err(IndexError::DimensionMismatch));
    assert_eq!(tree.knn_search(&tx, &mut store, &q, 0), Ok(vec![]));
    assert_eq!(
        tree.insert(&tx, &mut store, Vector::I16(vec![1, 2, 3]), 9),
        Err(IndexError::DimensionMismatch)
    );
    assert_eq!(tree.knn_search(&tx, &mut store, &point(0, 0), 5).unwrap(), vec![(1, 0), (2, 25)]);
}

#[test]
fn same_vector_twice_is_one_entry() {
    let ds = Datastore::new();
    let tx = ds.transaction(TransactionType::Write, LockType::Optimistic);
    let mut store = NodeStore::new(TreeStoreType::Write, &tx);
    let mut tree = MTree::new(MState::new(4), Distance::Manhattan);
    tree.insert(&tx, &mut store, point(2, 3), 7).unwrap();
    tree.insert(&tx, &mut store, Vector::I16(vec![2, 3]), 8).unwrap();
    tree.insert(&tx, &mut store, point(2, 3), 7).unwrap();
    match store.load(&tx, tree.root_id().unwrap()).unwrap() {
        Node::Leaf(entries) => {
            assert_eq!(entries.len(), 1);
            assert_eq!(entries[0].docs, vec![7, 8]);
        }
        Node::Routing(_) => panic!("one vector needs one leaf"),
    }
    assert_eq!(tree.knn_search(&tx, &mut store, &point(0, 0), 5).unwrap(), vec![(7, 5), (8, 5)]);
}

#[test]
fn committed_tree_answers_as_before() {
    let mut ds = Datastore::new();
    let mut tx = ds.transaction(TransactionType::Write, LockType::Optimistic);
    let mut store = NodeStore::new(TreeStoreType::Write, &tx);
    let mut tree = MTree::new(MState::new(3), Distance::Euclidean);
    let mut state = 11u64;
    for i in 0..50u64 {
        let x = (next_random(&mut state) % 100) as i32;
        let y = (next_random(&mut state) % 100) as i32;
        tree.insert(&tx, &mut store, point(x, y), i).unwrap();
    }
    let queries = [point(0, 0), point(50, 50), point(99, 1), point(-5, 120)];
    let mut before = Vec::new();
    for q in queries.iter() {
        before.push(tree.knn_search(&tx, &mut store, q, 7).unwrap());
    }
    store.finish(&mut tx).unwrap();
    tx.commit(&mut ds).unwrap();
    let tx2 = ds.transaction(TransactionType::Read, LockType::Optimistic);
    let mut store2 = NodeStore::new(TreeStoreType::Read, &tx2);
    for (q, want) in queries.iter().zip(before.iter()) {
        assert_eq!(&tree.knn_search(&tx2, &mut store2, q, 7).unwrap(), want);
    }
    tx2.cancel();
}

#[test]
fn unfinished_changes_are_not_committed() {
    let mut ds = Datastore::new();
    let tx = ds.transaction(TransactionType::Write, LockType::Optimistic);
    let mut store = NodeStore::new(TreeStoreType::Write, &tx);
    let mut tree = MTree::new(MState::new(3), Distance::Euclidean);
    tree.insert(&tx, &mut store, point(1, 1), 1).unwrap();
    tx.commit(&mut ds).unwrap();
    let tx2 = ds.transaction(TransactionType::Read, LockType::Optimistic);
    let mut store2 = NodeStore::new(TreeStoreType::Read, &tx2);
    assert!(matches!(store2.load(&tx2, 0), Err(IndexError::NodeNotFound)));
}

#[test]
fn second_writer_meets_a_conflict() {
    let mut ds = Datastore::new();
    let mut first = ds.transaction(TransactionType::Write, LockType::Optimistic);
    let mut second = ds.transaction(TransactionType::Write, LockType::Optimistic);
    first.set(0, Node::Leaf(vec![])).unwrap();
    second.set(1, Node::Leaf(vec![])).unwrap();
    assert_eq!(first.commit(&mut ds), Ok(()));
    assert_eq!(second.commit(&mut ds), Err(IndexError::TransactionConflict));
    let reader = ds.transaction(TransactionType::Read, LockType::Pessimistic);
    assert!(reader.get(0).is_some());
    assert!(reader.get(1).is_none());
    assert_eq!(reader.key_bound(), 1);
    assert_eq!(reader.commit(&mut ds), Ok(()));
}

#[test]
fn read_only_parts_take_no_write() {
    let ds = Datastore::new();
    let mut tx = ds.transaction(TransactionType::Read, LockType::Optimistic);
    assert_eq!(tx.set(0, Node::Leaf(vec![])), Err(IndexError::StorageFailure));
    let mut store = NodeStore::new(TreeStoreType::Read, &tx);
    let mut tree = MTree::new(MState::new(4), Distance::Euclidean);
    assert_eq!(tree.insert(&tx, &mut store, point(0, 0), 1), Err(IndexError::StorageFailure));
    assert_eq!(tree.root_id(), None);
    assert_eq!(store.store(0, Node::Leaf(vec![])), Err(IndexError::StorageFailure));
    assert_eq!(store.finish(&mut tx), Ok(()));
    let mut writer = NodeStore::new(TreeStoreType::Write, &tx);
    assert_eq!(writer.store(0, Node::Leaf(vec![])), Err(IndexError::NodeNotFound));
    let id = writer.new_node_id().unwrap();
    assert_eq!(id, 0);
    assert_eq!(writer.new_node_id().unwrap(), 1);
    assert_eq!(writer.store(id, Node::Leaf(vec![])), Ok(()));
    assert_eq!(writer.finish(&mut tx), Err(IndexError::StorageFailure));
}

#[test]
fn unknown_node_is_not_found() {
    let ds = Datastore::new();
    let tx = ds.transaction(TransactionType::Write, LockType::Optimistic);
    let mut store = NodeStore::new(TreeStoreType::Write, &tx);
    assert!(matches!(store.load(&tx, 42), Err(IndexError::NodeNotFound)));
}

#[test]
fn finish_writes_each_changed_node() {
    let ds = Datastore::new();
    let mut tx = ds.transaction(TransactionType::Write, LockType::Optimistic);
    let mut store = NodeStore::new(TreeStoreType::Write, &tx);
    let mut tree = MTree::new(MState::new(2), Distance::Chebyshev);
    for i in 0..9 {
        tree.insert(&tx, &mut store, point(i, 2 * i), i as u64).unwrap();
    }
    assert!(tx.get(tree.root_id().unwrap()).is_none());
    store.finish(&mut tx).unwrap();
    let bound = store.next_node_id();
    assert_eq!(tx.key_bound(), bound);
    for id in 0..bound {
        assert!(tx.get(id).is_some());
    }
    assert_eq!(store.finish(&mut tx), Ok(()));
}

#[test]
fn distances_have_their_exact_values() {
    let a = Vector::I32(vec![0, 0, 0]);
    let b = Vector::I16(vec![3, -4, 0]);
    assert_eq!(Distance::Euclidean.compute(&a, &b), Ok(5));
    assert_eq!(Distance::Manhattan.compute(&a, &b), Ok(7));
    assert_eq!(Distance::Chebyshev.compute(&a, &b), Ok(4));
    assert_eq!(Distance::Hamming.compute(&a, &b), Ok(2));
    assert_eq!(Distance::Euclidean.compute(&point(0, 0), &point(1, 1)), Ok(2));
    assert_eq!(Distance::Euclidean.compute(&point(0, 0), &point(5, 5)), Ok(8));
    assert_eq!(Distance::Euclidean.compute(&a, &a), Ok(0));
    assert_eq!(Distance::Euclidean.compute(&a, &point(1, 1)), Err(IndexError::DimensionMismatch));
    let low = Vector::I32(vec![i32::MIN, i32::MIN]);
    let high = Vector::I32(vec![i32::MAX, i32::MAX]);
    assert_eq!(Distance::Manhattan.compute(&low, &high), Ok(2 * 4294967295u128));
    assert_eq!(Distance::Euclidean.compute(&low, &high), Ok(6074000999));
}

#[test]
fn measures_are_exact_and_round_to_distances() {
    let a = point(0, 0);
    assert_eq!(Distance::Euclidean.measure(&a, &point(1, 2)), Ok(5));
    assert_eq!(Distance::Euclidean.measure(&a, &point(2, 2)), Ok(8));
    assert_eq!(Distance::Euclidean.round(5), 3);
    assert_eq!(Distance::Euclidean.round(8), 3);
    assert_eq!(Distance::Euclidean.round(9), 3);
    assert_eq!(Distance::Euclidean.round(10), 4);
    assert_eq!(Distance::Manhattan.measure(&a, &point(1, 2)), Ok(3));
    assert_eq!(Distance::Manhattan.round(3), 3);
    assert_eq!(Distance::Chebyshev.measure(&a, &point(1, -2)), Ok(2));
    assert_eq!(Distance::Hamming.measure(&a, &point(0, 7)), Ok(1));
    assert_eq!(
        Distance::Euclidean.measure(&a, &Vector::I32(vec![1])),
        Err(IndexError::DimensionMismatch)
    );
}

#[test]
fn nearer_point_wins_where_rounded_distances_agree() {
    for capacity in [2usize, 4] {
        let ds = Datastore::new();
        let tx = ds.transaction(TransactionType::Write, LockType::Optimistic);
        let mut store = NodeStore::new(TreeStoreType::Write, &tx);
        let mut tree = MTree::new(MState::new(capacity), Distance::Euclidean);
        tree.insert(&tx, &mut store, point(1, 2), 2).unwrap();
        tree.insert(&tx, &mut store, point(2, 2), 1).unwrap();
        tree.insert(&tx, &mut store, point(9, 9), 3).unwrap();
        assert_eq!(tree.knn_search(&tx, &mut store, &point(0, 0), 1).unwrap(), vec![(2, 5)]);
        assert_eq!(
            tree.knn_search(&tx, &mut store, &point(0, 0), 3).unwrap(),
            vec![(2, 5), (1, 8), (3, 162)]
        );
    }
}

#[test]
fn rounded_up_square_roots() {
    assert_eq!(ceil_sqrt_of(0), 0);
    assert_eq!(ceil_sqrt_of(1), 1);
    assert_eq!(ceil_sqrt_of(2), 2);
    assert_eq!(ceil_sqrt_of(16), 4);
    assert_eq!(ceil_sqrt_of(17), 5);
    assert_eq!(ceil_sqrt_of(u128::MAX), 1u128 << 64);
}

#[test]
fn triangle_inequality_on_samples() {
    let mut state = 77u64;
    for kind in [Distance::Euclidean, Distance::Manhattan, Distance::Chebyshev, Distance::Hamming] {
        for _ in 0..200 {
            let a = point((next_random(&mut state) % 50) as i32, (next_random(&mut state) % 50) as i32);
            let b = point((next_random(&mut state) % 50) as i32, (next_random(&mut state) % 50) as i32);
            let c = point((next_random(&mut state) % 50) as i32, (next_random(&mut state) % 50) as i32);
            let ab = kind.compute(&a, &b).unwrap();
            let bc = kind.compute(&b, &c).unwrap();
            let ac = kind.compute(&a, &c).unwrap();
            assert!(ac <= ab + bc);
            assert_eq!(ab, kind.compute(&b, &a).unwrap());
            assert_eq!(ab == 0, a.same_point(&b));
        }
    }
}

fn entries_holding(store: &mut NodeStore, tx: &Transaction, id: NodeId, level: u64, v: &Vector) -> Vec<Vec<u64>> {
    let mut found = Vec::new();
    match store.load(tx, id).unwrap() {
        Node::Leaf(entries) => {
            for e in entries.iter() {
                if e.vector.same_point(v) {
                    found.push(e.docs.clone());
                }
            }
        }
        Node::Routing(entries) => {
            for e in entries.iter() {
                found.extend(entries_holding(store, tx, e.child, level - 1, v));
            }
        }
    }
    found
}

#[test]
fn same_vector_twice_below_a_routing_node() {
    let ds = Datastore::new();
    let tx = ds.transaction(TransactionType::Write, LockType::Optimistic);
    let mut store = NodeStore::new(TreeStoreType::Write, &tx);
    let mut tree = MTree::new(MState::new(4), Distance::Euclidean);
    let first = [(0, 0), (10, 0), (0, 10), (10, 10), (20, 20), (21, 20)];
    for (i, (x, y)) in first.iter().enumerate() {
        tree.insert(&tx, &mut store, point(*x, *y), i as u64).unwrap();
    }
    assert_eq!(tree.height(), 1);
    let nodes = store.next_node_id();
    tree.insert(&tx, &mut store, point(19, 19), 100).unwrap();
    assert_eq!(store.next_node_id(), nodes);
    tree.insert(&tx, &mut store, point(19, 19), 101).unwrap();
    assert_eq!(store.next_node_id(), nodes);
    let root = tree.root_id().unwrap();
    let held = entries_holding(&mut store, &tx, root, tree.height(), &point(19, 19));
    assert_eq!(held, vec![vec![100, 101]]);
    tree.insert(&tx, &mut store, point(19, 19), 100).unwrap();
    let again = entries_holding(&mut store, &tx, root, tree.height(), &point(19, 19));
    assert_eq!(again, vec![vec![100, 101]]);
}

#[test]
fn store_commits_what_the_search_saw() {
    let mut ds = Datastore::new();
    let tx = ds.transaction(TransactionType::Write, LockType::Optimistic);
    let mut store = NodeStore::new(TreeStoreType::Write, &tx);
    let mut tree = MTree::new(MState::new(2), Distance::Manhattan);
    for i in 0..17i32 {
        tree.insert(&tx, &mut store, point(i * 3 % 7, i * 5 % 11), i as u64).unwrap();
    }
    let q = point(3, 3);
    let seen = tree.knn_search(&tx, &mut store, &q, 6).unwrap();
    assert_eq!(store.commit(tx, &mut ds), Ok(()));
    assert_eq!(tree.knn_committed(&ds, &q, 6).unwrap(), seen);
    assert_eq!(tree.knn_committed(&ds, &Vector::I32(vec![1]), 6), Err(IndexError::DimensionMismatch));
    let stale = ds.transaction(TransactionType::Write, LockType::Optimistic);
    let fresh = ds.transaction(TransactionType::Write, LockType::Optimistic);
    let mut stale_store = NodeStore::new(TreeStoreType::Write, &stale);
    let mut fresh_store = NodeStore::new(TreeStoreType::Write, &fresh);
    let mut one = tree;
    let mut two = tree;
    one.insert(&fresh, &mut fresh_store, point(1, 1), 50).unwrap();
    two.insert(&stale, &mut stale_store, point(2, 2), 51).unwrap();
    assert_eq!(fresh_store.commit(fresh, &mut ds), Ok(()));
    assert_eq!(stale_store.commit(stale, &mut ds), Err(IndexError::TransactionConflict));
    assert_eq!(one.knn_committed(&ds, &point(1, 1), 1).unwrap(), vec![(50, 0)]);
}

#[test]
fn same_vector_after_a_split_can_reach_another_leaf() {
    let ds = Datastore::new();
    let tx = ds.transaction(TransactionType::Write, LockType::Optimistic);
    let mut store = NodeStore::new(TreeStoreType::Write, &tx);
    let mut tree = MTree::new(MState::new(2), Distance::Manhattan);
    tree.insert(&tx, &mut store, point(7, 4), 0).unwrap();
    tree.insert(&tx, &mut store, point(4, 0), 1).unwrap();
    tree.insert(&tx, &mut store, point(2, 6), 2).unwrap();
    let nodes = store.next_node_id();
    tree.insert(&tx, &mut store, point(3, 3), 100).unwrap();
    assert!(store.next_node_id() > nodes);
    tree.insert(&tx, &mut store, point(3, 3), 101).unwrap();
    let root = tree.root_id().unwrap();
    let held = entries_holding(&mut store, &tx, root, tree.height(), &point(3, 3));
    assert_eq!(held.len(), 2);
    check_subtree(&mut store, &tx, Distance::Manhattan, 2, root, tree.height(), None);
    let hits = tree.knn_search(&tx, &mut store, &point(3, 3), 2).unwrap();
    assert_eq!(hits, vec![(100, 0), (101, 0)]);
}

#[test]
fn transaction_keeps_its_kind_of_lock() {
    let ds = Datastore::new();
    let mut first = ds.transaction(TransactionType::Write, LockType::Pessimistic);
    let second = ds.transaction(TransactionType::Read, LockType::Optimistic);
    assert_eq!(first.lock(), LockType::Pessimistic);
    assert_eq!(second.lock(), LockType::Optimistic);
    first.set(0, Node::Leaf(vec![])).unwrap();
    assert_eq!(first.lock(), LockType::Pessimistic);
}
