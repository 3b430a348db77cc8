use cursor_api::tree::dimension::{dimension, Dimension, NUM_ENTRIES};
use cursor_api::tree::internal_node::{InternalNode, Node};
use cursor_api::tree::leaf::{InsertResult, Leaf, RemoveResult};
use cursor_api::tree::leaf_iter::{Iter, RevIter};
use cursor_api::tree::leaf_node::LeafNode;
use cursor_api::tree::range::{KeyBound, KeyRange};
use cursor_api::tree::tree_index::TreeIndex;

#[test]
fn leaf_basic() {
    let mut leaf: Leaf<String, String> = Leaf::new();
    assert!(matches!(
        leaf.insert("MY GOODNESS!".to_owned(), "OH MY GOD!!".to_owned()),
        InsertResult::Success
    ));
    assert!(matches!(
        leaf.insert("GOOD DAY".to_owned(), "OH MY GOD!!".to_owned()),
        InsertResult::Success
    ));
    assert_eq!(
        leaf.search_entry(&"MY GOODNESS!".to_owned()).unwrap().1,
        "OH MY GOD!!"
    );
    assert_eq!(
        leaf.search_entry(&"GOOD DAY".to_owned()).unwrap().1,
        "OH MY GOD!!"
    );

    for i in 0..NUM_ENTRIES {
        if let InsertResult::Full(k, v) = leaf.insert(i.to_string(), i.to_string()) {
            assert_eq!(i + 2, NUM_ENTRIES);
            assert_eq!(k, i.to_string());
            assert_eq!(v, i.to_string());
            break;
        }
        assert_eq!(
            leaf.search_entry(&i.to_string()).unwrap(),
            (&i.to_string(), &i.to_string())
        );
    }

    for i in 0..NUM_ENTRIES {
        let result = leaf.remove_if(&i.to_string(), &|_| i >= 10);
        if i >= 10 && i + 2 < NUM_ENTRIES {
            assert_eq!(result, RemoveResult::Success);
        } else {
            assert_eq!(result, RemoveResult::Fail);
        }
    }

    assert_eq!(
        leaf.remove_if(&"GOOD DAY".to_owned(), &|v: &String| v == "OH MY"),
        RemoveResult::Fail
    );
    assert_eq!(
        leaf.remove_if(&"GOOD DAY".to_owned(), &|v: &String| v == "OH MY GOD!!"),
        RemoveResult::Success
    );
    assert!(leaf.search_entry(&"GOOD DAY".to_owned()).is_none());
    assert_eq!(
        leaf.remove_if(&"MY GOODNESS!".to_owned(), &|_| true),
        RemoveResult::Success
    );
    assert!(leaf.search_entry(&"MY GOODNESS!".to_owned()).is_none());
    assert!(leaf.search_entry(&"1".to_owned()).is_some());
    assert!(matches!(
        leaf.insert("1".to_owned(), "1".to_owned()),
        InsertResult::Duplicate(..)
    ));
    assert!(matches!(
        leaf.insert("100".to_owned(), "100".to_owned()),
        InsertResult::Full(..)
    ));

    let mut entries: Vec<(String, String)> = Vec::new();
    let mut iter = Iter::new(&leaf);
    while let Some(e) = iter.next() {
        entries.push((e.0.clone(), e.1.clone()));
    }
    for i in 0..NUM_ENTRIES {
        if let Some(e) = entries.get(i) {
            assert_eq!(e.0, i.to_string());
            assert_eq!(e.1, i.to_string());
            assert_ne!(
                leaf.remove_if(&i.to_string(), &|_| true),
                RemoveResult::Fail
            );
        } else {
            break;
        }
    }

    assert!(matches!(
        leaf.insert("200".to_owned(), "200".to_owned()),
        InsertResult::Full(..)
    ));
}

#[test]
fn iter_rev_iter() {
    let mut leaf: Leaf<usize, usize> = Leaf::new();
    for i in 0..NUM_ENTRIES {
        if i % 2 == 0 {
            assert!(matches!(
                leaf.insert(i * 1024 + 1, i),
                InsertResult::Success
            ));
        } else {
            assert!(matches!(leaf.insert(i * 2, i), InsertResult::Success));
        }
    }
    assert!(matches!(
        leaf.remove_if(&6, &|_| true),
        RemoveResult::Success
    ));

    let mut iter = Iter::new(&leaf);
    assert_eq!(iter.next(), Some((&1, &0)));
    let rev_iter = iter.rev();
    assert_eq!(rev_iter.get(), Some((&1, &0)));
    iter = rev_iter.rev();
    assert_eq!(iter.get(), Some((&1, &0)));

    let mut prev_key = 0;
    let mut sum = 0;
    let mut forward = Iter::new(&leaf);
    while let Some((key, _)) = forward.next() {
        assert_ne!(*key, 6);
        assert!(prev_key < *key);
        prev_key = *key;
        sum += *key;
    }
    prev_key = usize::MAX;

    let mut backward = RevIter::new(&leaf);
    while let Some((key, _)) = backward.next() {
        assert_ne!(*key, 6);
        assert!(prev_key > *key);
        prev_key = *key;
        sum -= *key;
    }
    assert_eq!(sum, 0);
}

#[test]
fn calculate_boundary() {
    let mut leaf: Leaf<usize, usize> = Leaf::new();
    for i in 0..NUM_ENTRIES {
        assert!(matches!(leaf.insert(i, i), InsertResult::Success));
    }
    assert_eq!(
        Leaf::<usize, usize>::optimal_boundary(leaf.metadata()),
        NUM_ENTRIES - 1
    );

    let mut leaf: Leaf<usize, usize> = Leaf::new();
    for i in (0..NUM_ENTRIES).rev() {
        assert!(matches!(leaf.insert(i, i), InsertResult::Success));
    }
    assert_eq!(Leaf::<usize, usize>::optimal_boundary(leaf.metadata()), 1);

    let mut leaf: Leaf<usize, usize> = Leaf::new();
    for i in 0..NUM_ENTRIES {
        if i < NUM_ENTRIES / 2 {
            assert!(matches!(
                leaf.insert(usize::MAX - i, usize::MAX - i),
                InsertResult::Success
            ));
        } else {
            assert!(matches!(leaf.insert(i, i), InsertResult::Success));
        }
    }
    if usize::BITS == 32 {
        assert_eq!(Leaf::<usize, usize>::optimal_boundary(leaf.metadata()), 4);
    } else {
        assert_eq!(Leaf::<usize, usize>::optimal_boundary(leaf.metadata()), 6);
    }
}

#[test]
fn special() {
    let mut leaf: Leaf<usize, usize> = Leaf::new();
    assert!(matches!(leaf.insert(11, 17), InsertResult::Success));
    assert!(matches!(leaf.insert(17, 11), InsertResult::Success));

    let mut leaf1: Leaf<usize, usize> = Leaf::new();
    let mut leaf2: Leaf<usize, usize> = Leaf::new();
    assert!(leaf.freeze());
    let (entries, b) = leaf.distribute();
    for (i, (k, v)) in entries.into_iter().enumerate() {
        if i < b {
            leaf1.insert_unchecked(*k, *v, i);
        } else {
            leaf2.insert_unchecked(*k, *v, i - b);
        }
    }
    assert_eq!(leaf1.search_entry(&11), Some((&11, &17)));
    assert_eq!(leaf1.search_entry(&17), Some((&17, &11)));
    assert!(leaf2.is_empty());
    assert!(matches!(leaf.insert(1, 7), InsertResult::Frozen(..)));
    assert_eq!(leaf.remove_if(&17, &|_| true), RemoveResult::Frozen);
    assert!(matches!(leaf.insert(3, 5), InsertResult::Frozen(..)));

    assert!(leaf.unfreeze());
    assert!(matches!(leaf.insert(1, 7), InsertResult::Success));

    assert_eq!(leaf.remove_if(&1, &|_| true), RemoveResult::Success);
    assert_eq!(leaf.remove_if(&17, &|_| true), RemoveResult::Success);
    assert_eq!(leaf.remove_if(&11, &|_| true), RemoveResult::Retired);

    assert!(matches!(leaf.insert(5, 3), InsertResult::Full(..)));
}

#[test]
fn general() {
    for insert in 0..NUM_ENTRIES {
        for remove in 0..NUM_ENTRIES {
            let mut leaf: Leaf<usize, usize> = Leaf::new();
            assert!(leaf.is_empty());
            for i in 0..insert {
                assert!(matches!(leaf.insert(i, i), InsertResult::Success));
            }
            if insert == 0 {
                assert_eq!(leaf.max_key(), None);
                assert!(leaf.is_empty());
            } else {
                assert_eq!(leaf.max_key(), Some(&(insert - 1)));
                assert!(!leaf.is_empty());
            }
            for i in 0..insert {
                assert!(matches!(leaf.insert(i, i), InsertResult::Duplicate(..)));
                assert!(!leaf.is_empty());
                let result = leaf.min_greater_equal(&i);
                assert_eq!(result.0, Some((&i, &i)));
            }
            for i in 0..insert {
                assert_eq!(leaf.search_entry(&i).unwrap(), (&i, &i));
            }
            if insert == NUM_ENTRIES {
                assert!(matches!(
                    leaf.insert(usize::MAX, usize::MAX),
                    InsertResult::Full(..)
                ));
            }
            for i in 0..remove {
                if i < insert {
                    if i == insert - 1 {
                        assert!(matches!(
                            leaf.remove_if(&i, &|_| true),
                            RemoveResult::Retired
                        ));
                        for i in 0..insert {
                            assert!(matches!(leaf.insert(i, i), InsertResult::Full(..)));
                        }
                    } else {
                        assert!(matches!(
                            leaf.remove_if(&i, &|_| true),
                            RemoveResult::Success
                        ));
                    }
                } else {
                    assert!(matches!(leaf.remove_if(&i, &|_| true), RemoveResult::Fail));
                    assert!(leaf.is_empty());
                }
            }
        }
    }
}

#[test]
fn range() {
    for start in 0..NUM_ENTRIES {
        for end in 0..NUM_ENTRIES {
            let mut leaf: Leaf<usize, usize> = Leaf::new();
            for i in 1..NUM_ENTRIES - 1 {
                assert!(matches!(leaf.insert(i, i), InsertResult::Success));
            }
            leaf.remove_range(&KeyRange::between(start, end));
            for i in 1..NUM_ENTRIES - 1 {
                assert!(leaf.search_entry(&i).is_none() == (start..end).contains(&i));
            }
            assert!(leaf.search_entry(&0).is_none());
            assert!(leaf.search_entry(&(NUM_ENTRIES - 1)).is_none());
        }
    }
}

#[test]
fn leaf_node_basic() {
    let mut leaf_node: LeafNode<String, String> = LeafNode::new();
    assert!(matches!(
        leaf_node.insert("MY GOODNESS!".to_owned(), "OH MY GOD!!".to_owned()),
        InsertResult::Success
    ));
    assert!(matches!(
        leaf_node.insert("GOOD DAY".to_owned(), "OH MY GOD!!".to_owned()),
        InsertResult::Success
    ));
    assert_eq!(
        leaf_node
            .search_entry(&"MY GOODNESS!".to_owned())
            .unwrap()
            .1,
        "OH MY GOD!!"
    );
    assert_eq!(
        leaf_node.search_entry(&"GOOD DAY".to_owned()).unwrap().1,
        "OH MY GOD!!"
    );
    assert!(matches!(
        leaf_node.remove_if(&"GOOD DAY".to_owned(), &|v: &String| v == "OH MY"),
        RemoveResult::Fail
    ));
    assert!(matches!(
        leaf_node.remove_if(&"GOOD DAY".to_owned(), &|v: &String| v == "OH MY GOD!!"),
        RemoveResult::Success
    ));
    assert!(matches!(
        leaf_node.remove_if(&"GOOD".to_owned(), &|v: &String| v == "OH MY"),
        RemoveResult::Fail
    ));
    assert!(matches!(
        leaf_node.remove_if(&"MY GOODNESS!".to_owned(), &|_| true),
        RemoveResult::Retired
    ));
    assert!(matches!(
        leaf_node.insert("HI".to_owned(), "HO".to_owned()),
        InsertResult::Full(..)
    ));
}

#[test]
fn leaf_node_bulk() {
    let mut leaf_node: LeafNode<usize, usize> = LeafNode::new();
    let mut filled = false;
    for k in 0..1024 {
        match leaf_node.insert(k, k) {
            InsertResult::Success => {
                assert_eq!(leaf_node.search_entry(&k), Some((&k, &k)));
            }
            InsertResult::Duplicate(..) | InsertResult::Frozen(..) => unreachable!(),
            InsertResult::Full(_, _) => {
                filled = true;
                for r in 0..(k - 1) {
                    assert_eq!(leaf_node.search_entry(&r), Some((&r, &r)));
                    assert_eq!(leaf_node.remove_if(&r, &|_| true), RemoveResult::Success);
                    assert_eq!(leaf_node.search_entry(&r), None);
                }
                assert_eq!(
                    leaf_node.search_entry(&(k - 1)),
                    Some((&(k - 1), &(k - 1)))
                );
                assert_eq!(
                    leaf_node.remove_if(&(k - 1), &|_| true),
                    RemoveResult::Retired
                );
                assert_eq!(leaf_node.search_entry(&(k - 1)), None);
                break;
            }
        }
    }
    assert!(filled);
}

fn new_level_3_node() -> InternalNode<usize, usize> {
    InternalNode::with_child(Node::Internal(InternalNode::with_child(
        Node::new_leaf_node(),
    )))
}

#[test]
fn internal_node_bulk() {
    let mut internal_node = new_level_3_node();
    assert_eq!(internal_node.depth(1), 3);

    let data_size = 8192;
    for k in 0..data_size {
        match internal_node.insert(k, k) {
            InsertResult::Success => {
                assert_eq!(internal_node.search_entry(&k), Some((&k, &k)));
            }
            InsertResult::Duplicate(..) | InsertResult::Frozen(..) => unreachable!(),
            InsertResult::Full(_, _) => {
                for j in 0..k {
                    assert_eq!(internal_node.search_entry(&j), Some((&j, &j)));
                    if j == k - 1 {
                        assert!(matches!(
                            internal_node.remove_if(&j, &|_| true),
                            RemoveResult::Retired
                        ));
                    } else {
                        assert_eq!(
                            internal_node.remove_if(&j, &|_| true),
                            RemoveResult::Success
                        );
                    }
                    assert_eq!(internal_node.search_entry(&j), None);
                }
                break;
            }
        }
    }
}

fn filled_index(n: u64) -> TreeIndex<u64, u64> {
    let mut index: TreeIndex<u64, u64> = TreeIndex::new();
    for k in 0..n {
        assert!(index.insert_sync(k * 7 % n, k).is_ok());
    }
    index
}

#[test]
fn index_insert_and_peek() {
    let mut index: TreeIndex<u64, u32> = TreeIndex::new();
    assert_eq!(index.depth(), 0);
    assert!(index.peek(&1).is_none());
    assert!(index.insert_sync(1, 10).is_ok());
    assert_eq!(index.insert_sync(1, 11), Err((1, 11)));
    assert_eq!(index.depth(), 1);
    assert_eq!(index.peek(&1), Some(&10));
    assert_eq!(index.peek_with(&1, |k, v| (*k, *v)), Some((1, 10)));
    assert_eq!(index.peek_entry(&1), Some((&1, &10)));
    assert!(index.contains(&1));
    assert!(!index.contains(&2));
    assert!(index.remove_sync(&1));
    assert!(!index.remove_sync(&1));
    assert!(index.is_empty());
}

#[test]
fn index_remove_if() {
    let mut index: TreeIndex<u64, u32> = TreeIndex::new();
    assert!(index.insert_sync(1, 10).is_ok());
    assert!(!index.remove_if_sync(&1, |v| *v == 0));
    assert!(index.remove_if_sync(&1, |v| *v == 10));
    assert!(!index.remove_if_sync(&1, |v| *v == 10));
}

#[test]
fn condition_sees_only_the_value_of_the_key() {
    let mut index = filled_index(100);
    assert!(!index.remove_if_sync(&1000, |_| panic!("no such key")));
    assert_eq!(index.len(), 100);
    let value = index.peek_with(&7, |_, v| *v).unwrap();
    assert!(!index.remove_if_sync(&7, |v| {
        assert_eq!(*v, value);
        false
    }));
    assert!(index.remove_if_sync(&7, |v| *v == value));
    assert_eq!(index.len(), 99);
    assert_eq!(index.peek_with(&7, |_, _| panic!("no such key")), None::<u64>);
}

#[test]
fn flags_do_not_count_as_entries() {
    let mut metadata = 0;
    for (i, rank) in [2, 1, 15, 3].into_iter().enumerate() {
        metadata = dimension().augment(metadata, i, rank);
    }
    assert_eq!(Leaf::<u64, u64>::len(metadata), 3);
    let frozen = Dimension::freeze(metadata);
    assert!(Dimension::frozen(frozen));
    assert_eq!(Leaf::<u64, u64>::len(frozen), 3);
    assert_eq!(Leaf::<u64, u64>::len(Dimension::retire(metadata)), 3);
    assert_eq!(
        Leaf::<u64, u64>::optimal_boundary(frozen),
        Leaf::<u64, u64>::optimal_boundary(metadata)
    );
    assert_eq!(Dimension::unfreeze(frozen), metadata);
}

#[test]
fn index_grows_and_shrinks() {
    let mut index = filled_index(5000);
    assert_eq!(index.len(), 5000);
    assert!(index.depth() >= 3);
    for k in 0..5000 {
        assert!(index.contains(&k));
        assert!(index.remove_sync(&k));
        assert!(!index.contains(&k));
    }
    assert!(index.is_empty());
    assert_eq!(index.depth(), 0);
    index.clear();
    assert_eq!(index.len(), 0);
}

#[test]
fn index_iterates_in_order_from_both_ends() {
    let index = filled_index(1000);
    let mut iter = index.iter();
    for k in 0..1000 {
        assert_eq!(iter.next().map(|e| *e.0), Some(k));
    }
    assert_eq!(iter.next(), None);
    assert_eq!(iter.next(), None);

    let mut iter = index.iter();
    for k in (0..1000).rev() {
        assert_eq!(iter.next_back().map(|e| *e.0), Some(k));
    }
    assert_eq!(iter.next_back(), None);

    let mut iter = index.iter();
    let mut seen = 0;
    let mut front = true;
    loop {
        let entry = if front { iter.next() } else { iter.next_back() };
        if entry.is_none() {
            break;
        }
        seen += 1;
        front = !front;
    }
    assert_eq!(seen, 1000);
}

#[test]
fn index_range() {
    let mut index: TreeIndex<u64, u64> = TreeIndex::new();
    for i in 0..10 {
        assert!(index.insert_sync(i, 10).is_ok());
    }
    let mut range = index.range(KeyRange::through(1, 5));
    let mut keys: Vec<u64> = Vec::new();
    while let Some((k, _)) = range.next() {
        keys.push(*k);
    }
    assert_eq!(keys, vec![1, 2, 3, 4, 5]);
    let mut range = index.range(KeyRange {
        start: KeyBound::Excluded(7),
        end: KeyBound::Unbounded,
    });
    assert_eq!(range.next().map(|e| *e.0), Some(8));
    assert_eq!(range.next().map(|e| *e.0), Some(9));
    assert_eq!(range.next(), None);
    let mut range = index.range(KeyRange::between(4, 4));
    assert_eq!(range.next(), None);
}

#[test]
fn index_remove_range() {
    for (start, end) in [(3, 8), (0, 5000), (100, 4000), (4990, 5000), (7, 7)] {
        let mut index = filled_index(5000);
        index.remove_range_sync(KeyRange::between(start, end));
        for k in 0..5000 {
            assert_eq!(index.contains(&k), !(start..end).contains(&k));
        }
        assert_eq!(index.len() as u64, 5000 - (end - start));
    }
    let mut index = filled_index(100);
    index.remove_range_sync(KeyRange::full());
    assert!(index.is_empty());
}

#[test]
fn index_clone_and_equality() {
    let index = filled_index(300);
    let mut copy = index.clone();
    assert!(index.eq(&copy));
    assert!(copy.remove_sync(&17));
    assert!(!index.eq(&copy));
    assert!(copy.insert_sync(17, *index.peek(&17).unwrap()).is_ok());
    assert!(index.eq(&copy));
}

#[test]
fn leaf_split_around_keeps_entries() {
    let mut leaf: Leaf<usize, usize> = Leaf::new();
    for i in 0..NUM_ENTRIES {
        assert!(matches!(leaf.insert(i, i * 2), InsertResult::Success));
    }
    assert!(leaf.is_full());
    let (low, high) = leaf.split(5);
    assert_eq!(low.max_key(), Some(&4));
    assert_eq!(low.count(), 5);
    assert_eq!(high.count(), NUM_ENTRIES - 5);
    assert_eq!(high.search_value(&5), Some(&10));
    assert!(low.validate(low.metadata()));
}
