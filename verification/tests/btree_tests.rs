use dfs::btree::BTree;
use rand::rngs::StdRng;
use rand::{RngExt, SeedableRng};

/// Asserts that each value exists in the tree and is returned by `find`.
fn assert_all_present(tree: &BTree<u32>, values: &[u32]) {
    for value in values {
        assert_eq!(tree.find(*value), Some(value));
    }
}

#[test]
fn btree_insert_and_find_larger_set() {
    let mut btree = BTree::<u32>::new();

    for value in 0..11 {
        btree.insert(value);
    }

    let expected: Vec<u32> = (0..11).collect();
    assert_all_present(&btree, &expected);
}

#[test]
fn btree_insert_descending_and_find_all() {
    let mut btree = BTree::<u32>::new();

    for value in (0..11).rev() {
        btree.insert(value);
    }

    let expected: Vec<u32> = (0..11).collect();
    assert_all_present(&btree, &expected);
}

#[test]
fn btree_insert_non_sequential_values_and_find_all() {
    let mut btree = BTree::<u32>::new();
    let values = [8, 3, 10, 1, 6, 14, 4, 7, 13, 2, 5];

    for value in values {
        btree.insert(value);
    }

    assert_all_present(&btree, &values);
}

#[test]
fn btree_insert_random_generated_values_seed_1() {
    let mut rand = StdRng::seed_from_u64(1);

    let mut btree = BTree::<u32>::new();
    let mut array = Vec::<u32>::new();

    for _ in 0..1000 {
        let tmp = rand.random();
        btree.insert(tmp);
        array.push(tmp);
    }
    assert_all_present(&btree, &array);
}

#[test]
fn btree_insert_random_generated_values_seed_42() {
    let mut rand = StdRng::seed_from_u64(42);

    let mut btree = BTree::<u32>::new();
    let mut array = Vec::<u32>::new();

    for _ in 0..1000 {
        let tmp = rand.random();
        btree.insert(tmp);
        array.push(tmp);
    }
    assert_all_present(&btree, &array);
}

#[test]
fn btree_insert_random_generated_values_seed_2897319() {
    let mut rand = StdRng::seed_from_u64(2897319);

    let mut btree = BTree::<u32>::new();
    let mut array = Vec::<u32>::new();

    for _ in 0..1000 {
        let tmp = rand.random();
        btree.insert(tmp);
        array.push(tmp);
    }
    assert_all_present(&btree, &array);
}

#[test]
fn btree_insert_non_sequential_values_and_find_for_missing_values() {
    let mut btree = BTree::<u32>::new();
    let values = [8, 3, 10, 1, 6, 14, 4, 7, 13, 2, 5];
    let searching = [9, 0, 12, 11, 15];

    for value in values {
        btree.insert(value);
    }
    for value in searching {
        assert_eq!(btree.find(value), None);
    }
}

#[test]
fn btree_insert_with_duplicates_and_find_unique_values() {
    let mut btree = BTree::<u32>::new();
    let inserted = [4, 2, 6, 2, 4, 6, 1, 3, 5, 7];
    let unique = [1, 2, 3, 4, 5, 6, 7];

    for value in inserted {
        btree.insert(value);
    }

    assert_all_present(&btree, &unique);
}

#[test]
fn btree_empty_tree_finds_nothing() {
    let btree = BTree::<u32>::new();
    assert_eq!(btree.find(0), None);
    assert_eq!(btree.find(u32::MAX), None);
    let default: BTree<u32> = BTree::default();
    assert_eq!(default.find(7), None);
}

#[test]
fn btree_insert_then_find_returns_inserted_value() {
    let mut btree = BTree::<u64>::new();
    for value in [40u64, 10, 30, 20, 50, 60, 0, u64::MAX] {
        btree.insert(value);
        assert_eq!(btree.find(value), Some(&value));
    }
    assert_eq!(btree.find(35), None);
}

#[test]
fn btree_to_string_of_single_leaf() {
    let mut btree = BTree::<u32>::new();
    btree.insert(2);
    btree.insert(1);
    assert_eq!(
        btree.to_string(),
        "BTreeNode {\n  elements: [1, 2, _, _, _]\n}\n"
    );
}

#[test]
fn btree_to_string_of_empty_tree() {
    let btree = BTree::<u32>::new();
    assert_eq!(
        btree.to_string(),
        "BTreeNode {\n  elements: [_, _, _, _, _]\n}\n"
    );
}

#[test]
fn btree_root_splits_when_full() {
    // Six elements overflow a node of five: the median moves up into a new root.
    let mut btree = BTree::<u32>::new();
    for value in [10, 20, 30, 40, 50, 60] {
        btree.insert(value);
    }
    assert_eq!(
        btree.to_string(),
        "BTreeNode {\n  elements: [30, _, _, _, _]\n  child[0]:\n  BTreeNode {\n    elements: [10, 20, _, _, _]\n  }\n  child[1]:\n  BTreeNode {\n    elements: [40, 50, 60, _, _]\n  }\n}\n"
    );
}

#[test]
fn btree_to_string_after_two_leaf_splits() {
    let mut btree = BTree::<u32>::new();
    for value in 0..11 {
        btree.insert(value);
    }
    assert_eq!(
        btree.to_string(),
        "BTreeNode {\n  elements: [2, 5, _, _, _]\n  child[0]:\n  BTreeNode {\n    elements: [0, 1, _, _, _]\n  }\n  child[1]:\n  BTreeNode {\n    elements: [3, 4, _, _, _]\n  }\n  child[2]:\n  BTreeNode {\n    elements: [6, 7, 8, 9, 10]\n  }\n}\n"
    );
}

#[test]
fn btree_many_ascending_and_descending_values_are_found() {
    let mut btree = BTree::<u32>::new();
    for value in 0..500 {
        btree.insert(value);
        btree.insert(1000 - value);
    }
    for value in 0..500 {
        assert_eq!(btree.find(value), Some(&value));
        assert_eq!(btree.find(1000 - value), Some(&(1000 - value)));
    }
    assert_eq!(btree.find(500), None);
    assert_eq!(btree.find(1001), None);
}

#[test]
fn btree_root_split_shape_after_six_inserts() {
    let mut btree = BTree::<u32>::new();
    for value in 1..=6 {
        btree.insert(value);
    }
    assert_eq!(btree.elements, vec![3]);
    assert_eq!(btree.pointers.len(), 2);
    assert_eq!(btree.pointers[0].elements, vec![1, 2]);
    assert_eq!(btree.pointers[1].elements, vec![4, 5, 6]);
    assert!(btree.pointers[0].pointers.is_empty());
    assert!(btree.pointers[1].pointers.is_empty());
}

#[test]
fn btree_inner_split_moves_median_up() {
    let mut btree = BTree::<u32>::new();
    for value in 1..=20 {
        btree.insert(value);
    }
    assert_eq!(btree.elements, vec![3, 6, 9, 12, 15]);
    assert_eq!(btree.pointers[5].elements, vec![16, 17, 18, 19, 20]);
    btree.insert(21);
    assert_eq!(btree.elements, vec![9]);
    assert_eq!(btree.pointers[0].elements, vec![3, 6]);
    assert_eq!(btree.pointers[1].elements, vec![12, 15, 18]);
    assert_eq!(btree.pointers[1].pointers[2].elements, vec![16, 17]);
    assert_eq!(btree.pointers[1].pointers[3].elements, vec![19, 20, 21]);
}
