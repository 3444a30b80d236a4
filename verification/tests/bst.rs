use bst::Record;
use bst::BST;

#[test]
fn insert() {
    let mut bst: BST<i64> = BST::new();

    assert_eq!(bst.find(&5), None);

    bst.insert(5);

    assert_eq!(bst.find(&5), Some(&5));

    bst.insert(9);

    assert_eq!(bst.find(&5), Some(&5));
    assert_eq!(bst.find(&9), Some(&9));

    bst.insert(9);

    assert_eq!(bst.find(&5), Some(&5));
    assert_eq!(bst.find(&9), Some(&9));

    bst.insert(8);

    assert_eq!(bst.find(&5), Some(&5));
    assert_eq!(bst.find(&8), Some(&8));
    assert_eq!(bst.find(&9), Some(&9));
}

#[test]
fn delete() {
    for j in 0i64..7 {
        //      2
        //    /   \
        //   1     5
        //  /     /  \
        // 0     3    6
        //        \
        //         4

        let mut bst: BST<i64> = BST::new();

        bst.insert(2);
        bst.insert(1);
        bst.insert(0);
        bst.insert(5);
        bst.insert(3);
        bst.insert(4);
        bst.insert(6);

        for i in 0i64..7 {
            assert_eq!(bst.find(&i), Some(&i));
        }

        bst.delete(&j);

        for i in 0i64..7 {
            assert_eq!(bst.find(&i), if i == j { None } else { Some(&i) });
        }
    }
}

#[test]
fn find_on_empty_tree() {
    let bst: BST<u64> = BST::new();
    assert_eq!(bst.find(&0), None);
    assert_eq!(bst.find(&u64::MAX), None);
}

#[test]
fn round_trip_after_insert() {
    let mut bst: BST<u64> = BST::new();
    let keys: [u64; 6] = [31, 2, 77, 2, 0, u64::MAX];
    for k in keys {
        bst.insert(k);
        assert_eq!(bst.find(&k), Some(&k));
    }
    for k in keys {
        assert_eq!(bst.find(&k), Some(&k));
    }
}

#[test]
fn upsert_overwrites_whole_record() {
    let mut bst: BST<Record> = BST::new();

    bst.insert(Record { id: 9, payload: 1 });
    bst.insert(Record { id: 4, payload: 7 });
    assert_eq!(bst.find(&9).unwrap().payload, 1);

    bst.insert(Record { id: 9, payload: 2 });

    let found = bst.find(&9).unwrap();
    assert_eq!(found.id, 9);
    assert_eq!(found.payload, 2);
    assert_eq!(bst.find(&4).unwrap().payload, 7);
}

#[test]
fn delete_absent_key_changes_nothing() {
    let mut bst: BST<i64> = BST::new();
    bst.delete(&3);
    assert_eq!(bst.find(&3), None);

    for k in [2i64, 1, 0, 5, 3, 4, 6] {
        bst.insert(k);
    }

    bst.delete(&-1);
    bst.delete(&7);
    bst.delete(&100);

    for i in 0i64..7 {
        assert_eq!(bst.find(&i), Some(&i));
    }
}

#[test]
fn deleting_every_key_empties_the_tree() {
    let inserted: [u64; 7] = [2, 1, 0, 5, 3, 4, 6];
    let scrambled: [u64; 7] = [4, 0, 6, 2, 5, 1, 3];

    let mut bst: BST<u64> = BST::new();
    for k in inserted {
        bst.insert(k);
    }
    for k in scrambled {
        bst.delete(&k);
    }
    for k in inserted {
        assert_eq!(bst.find(&k), None);
    }
}

#[test]
fn two_child_deletion_keeps_the_successor_subtree() {
    // Deleting 5 from the scenario tree: its in-order successor is 6, which
    // takes 5's place; 3 and its right child 4 must survive untouched.
    let mut bst: BST<u64> = BST::new();
    for k in [2u64, 1, 0, 5, 3, 4, 6] {
        bst.insert(k);
    }

    bst.delete(&5);

    assert_eq!(bst.find(&5), None);
    for k in [0u64, 1, 2, 3, 4, 6] {
        assert_eq!(bst.find(&k), Some(&k));
    }
}

#[test]
fn mixed_inserts_and_deletes() {
    let mut bst: BST<i64> = BST::new();
    for k in [50i64, -20, 75, 0, 60, -40, 99] {
        bst.insert(k);
    }
    bst.delete(&50);
    bst.insert(10);
    bst.delete(&-20);
    bst.insert(-20);
    bst.delete(&99);

    for k in [-40i64, -20, 0, 10, 60, 75] {
        assert_eq!(bst.find(&k), Some(&k));
    }
    assert_eq!(bst.find(&50), None);
    assert_eq!(bst.find(&99), None);
}
