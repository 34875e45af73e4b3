use concread::constants::L_CAPACITY;
use concread::leaf::Leaf;
use concread::states::BLInsertState;
use concread::states::BLRemoveState;

// test insert in order
#[test]
fn test_bptree_leaf_insert_order() {
    let mut leaf: Leaf = Leaf::new();

    for kv in 0..(L_CAPACITY as u64) {
        let r = leaf.insert_or_update(kv, kv);
        match r {
            BLInsertState::Done(None) => {}
            _ => panic!(),
        }
        let gr = leaf.get_ref(&kv);
        assert!(gr == Some(&kv));
    }
    assert!(leaf.verify());
}

// test insert and update to over-write in order.
#[test]
#[allow(unused_variables)]
fn test_bptree_leaf_update_order() {
    let mut leaf: Leaf = Leaf::new();

    for kv in 0..(L_CAPACITY as u64) {
        let r = leaf.insert_or_update(kv, kv);
        match r {
            BLInsertState::Done(None) => {}
            _ => panic!(),
        }
        let gr = leaf.get_ref(&kv);
        assert!(gr == Some(&kv));
    }

    for kv in 0..(L_CAPACITY as u64) {
        let r = leaf.insert_or_update(kv, kv + 1);
        match r {
            // Check for some kv, that was the former value.
            BLInsertState::Done(Some(kv)) => {}
            _ => panic!(),
        }
        let gr = leaf.get_ref(&kv);
        // Check the new value is incremented.
        assert!(gr == Some(&(kv + 1)));
    }
    assert!(leaf.verify());
}

// test insert out of order
#[test]
fn test_bptree_leaf_insert_out_of_order() {
    let mut leaf: Leaf = Leaf::new();

    let kvs: [u64; 10] = [7, 5, 1, 6, 2, 3, 0, 8, 4, 9];

    for idx in 0..L_CAPACITY {
        let kv = kvs[idx];
        let r = leaf.insert_or_update(kv, kv);
        match r {
            BLInsertState::Done(None) => {}
            _ => panic!(),
        }
        let gr = leaf.get_ref(&kv);
        assert!(gr == Some(&kv));
    }
    assert!(leaf.verify());
}

// test insert and update to over-write out of order.
#[test]
#[allow(unused_variables)]
fn test_bptree_leaf_update_out_of_order() {
    let mut leaf: Leaf = Leaf::new();

    let kvs: [u64; 10] = [7, 5, 1, 6, 2, 3, 0, 8, 4, 9];

    for idx in 0..L_CAPACITY {
        let kv = kvs[idx];
        let r = leaf.insert_or_update(kv, kv);
        match r {
            BLInsertState::Done(None) => {}
            _ => panic!(),
        }
        let gr = leaf.get_ref(&kv);
        assert!(gr == Some(&kv));
    }
    assert!(leaf.verify());

    for idx in 0..L_CAPACITY {
        let kv = kvs[idx];
        let r = leaf.insert_or_update(kv, kv + 1);
        match r {
            BLInsertState::Done(Some(kv)) => {}
            _ => panic!(),
        }
        let gr = leaf.get_ref(&kv);
        assert!(gr == Some(&(kv + 1)));
    }
    assert!(leaf.verify());
}

// assert min-max bounds correctly are found.
#[test]
fn test_bptree_leaf_max() {
    let mut leaf: Leaf = Leaf::new();

    let kvs: [u64; 10] = [1, 3, 2, 6, 4, 5, 9, 8, 7, 0];
    let max: [u64; 10] = [1, 3, 3, 6, 6, 6, 9, 9, 9, 9];

    for idx in 0..L_CAPACITY {
        let kv = kvs[idx];
        let r = leaf.insert_or_update(kv, kv);
        match r {
            BLInsertState::Done(None) => {}
            _ => panic!(),
        }
        let gr = leaf.max();
        assert!(*gr == max[idx]);
    }
    assert!(leaf.verify());
}

#[test]
fn test_bptree_leaf_min() {
    let mut leaf: Leaf = Leaf::new();

    let kvs: [u64; 10] = [3, 2, 6, 4, 5, 1, 9, 8, 7, 0];
    let min: [u64; 10] = [3, 2, 2, 2, 2, 1, 1, 1, 1, 0];

    for idx in 0..L_CAPACITY {
        let kv = kvs[idx];
        let r = leaf.insert_or_update(kv, kv);
        match r {
            BLInsertState::Done(None) => {}
            _ => panic!(),
        }
        let gr = leaf.min();
        assert!(*gr == min[idx]);
    }
    assert!(leaf.verify());
}

// insert to split.
#[test]
#[allow(unused_variables)]
fn test_bptree_leaf_insert_split() {
    let mut leaf: Leaf = Leaf::new();
    let high = (L_CAPACITY as u64) + 2;
    // First we insert from 1 to capacity + 1.
    for kv in 1..((L_CAPACITY as u64) + 1) {
        let r = leaf.insert_or_update(kv, kv);
        match r {
            BLInsertState::Done(None) => {}
            _ => panic!(),
        }
    }
    // Then we insert capacity + 2, and should get that back.
    let r_over = leaf.insert_or_update(high, high);
    match r_over {
        BLInsertState::Split(high, _) => {}
        _ => panic!(),
    }
    // Then we insert 0, and we should get capacity + 1 back
    let zret = (L_CAPACITY as u64) + 1;
    let r_under = leaf.insert_or_update(0, 0);
    match r_over {
        BLInsertState::Split(zret, _) => {}
        _ => panic!(),
    }
    assert!(leaf.len() == L_CAPACITY);
}

// remove in order
#[test]
#[allow(unused_variables)]
fn test_bptree_leaf_remove_order() {
    let mut leaf: Leaf = Leaf::new();
    for kv in 0..(L_CAPACITY as u64) {
        let _ = leaf.insert_or_update(kv, kv);
    }
    // Remove all but one!
    for kv in 0..((L_CAPACITY as u64) - 1) {
        let r = leaf.remove(&kv);
        match r {
            BLRemoveState::Done(Some(kv)) => {}
            _ => panic!(),
        }
    }
    println!("{:?}", leaf.max());
    assert!(leaf.max() == &((L_CAPACITY as u64) - 1));

    // Remove non-existant
    let r = leaf.remove(&((L_CAPACITY as u64) + 20));
    match r {
        BLRemoveState::Done(None) => {}
        _ => panic!(),
    }
    // Remove the last item.
    let r = leaf.remove(&((L_CAPACITY as u64) - 1));
    match r {
        BLRemoveState::Shrink(Some(_)) => {}
        _ => panic!(),
    }
    // Remove non-existant post shrink
    let r = leaf.remove(&0);
    match r {
        BLRemoveState::Shrink(None) => {}
        _ => panic!(),
    }
}

// remove out of order
#[test]
fn test_bptree_leaf_remove_out_of_order() {
    let mut leaf: Leaf = Leaf::new();
    for kv in 0..(L_CAPACITY as u64) {
        let _ = leaf.insert_or_update(kv, kv);
    }
    // Remove all but one!
    for kv in ((L_CAPACITY as u64) / 2)..((L_CAPACITY as u64) - 1) {
        let r = leaf.remove(&kv);
        assert!(leaf.verify());
        match r {
            BLRemoveState::Done(_) => {}
            _ => panic!(),
        }
    }

    for kv in 0..((L_CAPACITY as u64) / 2) {
        let r = leaf.remove(&kv);
        match r {
            BLRemoveState::Done(_) => {}
            _ => panic!(),
        }
    }
}
