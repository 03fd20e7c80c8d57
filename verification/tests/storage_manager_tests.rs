use heapstore::ids::{Permissions, TransactionId};
use heapstore::storage_manager::StorageManager;

/// Deterministic byte vector of length `n`, varied by `seed`.
fn get_byte_vec(n: usize, seed: u8) -> Vec<u8> {
    let mut v = Vec::with_capacity(n);
    for i in 0..n {
        v.push((seed as usize).wrapping_add(i.wrapping_mul(13)) as u8);
    }
    v
}

#[test]
fn hs_sm_a_insert() {
    let mut sm = StorageManager::new_test_sm();
    let cid = 1;
    sm.create_table(cid).unwrap();

    let bytes = get_byte_vec(40, 1);
    let tid = TransactionId::new();

    let val1 = sm.insert_value(cid, bytes.clone(), tid).unwrap();
    assert_eq!(1, sm.get_num_pages(cid));
    assert_eq!(0, val1.page_id.unwrap());
    assert_eq!(0, val1.slot_id.unwrap());

    let p1 = sm
        .get_page(cid, 0, tid, Permissions::ReadOnly, false)
        .unwrap();

    let val2 = sm.insert_value(cid, bytes, tid).unwrap();
    assert_eq!(1, sm.get_num_pages(cid));
    assert_eq!(0, val2.page_id.unwrap());
    assert_eq!(1, val2.slot_id.unwrap());

    let p2 = sm
        .get_page(cid, 0, tid, Permissions::ReadOnly, false)
        .unwrap();
    assert_ne!(p1.get_bytes()[..], p2.get_bytes()[..]);
}

#[test]
fn hs_sm_b_iter_small() {
    let mut sm = StorageManager::new_test_sm();
    let cid = 1;
    sm.create_table(cid).unwrap();
    let tid = TransactionId::new();

    // Test one page
    let mut byte_vec: Vec<Vec<u8>> = vec![
        get_byte_vec(400, 2),
        get_byte_vec(400, 3),
        get_byte_vec(400, 4),
    ];
    for val in &byte_vec {
        sm.insert_value(cid, val.clone(), tid).unwrap();
    }
    let mut iter = sm.get_iterator(cid, tid, Permissions::ReadOnly);
    let mut i = 0;
    while let Some(x) = iter.next() {
        assert_eq!(byte_vec[i], x);
        i += 1;
    }

    let mut byte_vec2: Vec<Vec<u8>> = vec![
        get_byte_vec(400, 5),
        get_byte_vec(400, 6),
        get_byte_vec(400, 7),
        get_byte_vec(400, 8),
    ];

    for val in &byte_vec2 {
        sm.insert_value(cid, val.clone(), tid).unwrap();
    }
    byte_vec.append(&mut byte_vec2);

    let mut iter = sm.get_iterator(cid, tid, Permissions::ReadOnly);
    let mut i = 0;
    while let Some(x) = iter.next() {
        assert_eq!(byte_vec[i], x);
        i += 1;
    }

    let mut byte_vec2: Vec<Vec<u8>> = vec![
        get_byte_vec(300, 9),
        get_byte_vec(500, 10),
        get_byte_vec(400, 11),
    ];

    for val in &byte_vec2 {
        sm.insert_value(cid, val.clone(), tid).unwrap();
    }
    byte_vec.append(&mut byte_vec2);

    let mut iter = sm.get_iterator(cid, tid, Permissions::ReadOnly);
    let mut i = 0;
    while let Some(x) = iter.next() {
        assert_eq!(byte_vec[i], x);
        i += 1;
    }
    assert_eq!(i, byte_vec.len());
}

#[test]
fn hs_sm_b_iter_large() {
    let mut sm = StorageManager::new_test_sm();
    let cid = 1;

    sm.create_table(cid).unwrap();
    let tid = TransactionId::new();

    let mut vals: Vec<Vec<u8>> = Vec::new();
    for i in 0..1000usize {
        vals.push(get_byte_vec(40 + (i * 37) % 361, i as u8));
    }
    sm.insert_values(cid, vals, tid).unwrap();
    let mut count = 0;
    let mut iter = sm.get_iterator(cid, tid, Permissions::ReadOnly);
    while iter.next().is_some() {
        count += 1;
    }
    assert_eq!(1000, count);
}
