use heapstore::ids::{Permissions, StorageError, TransactionId, ValueId};
use heapstore::page::Page;
use heapstore::storage_manager::StorageManager;
use heapstore::PAGE_SIZE;

/// Deterministic byte vector of length `n`, varied by `seed`.
fn get_byte_vec(n: usize, seed: u8) -> Vec<u8> {
    let mut v = Vec::with_capacity(n);
    for i in 0..n {
        v.push((seed as usize).wrapping_add(i.wrapping_mul(7)) as u8);
    }
    v
}

/// Three 100-byte inserts land on page 0, slots 0..2; deleting slot 1 and
/// inserting a 50-byte value reuses slot 1; the scan yields the three live
/// values in slot order.
#[test]
fn sm_delete_reuse_scenario() {
    let mut sm = StorageManager::new_test_sm();
    let tid = TransactionId::new();
    sm.create_container(
        1,
        StorageManager::get_simple_config(),
        None,
        heapstore::ids::StateType::BaseTable,
        None,
    )
    .unwrap();

    let v0 = get_byte_vec(100, 1);
    let v1 = get_byte_vec(100, 2);
    let v2 = get_byte_vec(100, 3);
    let id0 = sm.insert_value(1, v0.clone(), tid).unwrap();
    let id1 = sm.insert_value(1, v1.clone(), tid).unwrap();
    let id2 = sm.insert_value(1, v2.clone(), tid).unwrap();
    assert_eq!((Some(0), Some(0)), (id0.page_id, id0.slot_id));
    assert_eq!((Some(0), Some(1)), (id1.page_id, id1.slot_id));
    assert_eq!((Some(0), Some(2)), (id2.page_id, id2.slot_id));

    sm.delete_value(id1, tid).unwrap();
    assert!(sm.get_value(id1, tid, Permissions::ReadOnly).is_err());

    let v1b = get_byte_vec(50, 4);
    let id1b = sm.insert_value(1, v1b.clone(), tid).unwrap();
    assert_eq!(Some(0), id1b.page_id);
    assert_eq!(Some(1), id1b.slot_id);
    assert_eq!(v1b, sm.get_value(id1b, tid, Permissions::ReadOnly).unwrap());

    let mut iter = sm.get_iterator(1, tid, Permissions::ReadOnly);
    assert_eq!(Some(v0), iter.next());
    assert_eq!(Some(v1b), iter.next());
    assert_eq!(Some(v2), iter.next());
    assert_eq!(None, iter.next());
}

/// Enough 400-byte values to need three pages; the scan returns them all
/// in insertion order, page by page, slot by slot.
#[test]
fn sm_multi_page_scan() {
    let mut sm = StorageManager::new_test_sm();
    let tid = TransactionId::new();
    sm.create_table(1).unwrap();

    // A page takes ten 400-byte values (404 bytes each with metadata out
    // of 4088 free), so 25 need three pages.
    let mut vals: Vec<Vec<u8>> = Vec::new();
    for k in 0..25 {
        vals.push(get_byte_vec(400, k as u8));
    }
    let ids = sm.insert_values(1, vals.clone(), tid).unwrap();
    assert_eq!(25, ids.len());
    assert_eq!(3, sm.get_num_pages(1));
    assert_eq!(Some(0), ids[9].page_id);
    assert_eq!(Some(1), ids[10].page_id);
    assert_eq!(Some(2), ids[20].page_id);

    let mut iter = sm.get_iterator(1, tid, Permissions::ReadOnly);
    let mut i = 0;
    while let Some(x) = iter.next() {
        assert_eq!(vals[i], x);
        i += 1;
    }
    assert_eq!(25, i);
}

/// A payload of PAGE_SIZE + 1 bytes is rejected with `ValueTooLarge`
/// without creating any page.
#[test]
fn sm_insert_too_large() {
    let mut sm = StorageManager::new_test_sm();
    let tid = TransactionId::new();
    sm.create_table(1).unwrap();

    let big = get_byte_vec(PAGE_SIZE + 1, 5);
    assert_eq!(
        Err(StorageError::ValueTooLarge),
        sm.insert_value(1, big, tid)
    );
    assert_eq!(0, sm.get_num_pages(1));

    // A batch with one oversized element is rejected whole, up front.
    let vals = vec![get_byte_vec(10, 6), get_byte_vec(PAGE_SIZE + 1, 7)];
    assert_eq!(
        Err(StorageError::ValueTooLarge),
        sm.insert_values(1, vals, tid)
    );
    assert_eq!(0, sm.get_num_pages(1));
}

#[test]
fn sm_container_errors() {
    let mut sm = StorageManager::new_test_sm();
    let tid = TransactionId::new();
    sm.create_table(7).unwrap();
    // Creating the same container id again fails.
    assert_eq!(
        Err(StorageError::ContainerAlreadyExists),
        sm.create_table(7)
    );
    // Operations on an unmapped container id fail.
    assert_eq!(
        Err(StorageError::ContainerNotFound),
        sm.insert_value(8, get_byte_vec(10, 8), tid)
    );
    assert_eq!(Err(StorageError::ContainerNotFound), sm.remove_container(8));
    let missing = ValueId {
        container_id: 8,
        page_id: Some(0),
        slot_id: Some(0),
    };
    assert_eq!(
        Err(StorageError::ContainerNotFound),
        sm.get_value(missing, tid, Permissions::ReadOnly)
    );
    // Removing a mapped container unmaps it.
    sm.remove_container(7).unwrap();
    assert_eq!(
        Err(StorageError::ContainerNotFound),
        sm.insert_value(7, get_byte_vec(10, 9), tid)
    );
}

#[test]
fn sm_get_invalid_value_id() {
    let mut sm = StorageManager::new_test_sm();
    let tid = TransactionId::new();
    sm.create_table(1).unwrap();
    let id = sm.insert_value(1, get_byte_vec(10, 10), tid).unwrap();

    let bad_slot = ValueId {
        slot_id: Some(5),
        ..id
    };
    assert_eq!(
        Err(StorageError::InvalidValueId),
        sm.get_value(bad_slot, tid, Permissions::ReadOnly)
    );
    let bad_page = ValueId {
        page_id: Some(3),
        ..id
    };
    assert_eq!(
        Err(StorageError::InvalidValueId),
        sm.get_value(bad_page, tid, Permissions::ReadOnly)
    );
    let no_page = ValueId {
        page_id: None,
        ..id
    };
    assert_eq!(
        Err(StorageError::InvalidValueId),
        sm.get_value(no_page, tid, Permissions::ReadOnly)
    );
}

/// Deletion is idempotent: deleting a missing value or deleting twice
/// still returns Ok and leaves the rest readable.
#[test]
fn sm_delete_idempotent() {
    let mut sm = StorageManager::new_test_sm();
    let tid = TransactionId::new();
    sm.create_table(1).unwrap();
    let v = get_byte_vec(30, 11);
    let id = sm.insert_value(1, v.clone(), tid).unwrap();

    sm.delete_value(id, tid).unwrap();
    sm.delete_value(id, tid).unwrap();
    let bogus = ValueId {
        container_id: 9,
        page_id: Some(4),
        slot_id: Some(4),
    };
    sm.delete_value(bogus, tid).unwrap();
    assert!(sm.get_value(id, tid, Permissions::ReadOnly).is_err());
}

/// An update whose bytes fit stays on its page; one that does not fit
/// relocates, the returned id differing from the supplied one, and the old
/// id no longer resolves.
#[test]
fn sm_update_in_place_and_relocation() {
    let mut sm = StorageManager::new_test_sm();
    let tid = TransactionId::new();
    sm.create_table(1).unwrap();

    // Fill page 0 nearly full so a grown value cannot stay.
    let id0 = sm.insert_value(1, get_byte_vec(2000, 12), tid).unwrap();
    let id1 = sm.insert_value(1, get_byte_vec(2000, 13), tid).unwrap();

    // Shrinking update stays on the page and reuses the slot footprint.
    let small = get_byte_vec(100, 14);
    let id0b = sm.update_value(small.clone(), id0, tid).unwrap();
    assert_eq!(id0.page_id, id0b.page_id);
    assert_eq!(id0.slot_id, id0b.slot_id);
    assert_eq!(
        small,
        sm.get_value(id0b, tid, Permissions::ReadOnly).unwrap()
    );

    // Growing update cannot stay on the full page: it relocates.
    let big = get_byte_vec(3000, 15);
    let id1b = sm.update_value(big.clone(), id1, tid).unwrap();
    assert_ne!(id1.page_id, id1b.page_id);
    assert_eq!(big, sm.get_value(id1b, tid, Permissions::ReadOnly).unwrap());
    assert!(sm.get_value(id1, tid, Permissions::ReadOnly).is_err());

    // A payload that fits no page is rejected.
    assert_eq!(
        Err(StorageError::ValueTooLarge),
        sm.update_value(get_byte_vec(PAGE_SIZE + 1, 17), id0b, tid)
    );

    // Updating a dead id fails without touching anything.
    assert_eq!(
        Err(StorageError::InvalidValueId),
        sm.update_value(get_byte_vec(5, 16), id1, tid)
    );
}

/// Serialization round trip over a page that saw inserts and deletes: the
/// rebuilt page reads every slot identically, has the same header size,
/// and serializes to the identical image.
#[test]
fn page_round_trip_after_ops() {
    let mut p = Page::new(3);
    let a = get_byte_vec(11, 17);
    let b = get_byte_vec(22, 18);
    let c = get_byte_vec(33, 19);
    assert_eq!(Some(0), p.add_value(&a));
    assert_eq!(Some(1), p.add_value(&b));
    assert_eq!(Some(2), p.add_value(&c));
    assert_eq!(Some(()), p.delete_value(1));

    let bytes = p.get_bytes();
    assert_eq!(PAGE_SIZE, bytes.len());
    let p2 = Page::from_bytes(&bytes).unwrap();
    assert_eq!(p.get_page_id(), p2.get_page_id());
    assert_eq!(p.get_header_size(), p2.get_header_size());
    assert_eq!(
        p.get_largest_free_contiguous_space(),
        p2.get_largest_free_contiguous_space()
    );
    for s in 0..4 {
        assert_eq!(p.get_value(s), p2.get_value(s));
    }
    assert_eq!(bytes, p2.get_bytes());
}

/// Deserialization rejects truncated and malformed images.
#[test]
fn page_from_bytes_rejects_corrupt() {
    // Truncated input.
    assert_eq!(
        Some(StorageError::CorruptPage),
        Page::from_bytes(&[0u8; 10]).err()
    );
    // An all-zero block is not a valid page.
    let zeros = vec![0u8; PAGE_SIZE];
    assert!(Page::from_bytes(&zeros).is_err());
    // A header whose counts overflow the page is rejected.
    let mut bad = Page::new(0).get_bytes();
    bad[6] = 0xff;
    bad[7] = 0xff;
    assert!(Page::from_bytes(&bad).is_err());
}

/// The header size is exactly 8 + 4 per slot + 2 per freed slot.
#[test]
fn page_header_size_formula() {
    let mut p = Page::new(0);
    assert_eq!(8, p.get_header_size());
    let v = get_byte_vec(10, 20);
    p.add_value(&v);
    p.add_value(&v);
    p.add_value(&v);
    assert_eq!(8 + 4 * 3, p.get_header_size());
    p.delete_value(1);
    assert_eq!(8 + 4 * 3 + 2, p.get_header_size());
    // Free space is the cursor gap: PAGE_SIZE - data used - header.
    assert_eq!(
        PAGE_SIZE - 30 - p.get_header_size(),
        p.get_largest_free_contiguous_space()
    );
}

/// Capacity boundary: a brand-new slot needs its length plus four header
/// bytes to fit the free gap; an in-place reuse needs only the old
/// footprint; a reusing fresh allocation needs only the length.
#[test]
fn page_capacity_boundary() {
    // Fresh page: the gap is PAGE_SIZE - 8 = 4088, so 4084 is the largest
    // brand-new value and 4085 is rejected.
    let mut p = Page::new(0);
    assert_eq!(None, p.add_value(&get_byte_vec(4085, 1)));
    assert_eq!(Some(0), p.add_value(&get_byte_vec(4084, 2)));

    // In-place reuse is bounded by the freed footprint, not the gap: the
    // page is now full (gap 0), yet the freed 4084-byte footprint takes a
    // 4084-byte value again.
    let mut p = Page::new(0);
    assert_eq!(Some(0), p.add_value(&get_byte_vec(4082, 3)));
    assert_eq!(Some(()), p.delete_value(0));
    assert_eq!(None, p.add_value(&get_byte_vec(4083, 4)));
    assert_eq!(Some(0), p.add_value(&get_byte_vec(4082, 5)));

    // A freed slot id with a too-small footprint takes a fresh allocation
    // bounded by the gap alone, with no extra metadata cost.
    let mut p = Page::new(0);
    assert_eq!(Some(0), p.add_value(&get_byte_vec(10, 6)));
    assert_eq!(Some(1), p.add_value(&get_byte_vec(4000, 7)));
    assert_eq!(Some(()), p.delete_value(0));
    // The gap is now 68 bytes and the freed footprint only 10: a 68-byte
    // value reuses slot 0 from the gap; a 69-byte one would not fit.
    assert_eq!(None, p.add_value(&get_byte_vec(69, 8)));
    assert_eq!(Some(0), p.add_value(&get_byte_vec(68, 8)));
    assert_eq!(68, p.get_value(0).unwrap().len());
}

/// Recording a delete costs two header bytes for the freed slot id; on a
/// page whose gap is exhausted the delete is refused and the value stays.
#[test]
fn page_delete_needs_bookkeeping_room() {
    let mut p = Page::new(0);
    // 4084 + 4 metadata bytes consume the whole 4088-byte gap.
    let v = get_byte_vec(4084, 9);
    assert_eq!(Some(0), p.add_value(&v));
    assert_eq!(0, p.get_largest_free_contiguous_space());
    assert_eq!(None, p.delete_value(0));
    assert_eq!(v, p.get_value(0).unwrap());

    // With two bytes of gap left, the delete goes through.
    let mut p = Page::new(0);
    assert_eq!(Some(0), p.add_value(&get_byte_vec(4082, 10)));
    assert_eq!(2, p.get_largest_free_contiguous_space());
    assert_eq!(Some(()), p.delete_value(0));
    assert_eq!(None, p.get_value(0));
}

/// `reset` drops every container.
#[test]
fn sm_reset() {
    let mut sm = StorageManager::new_test_sm();
    let tid = TransactionId::new();
    sm.create_table(1).unwrap();
    sm.insert_value(1, get_byte_vec(10, 21), tid).unwrap();
    sm.reset().unwrap();
    assert_eq!(
        Err(StorageError::ContainerNotFound),
        sm.insert_value(1, get_byte_vec(10, 22), tid)
    );
    // The id can be mapped afresh.
    sm.create_table(1).unwrap();
    assert_eq!(0, sm.get_num_pages(1));
}

/// Read/write counters count successful calls; unmapped ids report zero.
#[test]
fn sm_read_write_counts() {
    let mut sm = StorageManager::new_test_sm();
    let tid = TransactionId::new();
    assert_eq!((0, 0), sm.get_hf_read_write_count(42));
    sm.create_table(2).unwrap();
    assert_eq!((0, 0), sm.get_hf_read_write_count(2));
    sm.insert_value(2, get_byte_vec(10, 23), tid).unwrap();
    let (_r, w) = sm.get_hf_read_write_count(2);
    assert_eq!(1, w);
}
