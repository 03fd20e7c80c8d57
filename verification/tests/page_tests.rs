use heapstore::page::Page;
use heapstore::PAGE_SIZE;

/// Limits on how many bytes a page may use for metadata / header.
pub const FIXED_HEADER_SIZE: usize = 8;
pub const HEADER_PER_VAL_SIZE: usize = 6;

/// Deterministic byte vector of length `n`, varied by `seed`.
fn get_byte_vec(n: usize, seed: u8) -> Vec<u8> {
    let mut v = Vec::with_capacity(n);
    for i in 0..n {
        v.push((seed as usize).wrapping_add(i.wrapping_mul(31)) as u8);
    }
    v
}

#[test]
fn hs_page_create() {
    let p = Page::new(0);
    assert_eq!(0, p.get_page_id());
    assert_eq!(
        PAGE_SIZE - p.get_header_size(),
        p.get_largest_free_contiguous_space()
    );
}

#[test]
fn hs_page_simple_insert() {
    let mut p = Page::new(0);
    let tuple_bytes = get_byte_vec(27, 1);
    let byte_len = tuple_bytes.len();
    assert_eq!(Some(0), p.add_value(&tuple_bytes));
    assert_eq!(
        PAGE_SIZE - byte_len - p.get_header_size(),
        p.get_largest_free_contiguous_space()
    );
    let tuple_bytes2 = get_byte_vec(27, 1);
    assert_eq!(Some(1), p.add_value(&tuple_bytes2));
    assert_eq!(
        PAGE_SIZE - p.get_header_size() - byte_len - byte_len,
        p.get_largest_free_contiguous_space()
    );
}

#[test]
fn hs_page_space() {
    let mut p = Page::new(0);
    let size = 10;
    let bytes = get_byte_vec(size, 2);
    assert_eq!(10, bytes.len());
    assert_eq!(Some(0), p.add_value(&bytes));
    assert_eq!(
        PAGE_SIZE - p.get_header_size() - size,
        p.get_largest_free_contiguous_space()
    );
    assert_eq!(Some(1), p.add_value(&bytes));
    assert_eq!(
        PAGE_SIZE - p.get_header_size() - size * 2,
        p.get_largest_free_contiguous_space()
    );
    assert_eq!(Some(2), p.add_value(&bytes));
    assert_eq!(
        PAGE_SIZE - p.get_header_size() - size * 3,
        p.get_largest_free_contiguous_space()
    );
}

#[test]
fn hs_page_get_value() {
    let mut p = Page::new(0);
    let tuple_bytes = get_byte_vec(27, 3);
    assert_eq!(Some(0), p.add_value(&tuple_bytes));
    let check_bytes = p.get_value(0).unwrap();
    assert_eq!(tuple_bytes, check_bytes);

    let tuple_bytes2 = get_byte_vec(27, 4);
    assert_eq!(Some(1), p.add_value(&tuple_bytes2));
    let check_bytes2 = p.get_value(1).unwrap();
    assert_eq!(tuple_bytes2, check_bytes2);

    // Recheck
    let check_bytes2 = p.get_value(1).unwrap();
    assert_eq!(tuple_bytes2, check_bytes2);
    let check_bytes = p.get_value(0).unwrap();
    assert_eq!(tuple_bytes, check_bytes);

    // Check that invalid slot gets None
    assert_eq!(None, p.get_value(2));
}

#[test]
fn hs_page_header_size_small() {
    // Testing that the header is no more than 8 bytes for the header, and 6 bytes per value inserted
    let mut p = Page::new(0);
    assert!(p.get_header_size() <= FIXED_HEADER_SIZE);
    let bytes = get_byte_vec(10, 5);
    assert_eq!(Some(0), p.add_value(&bytes));
    assert!(p.get_header_size() <= FIXED_HEADER_SIZE + HEADER_PER_VAL_SIZE);
    assert_eq!(Some(1), p.add_value(&bytes));
    assert_eq!(Some(2), p.add_value(&bytes));
    assert_eq!(Some(3), p.add_value(&bytes));
    assert!(p.get_header_size() <= FIXED_HEADER_SIZE + HEADER_PER_VAL_SIZE * 4);
}

#[test]
fn hs_page_header_size_full() {
    // Testing that the header is no more than 8 bytes for the header, and 6 bytes per value inserted
    let mut p = Page::new(0);
    assert!(p.get_header_size() <= FIXED_HEADER_SIZE);
    let byte_size = 10;
    let bytes = get_byte_vec(byte_size, 6);
    // how many vals can we hold with 8 bytes
    let num_vals: usize = (PAGE_SIZE - FIXED_HEADER_SIZE) / (byte_size + HEADER_PER_VAL_SIZE);
    if PAGE_SIZE == 4096 && FIXED_HEADER_SIZE == 8 && HEADER_PER_VAL_SIZE == 6 {
        assert_eq!(255, num_vals);
    }
    for _ in 0..num_vals {
        p.add_value(&bytes);
    }
    assert!(p.get_header_size() <= FIXED_HEADER_SIZE + (num_vals * HEADER_PER_VAL_SIZE));
    assert!(
        p.get_largest_free_contiguous_space()
            >= PAGE_SIZE
                - (byte_size * num_vals)
                - FIXED_HEADER_SIZE
                - (num_vals * HEADER_PER_VAL_SIZE)
    );
}

#[test]
fn hs_page_no_space() {
    let mut p = Page::new(0);
    let size = PAGE_SIZE / 4;
    let bytes = get_byte_vec(size, 7);
    assert_eq!(Some(0), p.add_value(&bytes));
    assert_eq!(
        PAGE_SIZE - p.get_header_size() - size,
        p.get_largest_free_contiguous_space()
    );
    assert_eq!(Some(1), p.add_value(&bytes));
    assert_eq!(
        PAGE_SIZE - p.get_header_size() - size * 2,
        p.get_largest_free_contiguous_space()
    );
    assert_eq!(Some(2), p.add_value(&bytes));
    assert_eq!(
        PAGE_SIZE - p.get_header_size() - size * 3,
        p.get_largest_free_contiguous_space()
    );
    // Should reject here
    assert_eq!(None, p.add_value(&bytes));
    assert_eq!(
        PAGE_SIZE - p.get_header_size() - size * 3,
        p.get_largest_free_contiguous_space()
    );
    // Take small amount of data
    let small_bytes = get_byte_vec(size / 4, 8);
    assert_eq!(Some(3), p.add_value(&small_bytes));
    assert_eq!(
        PAGE_SIZE - p.get_header_size() - size * 3 - small_bytes.len(),
        p.get_largest_free_contiguous_space()
    );
}

#[test]
fn hs_page_simple_delete() {
    let mut p = Page::new(0);
    let tuple_bytes = get_byte_vec(27, 9);
    assert_eq!(Some(0), p.add_value(&tuple_bytes));
    let check_bytes = p.get_value(0).unwrap();
    assert_eq!(tuple_bytes, check_bytes);

    let tuple_bytes2 = get_byte_vec(27, 10);
    assert_eq!(Some(1), p.add_value(&tuple_bytes2));
    let check_bytes2 = p.get_value(1).unwrap();
    assert_eq!(tuple_bytes2, check_bytes2);

    // Delete slot 0
    assert_eq!(Some(()), p.delete_value(0));

    // Recheck slot 1
    let check_bytes2 = p.get_value(1).unwrap();
    assert_eq!(tuple_bytes2, check_bytes2);

    // Verify slot 0 is gone
    assert_eq!(None, p.get_value(0));

    // Check that invalid slot gets None
    assert_eq!(None, p.get_value(2));

    // Delete slot 1
    assert_eq!(Some(()), p.delete_value(1));

    // Verify slot 1 is gone
    assert_eq!(None, p.get_value(1));
}

#[test]
fn hs_page_get_first_free_space() {
    let _p = Page::new(0);

    let _b1 = get_byte_vec(100, 11);
    let _b2 = get_byte_vec(50, 12);
}

#[test]
fn hs_page_delete_insert() {
    let mut p = Page::new(0);
    let tuple_bytes = get_byte_vec(20, 13);
    let tuple_bytes2 = get_byte_vec(20, 14);
    let tuple_bytes3 = get_byte_vec(20, 15);
    let tuple_bytes4 = get_byte_vec(20, 16);
    let tuple_bytes_big = get_byte_vec(40, 17);
    let tuple_bytes_small1 = get_byte_vec(5, 18);
    let tuple_bytes_small2 = get_byte_vec(5, 19);

    // Add 3 values
    assert_eq!(Some(0), p.add_value(&tuple_bytes));
    let check_bytes = p.get_value(0).unwrap();
    assert_eq!(tuple_bytes, check_bytes);
    assert_eq!(Some(1), p.add_value(&tuple_bytes2));

    let check_bytes = p.get_value(1).unwrap();
    assert_eq!(tuple_bytes2, check_bytes);
    assert_eq!(Some(2), p.add_value(&tuple_bytes3));

    let check_bytes = p.get_value(2).unwrap();
    assert_eq!(tuple_bytes3, check_bytes);

    // Delete slot 1
    assert_eq!(Some(()), p.delete_value(1));
    // Verify slot 1 is gone
    assert_eq!(None, p.get_value(1));

    let check_bytes = p.get_value(0).unwrap();
    assert_eq!(tuple_bytes, check_bytes);
    let check_bytes = p.get_value(2).unwrap();
    assert_eq!(tuple_bytes3, check_bytes);

    // Insert same bytes, should go to slot 1
    assert_eq!(Some(1), p.add_value(&tuple_bytes4));

    let check_bytes = p.get_value(1).unwrap();
    assert_eq!(tuple_bytes4, check_bytes);

    // Delete 0
    assert_eq!(Some(()), p.delete_value(0));

    // Insert big, should go to slot 0 with space later in free block
    assert_eq!(Some(0), p.add_value(&tuple_bytes_big));

    // Insert small, should go to 3
    assert_eq!(Some(3), p.add_value(&tuple_bytes_small1));

    // Insert small, should go to new
    assert_eq!(Some(4), p.add_value(&tuple_bytes_small2));
}

#[test]
fn hs_page_size() {
    let mut p = Page::new(2);
    let tuple_bytes = get_byte_vec(27, 20);
    assert_eq!(Some(0), p.add_value(&tuple_bytes));

    let page_bytes = p.get_bytes();
    assert_eq!(PAGE_SIZE, page_bytes.len());
}

#[test]
fn hs_page_simple_byte_serialize() {
    let mut p = Page::new(0);
    let tuple_bytes = get_byte_vec(27, 21);
    assert_eq!(Some(0), p.add_value(&tuple_bytes));
    let tuple_bytes2 = get_byte_vec(27, 22);
    assert_eq!(Some(1), p.add_value(&tuple_bytes2));

    // Get bytes and create from bytes
    let bytes = p.get_bytes();
    let mut p2 = Page::from_bytes(&bytes).unwrap();
    assert_eq!(0, p2.get_page_id());

    // Check reads
    let check_bytes2 = p2.get_value(1).unwrap();
    assert_eq!(tuple_bytes2, check_bytes2);
    let check_bytes = p2.get_value(0).unwrap();
    assert_eq!(tuple_bytes, check_bytes);

    // Add a new value to the new page
    let tuple_bytes3 = get_byte_vec(26, 23);
    assert_eq!(Some(2), p2.add_value(&tuple_bytes3));
    assert_eq!(tuple_bytes3, p2.get_value(2).unwrap());
    assert_eq!(tuple_bytes2, p2.get_value(1).unwrap());
    assert_eq!(tuple_bytes, p2.get_value(0).unwrap());
}

#[test]
fn hs_page_iter() {
    let mut p = Page::new(0);
    let tuple_bytes = get_byte_vec(27, 24);
    assert_eq!(Some(0), p.add_value(&tuple_bytes));

    let tuple_bytes2 = get_byte_vec(27, 25);
    assert_eq!(Some(1), p.add_value(&tuple_bytes2));

    let tuple_bytes3 = get_byte_vec(27, 26);
    assert_eq!(Some(2), p.add_value(&tuple_bytes3));

    let tuple_bytes4 = get_byte_vec(27, 27);
    assert_eq!(Some(3), p.add_value(&tuple_bytes4));

    let tup_vec = vec![
        tuple_bytes.clone(),
        tuple_bytes2.clone(),
        tuple_bytes3.clone(),
        tuple_bytes4.clone(),
    ];
    let page_bytes = p.get_bytes();

    // Test iteration 1
    let mut iter = p.into_iter();
    assert_eq!(Some(tuple_bytes.clone()), iter.next());
    assert_eq!(Some(tuple_bytes2.clone()), iter.next());
    assert_eq!(Some(tuple_bytes3.clone()), iter.next());
    assert_eq!(Some(tuple_bytes4.clone()), iter.next());
    assert_eq!(None, iter.next());

    // Check another way
    let p = Page::from_bytes(&page_bytes).unwrap();
    assert_eq!(Some(tuple_bytes.clone()), p.get_value(0));

    let mut iter = p.into_iter();
    let mut i = 0;
    while let Some(x) = iter.next() {
        assert_eq!(tup_vec[i], x);
        i += 1;
    }

    let p = Page::from_bytes(&page_bytes).unwrap();
    let mut count = 0;
    let mut iter = p.into_iter();
    while iter.next().is_some() {
        count += 1;
    }
    assert_eq!(count, 4);

    // Add a value and check
    let mut p = Page::from_bytes(&page_bytes).unwrap();
    assert_eq!(Some(4), p.add_value(&tuple_bytes));
    // get the updated bytes
    let page_bytes = p.get_bytes();
    count = 0;
    let mut iter = p.into_iter();
    while iter.next().is_some() {
        count += 1;
    }
    assert_eq!(count, 5);

    // Delete
    let mut p = Page::from_bytes(&page_bytes).unwrap();
    p.delete_value(2);
    let mut iter = p.into_iter();
    assert_eq!(Some(tuple_bytes.clone()), iter.next());
    assert_eq!(Some(tuple_bytes2.clone()), iter.next());
    assert_eq!(Some(tuple_bytes4.clone()), iter.next());
    assert_eq!(Some(tuple_bytes.clone()), iter.next());
    assert_eq!(None, iter.next());
}
