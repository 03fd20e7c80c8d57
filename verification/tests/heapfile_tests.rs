use heapstore::heapfile::HeapFile;
use heapstore::page::Page;

/// Deterministic byte vector of length `n`, varied by `seed`.
fn get_byte_vec(n: usize, seed: u8) -> Vec<u8> {
    let mut v = Vec::with_capacity(n);
    for i in 0..n {
        v.push((seed as usize).wrapping_add(i.wrapping_mul(17)) as u8);
    }
    v
}

#[test]
fn hs_hf_insert() {
    let mut hf = HeapFile::new(String::from("test.hf"));

    // Make a page and write
    let mut p0 = Page::new(0);
    let bytes = get_byte_vec(100, 1);
    p0.add_value(&bytes);
    let bytes = get_byte_vec(100, 2);
    p0.add_value(&bytes);
    let bytes = get_byte_vec(100, 3);
    p0.add_value(&bytes);
    let p0_bytes = p0.get_bytes();

    hf.write_page_to_file(p0).unwrap();
    // check the page
    assert_eq!(1, hf.num_pages());
    let checkp0 = hf.read_page_from_file(0).unwrap();
    assert_eq!(p0_bytes, checkp0.get_bytes());

    // Add another page
    let mut p1 = Page::new(1);
    let bytes = get_byte_vec(100, 4);
    p1.add_value(&bytes);
    let bytes = get_byte_vec(100, 5);
    p1.add_value(&bytes);
    let bytes = get_byte_vec(100, 6);
    p1.add_value(&bytes);
    let p1_bytes = p1.get_bytes();

    hf.write_page_to_file(p1).unwrap();

    assert_eq!(2, hf.num_pages());
    // Recheck page0
    let checkp0 = hf.read_page_from_file(0).unwrap();
    assert_eq!(p0_bytes, checkp0.get_bytes());

    // check page 1
    let checkp1 = hf.read_page_from_file(1).unwrap();
    assert_eq!(p1_bytes, checkp1.get_bytes());

    assert_eq!((3, 2), hf.get_read_write_count());
}

#[test]
fn hf_page_count_monotonic() {
    let mut hf = HeapFile::new(String::from("counts.hf"));
    assert_eq!(0, hf.num_pages());

    let mut p0 = Page::new(0);
    p0.add_value(&get_byte_vec(10, 7));
    hf.write_page_to_file(p0).unwrap();
    assert_eq!(1, hf.num_pages());

    // Writing past the end pads the gap and advances the count to id + 1.
    let mut p2 = Page::new(2);
    p2.add_value(&get_byte_vec(10, 8));
    hf.write_page_to_file(p2).unwrap();
    assert_eq!(3, hf.num_pages());

    // Overwriting an existing page never shrinks the count.
    let mut p1 = Page::new(1);
    p1.add_value(&get_byte_vec(10, 9));
    hf.write_page_to_file(p1).unwrap();
    assert_eq!(3, hf.num_pages());

    // The padded gap block at id 1 was overwritten and reads back; the
    // page written at id 2 still reads back its own bytes.
    let check = hf.read_page_from_file(1).unwrap();
    assert_eq!(1, check.get_page_id());
    let check2 = hf.read_page_from_file(2).unwrap();
    assert_eq!(2, check2.get_page_id());
}

#[test]
fn hf_recovered_page_count() {
    // A reopened file's page count is set from its length before first
    // use; blocks not yet loaded read as corrupt, not as pages.
    let mut hf = HeapFile::new(String::from("reopened.hf"));
    hf.set_recovered_page_count(2);
    assert_eq!(2, hf.num_pages());
    assert!(hf.read_page_from_file(0).is_err());
    assert!(hf.read_page_from_file(2).is_err());
    let mut p0 = Page::new(0);
    p0.add_value(&get_byte_vec(12, 11));
    let p0_bytes = p0.get_bytes();
    hf.write_page_to_file(p0).unwrap();
    assert_eq!(2, hf.num_pages());
    assert_eq!(p0_bytes, hf.read_page_from_file(0).unwrap().get_bytes());
}

#[test]
fn hf_read_errors() {
    let mut hf = HeapFile::new(String::from("errors.hf"));
    // Beyond the page count.
    assert!(hf.read_page_from_file(0).is_err());

    // A hole the writes jumped over is a zero block and does not parse.
    let mut p3 = Page::new(3);
    p3.add_value(&get_byte_vec(10, 10));
    hf.write_page_to_file(p3).unwrap();
    assert_eq!(4, hf.num_pages());
    assert!(hf.read_page_from_file(1).is_err());
    let checkp3 = hf.read_page_from_file(3).unwrap();
    assert_eq!(3, checkp3.get_page_id());
}
