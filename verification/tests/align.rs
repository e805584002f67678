use reduction_server::align::alignment;

#[test]
fn alignment_rounds_up_to_pages() {
    assert_eq!(alignment(1, 4096), 4096);
    assert_eq!(alignment(4096, 4096), 4096);
    assert_eq!(alignment(4097, 4096), 8192);
    assert_eq!(alignment(4 * 1024 * 1024, 4096), 4 * 1024 * 1024);
    assert_eq!(alignment(0, 4096), 0);
    assert_eq!(alignment(70000, 65536), 131072);
}

#[test]
fn alignment_twice_changes_nothing() {
    for size in [0, 1, 4095, 4096, 12345, 1 << 20] {
        let once = alignment(size, 4096);
        assert_eq!(alignment(once, 4096), once);
        assert!(once >= size && once < size + 4096 && once % 4096 == 0);
    }
}

#[test]
fn alignment_to_an_odd_page_is_taken_bit_by_bit() {
    assert_eq!(alignment(10, 6), 15 & !5);
}
