use mm3u::pages::get_page_count;
use mm3u::pages::last_page_len;

#[test]
fn page_count_is_ceiling() {
    assert_eq!(get_page_count(10241, 1024), 11);
    assert_eq!(get_page_count(10240, 1024), 10);
    assert_eq!(get_page_count(1, 1024), 1);
    assert_eq!(get_page_count(1024, 1024), 1);
    assert_eq!(get_page_count(1025, 1024), 2);
    assert_eq!(get_page_count(0, 1024), 0);
    assert_eq!(get_page_count(u64::MAX, 1), u64::MAX);
}

#[test]
fn last_page_length_formula() {
    // total - page_size * (count - 1)
    assert_eq!(last_page_len(10241, 1024), 1);
    assert_eq!(last_page_len(10239, 1024), 1023);
    assert_eq!(last_page_len(5, 1024), 5);
}

#[test]
fn last_page_length_exact_multiple_is_full_page() {
    // The remainder degenerates to 0 here; the final page is a full page.
    assert_eq!(last_page_len(10240, 1024), 1024);
    assert_eq!(last_page_len(1024, 1024), 1024);
}

#[test]
fn pages_partition_the_resource() {
    // Page ranges of 10241 bytes in 1024-byte pages: no gaps, no overlaps.
    let total: u64 = 10241;
    let ps: u64 = 1024;
    let n = get_page_count(total, ps);
    let mut covered: u64 = 0;
    for i in 0..n {
        let start = i * ps;
        let end = if (i + 1) * ps <= total { (i + 1) * ps } else { total };
        assert_eq!(start, covered);
        assert!(end > start);
        covered = end;
    }
    assert_eq!(covered, total);
    assert_eq!(total - ps * (n - 1), last_page_len(total, ps));
}
