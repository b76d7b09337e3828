use pipebuffer::parse::parse_memory;

#[test]
fn test_parse_mem_bytes() -> () {
    assert!(parse_memory("1") == Some::<usize>(1));
    assert!(parse_memory("1024") == Some::<usize>(1024));
    assert!(parse_memory("1000000000") == Some::<usize>(1000000000));
    assert!(parse_memory("10000000000000000000000000000") == None);
}

#[test]
fn test_parse_mem_suffixed() -> () {
    assert!(parse_memory("1k") == Some::<usize>(1024));
    assert!(parse_memory("99k") == Some::<usize>(99 * 1024));
    assert!(parse_memory("99kb") == Some::<usize>(99 * 1024));
    assert!(parse_memory("99K") == Some::<usize>(99 * 1024));
    assert!(parse_memory("99KB") == Some::<usize>(99 * 1024));

    assert!(parse_memory("1m") == Some::<usize>(1024 * 1024));
    assert!(parse_memory("10m") == Some::<usize>(10 * 1024 * 1024));
    assert!(parse_memory("101m") == Some::<usize>(101 * 1024 * 1024));
    assert!(parse_memory("1024m") == Some::<usize>(1024 * 1024 * 1024));

    assert!(parse_memory("6g") == Some::<usize>(6 * 1024 * 1024 * 1024));
    assert!(parse_memory("60g") == Some::<usize>(60 * 1024 * 1024 * 1024));

    assert!(parse_memory("1p") == Some::<usize>(1024 * 1024 * 1024 * 1024));
}

#[test]
fn test_parse_mem_fails() -> () {
    assert!(parse_memory("") == None);
    assert!(parse_memory("k") == None);
    assert!(parse_memory("kb") == None);
    assert!(parse_memory("foo") == None);
    assert!(parse_memory("not1024m") == None);
    assert!(parse_memory("-12g") == None);
    assert!(parse_memory("12x") == None);
    assert!(parse_memory("7y") == None);
    assert!(parse_memory("1024x1024") == None);
    assert!(parse_memory("1024mi") == None);
}

#[test]
fn test_parse_mem_exact_values() {
    assert_eq!(parse_memory("1"), Some(1));
    assert_eq!(parse_memory("99kb"), Some(101376));
    assert_eq!(parse_memory("1m"), Some(1048576));
    assert_eq!(parse_memory("6g"), Some(6442450944));
}

#[test]
fn test_parse_mem_bare_b_and_case() {
    assert_eq!(parse_memory("10b"), Some(10));
    assert_eq!(parse_memory("10B"), Some(10));
    assert_eq!(parse_memory("1Gb"), Some(1024 * 1024 * 1024));
    assert_eq!(parse_memory("1gB"), Some(1024 * 1024 * 1024));
    assert_eq!(parse_memory("0"), Some(0));
    assert_eq!(parse_memory("007"), Some(7));
}

#[test]
fn test_parse_mem_overflow_scaled() {
    // The digits alone fit in 64 bits, but scaling by the unit overflows.
    assert_eq!(parse_memory("18446744073709551615"), Some(usize::MAX));
    assert_eq!(parse_memory("18446744073709551616"), None);
    assert_eq!(parse_memory("18014398509481984p"), None);
    assert_eq!(parse_memory("99999999999g"), None);
}

#[test]
fn test_parse_mem_bytes_slice() {
    assert_eq!(pipebuffer::parse::parse_memory_bytes(b"512kb"), Some(512 * 1024));
    assert_eq!(pipebuffer::parse::parse_memory_bytes(b"b"), None);
    assert_eq!(pipebuffer::parse::parse_memory_bytes(b"5 k"), None);
}
