use nmrs::format::format_bytes;

#[test]
fn test_format_bytes() {
    assert_eq!(format_bytes(0), "0B");
    assert_eq!(format_bytes(512), "512B");
    assert_eq!(format_bytes(1024), "1K");
    assert_eq!(format_bytes(1536), "2K");
    assert_eq!(format_bytes(1048576), "1M");
    assert_eq!(format_bytes(1073741824), "1G");
    assert_eq!(format_bytes(1099511627776), "1T");
}

#[test]
fn format_rounds_to_nearest_unit() {
    assert_eq!(format_bytes(1023), "1023B");
    assert_eq!(format_bytes(1535), "1K");
    assert_eq!(format_bytes(1048575), "1024K");
    assert_eq!(format_bytes(5 * 1024 * 1024 + 600 * 1024), "6M");
}

#[test]
fn format_beyond_largest_unit() {
    assert_eq!(format_bytes(1125899906842624), "1024T");
    assert_eq!(format_bytes(u64::MAX), "16777215T");
}
