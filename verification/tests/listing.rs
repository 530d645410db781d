use pagemap_inspect::listing::parse_line;
use pagemap_inspect::memory::{memory_maps, ListingError};

#[test]
fn line_with_a_path() {
    let map = parse_line("00400000-0040c000 r-xp 00000000 08:01 1234   /usr/bin/cat").unwrap();
    assert_eq!(map.low_addr, 0x400000);
    assert_eq!(map.high_addr, 0x40c000);
    assert_eq!(map.path.as_deref(), Some("/usr/bin/cat"));
    assert!(!map.is_anon());
}

#[test]
fn line_without_a_path() {
    let map = parse_line("7f3c00000000-7f3c00021000 rw-p 00000000 00:00 0 ").unwrap();
    assert_eq!(map.low_addr, 0x7f3c00000000);
    assert_eq!(map.high_addr, 0x7f3c00021000);
    assert_eq!(map.path, None);
    assert!(map.is_anon());
}

#[test]
fn bracketed_names_are_paths() {
    let map = parse_line("7ffd1000-7ffd3000 rw-p 00000000 00:00 0 [stack]").unwrap();
    assert_eq!(map.path.as_deref(), Some("[stack]"));
}

#[test]
fn only_the_sixth_field_is_the_path() {
    let map = parse_line("1000-2000 r--p 0 0:0 7 /tmp/a b (deleted)").unwrap();
    assert_eq!(map.path.as_deref(), Some("/tmp/a"));
}

#[test]
fn range_alone_is_a_region() {
    let map = parse_line("  \tABCDEF-abcdef0\r").unwrap();
    assert_eq!(map.low_addr, 0xabcdef);
    assert_eq!(map.high_addr, 0xabcdef0);
    assert_eq!(map.path, None);
}

#[test]
fn largest_address_fits() {
    let map = parse_line("0-ffffffffffffffff").unwrap();
    assert_eq!(map.low_addr, 0);
    assert_eq!(map.high_addr, u64::MAX);
    let padded = parse_line("000000000000000000001-00ffffffffffffffff").unwrap();
    assert_eq!(padded.low_addr, 1);
    assert_eq!(padded.high_addr, u64::MAX);
}

#[test]
fn malformed_lines_describe_nothing() {
    assert!(parse_line("").is_none());
    assert!(parse_line("   ").is_none());
    assert!(parse_line("00400000").is_none());
    assert!(parse_line("-1000").is_none());
    assert!(parse_line("1000-").is_none());
    assert!(parse_line("1000-2000-3000").is_none());
    assert!(parse_line("1000-20g0 r-xp").is_none());
    assert!(parse_line("0x1000-0x2000").is_none());
    assert!(parse_line("+1000-2000").is_none());
    assert!(parse_line("0-10000000000000000").is_none());
    assert!(parse_line("r-xp 1000-2000").is_none());
}

#[test]
fn unicode_separators_and_paths() {
    let map = parse_line("1000-2000\u{a0}a\u{2003}b c d /données/é").unwrap();
    assert_eq!(map.low_addr, 0x1000);
    assert_eq!(map.path.as_deref(), Some("/données/é"));
}

#[test]
fn listing_keeps_the_order_of_its_lines() {
    let lines = vec![
        "00400000-00401000 r-xp 00000000 08:01 12 /bin/true".to_string(),
        "00600000-00602000 rw-p 00000000 00:00 0".to_string(),
        "7ffc0000-7ffc1000 rw-p 00000000 00:00 0 [stack]".to_string(),
    ];
    let maps = memory_maps(&lines).unwrap();
    assert_eq!(maps.len(), 3);
    assert_eq!((maps[0].low_addr, maps[0].high_addr), (0x400000, 0x401000));
    assert_eq!(maps[0].path.as_deref(), Some("/bin/true"));
    assert_eq!((maps[1].low_addr, maps[1].high_addr), (0x600000, 0x602000));
    assert_eq!(maps[1].path, None);
    assert_eq!(maps[2].path.as_deref(), Some("[stack]"));
}

#[test]
fn empty_listing_has_no_regions() {
    assert!(memory_maps(&Vec::new()).unwrap().is_empty());
}

#[test]
fn first_malformed_line_fails_the_listing() {
    let lines = vec![
        "1000-2000 r".to_string(),
        "".to_string(),
        "3000-4000 r".to_string(),
        "zz".to_string(),
    ];
    assert_eq!(memory_maps(&lines).unwrap_err(), ListingError::MalformedLine { line: 1 });
}

#[test]
fn separators_are_the_white_space_characters() {
    for c in '\0'..=char::MAX {
        let line = format!("1-2{}x", c);
        assert_eq!(parse_line(&line).is_some(), c.is_whitespace(), "{:?}", c);
    }
}

#[test]
fn digits_are_the_hexadecimal_digits() {
    for c in '\0'..=char::MAX {
        let line = format!("{}-1", c);
        match parse_line(&line) {
            Some(map) => assert_eq!(Some(map.low_addr), c.to_digit(16).map(u64::from)),
            None => assert!(!c.is_ascii_hexdigit(), "{:?}", c),
        }
    }
}

#[test]
fn digits_weigh_by_position() {
    let map = parse_line("fedcba9876543210-FEDCBA9876543211").unwrap();
    assert_eq!(map.low_addr, 0xfedc_ba98_7654_3210);
    assert_eq!(map.high_addr, 0xfedc_ba98_7654_3211);
    assert!(parse_line("10000000000000000-1").is_none());
    assert!(parse_line("1-fffffffffffffffff").is_none());
}
