use pagemap_inspect::memory::{
    fetch_pagemaps, record_offset, MemoryMap, PageMap, ResolveError, KNOWN_MASK, PAGE_SIZE,
    RECORD_SIZE,
};
use std::mem;

fn region(low_addr: u64, high_addr: u64, path: Option<&str>) -> MemoryMap {
    MemoryMap { low_addr, high_addr, path: path.map(|p| p.to_string()) }
}

#[test]
fn test_pagemap_size() {
    assert_eq!(mem::size_of::<PageMap>(), mem::size_of::<u64>());
}

#[test]
fn test_pagemap_members() {
    assert_eq!(PageMap::from_bits_truncate(PageMap::SWAPPED).bits(), 0x4000000000000000);
    assert_eq!(PageMap::from_bits_truncate(PageMap::PRESENT).bits(), 0x8000000000000000);
    assert_eq!(PageMap::from_bits_truncate(PageMap::PFN).bits(), 0x7fffffffffffff);
}

#[test]
fn record_is_as_wide_as_its_bytes() {
    assert_eq!(RECORD_SIZE as usize, mem::size_of::<PageMap>());
    assert_eq!(PAGE_SIZE, 4096);
}

#[test]
fn swapped_bit_alone() {
    let record = PageMap::from_bits_truncate(1u64 << 62);
    assert!(record.is_swapped());
    assert!(!record.is_present());
    assert_eq!(record.pfn(), 0);
}

#[test]
fn present_bit_alone() {
    let record = PageMap::from_bits_truncate(1u64 << 63);
    assert!(!record.is_swapped());
    assert!(record.is_present());
    assert_eq!(record.pfn(), 0);
}

#[test]
fn both_flags_are_read_independently() {
    let record = PageMap::from_bits_truncate((1u64 << 63) | (1u64 << 62) | 0x1234);
    assert!(record.is_swapped());
    assert!(record.is_present());
    assert_eq!(record.pfn(), 0x1234);
}

#[test]
fn payload_survives_any_flags() {
    let payload: u64 = 0x7f_ffff_ffff_ffff;
    for flags in [0u64, 1 << 62, 1 << 63, (1 << 62) | (1 << 63)] {
        let record = PageMap::from_bits_truncate(payload | flags);
        assert_eq!(record.pfn(), payload);
        assert_eq!(record.is_swapped(), flags & (1 << 62) != 0);
        assert_eq!(record.is_present(), flags & (1 << 63) != 0);
    }
}

#[test]
fn other_bits_are_dropped() {
    let record = PageMap::from_bits_truncate(u64::MAX);
    assert_eq!(record.bits(), 0xc07f_ffff_ffff_ffff);
    assert_eq!(record.bits(), KNOWN_MASK);
    assert_eq!(record.pfn(), 0x7f_ffff_ffff_ffff);
    let soft_dirty = PageMap::from_bits_truncate((1u64 << 55) | (1u64 << 61) | 7);
    assert_eq!(soft_dirty.bits(), 7);
    assert!(!soft_dirty.is_swapped());
    assert!(!soft_dirty.is_present());
}

#[test]
fn offset_of_a_later_page() {
    assert_eq!(record_offset(0x401000), 0x2008);
    assert_eq!(record_offset(0), 0);
    assert_eq!(record_offset(0x1000), 8);
    assert_eq!(record_offset(0x1fff), 8);
    assert_eq!(record_offset(u64::MAX), 0xf_ffff_ffff_ffff * 8);
}

#[test]
fn anonymous_region_has_no_path() {
    assert!(region(0, 0x1000, None).is_anon());
    assert!(!region(0, 0x1000, Some("/lib/x")).is_anon());
}

#[test]
fn page_count_of_a_region() {
    assert_eq!(region(0x1000, 0x1000, None).num_pages(), 0);
    assert_eq!(region(0x2000, 0x1000, None).num_pages(), 0);
    assert_eq!(region(0x1000, 0x2000, None).num_pages(), 1);
    assert_eq!(region(0x400000, 0x400000 + 5 * 0x1000, None).num_pages(), 5);
    assert_eq!(region(0x1000, 0x2001, None).num_pages(), 2);
    assert_eq!(region(0, u64::MAX, None).num_pages(), 1 << 52);
}

#[test]
fn resolves_each_page_in_order() {
    let map = region(0x400000, 0x403000, Some("/bin/cat"));
    let records = vec![(1u64 << 63) | 0x10, 1u64 << 62, 0];
    let pages = fetch_pagemaps(&map, &records).unwrap();
    assert_eq!(pages.len(), 3);
    assert_eq!(pages[0].0, 0x400000);
    assert_eq!(pages[1].0, 0x401000);
    assert_eq!(pages[2].0, 0x402000);
    assert_eq!(pages[0].1, PageMap::from_bits_truncate((1u64 << 63) | 0x10));
    assert!(pages[0].1.is_present());
    assert_eq!(pages[0].1.pfn(), 0x10);
    assert!(pages[1].1.is_swapped());
    assert_eq!(pages[2].1.bits(), 0);
}

#[test]
fn empty_region_resolves_to_nothing() {
    let map = region(0x7000, 0x7000, None);
    let pages = fetch_pagemaps(&map, &Vec::new()).unwrap();
    assert!(pages.is_empty());
}

#[test]
fn records_beyond_the_region_are_ignored() {
    let map = region(0x7000, 0x8000, None);
    let pages = fetch_pagemaps(&map, &vec![5, 6, 7]).unwrap();
    assert_eq!(pages.len(), 1);
    assert_eq!(pages[0].0, 0x7000);
    assert_eq!(pages[0].1.pfn(), 5);
}

#[test]
fn too_few_records_are_a_short_read() {
    let map = region(0x7000, 0x9000, None);
    assert_eq!(fetch_pagemaps(&map, &vec![5]), Err(ResolveError::ShortRead));
    assert_eq!(fetch_pagemaps(&map, &Vec::new()), Err(ResolveError::ShortRead));
}

#[test]
fn resolving_masks_unknown_bits() {
    let map = region(0, 0x1000, None);
    let pages = fetch_pagemaps(&map, &vec![u64::MAX]).unwrap();
    assert_eq!(pages[0].1.bits(), 0xc07f_ffff_ffff_ffff);
}

#[test]
fn bytes_are_read_in_native_order() {
    let raw: u64 = (1u64 << 63) | 0x0102_0304_0506;
    let record = PageMap::from_ne_bytes(raw.to_ne_bytes());
    assert_eq!(record.bits(), raw);
    assert!(record.is_present());
    assert_eq!(record.pfn(), 0x0102_0304_0506);
    let little = [0x06, 0x05, 0x04, 0x03, 0x02, 0x01, 0x00, 0x80];
    let big = [0x80, 0x00, 0x01, 0x02, 0x03, 0x04, 0x05, 0x06];
    let decoded: u64 = PageMap::from_ne_bytes(little).bits();
    assert!(decoded == raw || PageMap::from_ne_bytes(big).bits() == raw);
    assert_eq!(decoded, PageMap::from_bits_truncate(u64::from_ne_bytes(little)).bits());
    assert_eq!(PageMap::from_ne_bytes([0xff; 8]).bits(), 0xc07f_ffff_ffff_ffff);
}

#[test]
fn empty_path_is_anonymous() {
    let map = region(0, 0x1000, Some(""));
    assert!(map.is_anon());
    assert_eq!(map.key(), "anon");
    assert_eq!(region(0, 0x1000, None).key(), "anon");
    assert_eq!(region(0, 0x1000, Some("/lib/x")).key(), "/lib/x");
    assert!(!region(0, 0x1000, Some(" ")).is_anon());
}

#[test]
fn address_of_each_page() {
    let map = region(0x400000, 0x403000, None);
    assert_eq!(map.page_address(0), 0x400000);
    assert_eq!(map.page_address(1), 0x401000);
    assert_eq!(map.page_address(2), 0x402000);
    let odd = region(0x1234, 0x2235, None);
    assert_eq!(odd.num_pages(), 2);
    assert_eq!(odd.page_address(1), 0x2234);
    let top = region(u64::MAX - 0x1000, u64::MAX, None);
    assert_eq!(top.page_address(0), u64::MAX - 0x1000);
}
