use pagemap_inspect::memory::{MemoryMap, PageMap, ResolveError};
use pagemap_inspect::query::{list_pages, ListFilters, ListedPage};
use pagemap_inspect::stats::{
    fits_counters, keys_fit_counters, page_stats, PageStats, StatsMap,
};

const PRESENT: u64 = 1 << 63;
const SWAPPED: u64 = 1 << 62;

fn region(low_addr: u64, pages: u64, path: Option<&str>) -> MemoryMap {
    MemoryMap { low_addr, high_addr: low_addr + pages * 0x1000, path: path.map(|p| p.to_string()) }
}

fn snapshot(heap: Vec<u64>) -> PageStats {
    let regions = vec![
        region(0x400000, 2, Some("/bin/self")),
        region(0x600000, heap.len() as u64, None),
    ];
    let records = vec![vec![PRESENT | 0x11, PRESENT | 0x12], heap];
    page_stats(&regions, &records).unwrap().get("anon").unwrap().clone()
}

#[test]
fn test_stats() {
    let before = snapshot(vec![PRESENT | 0x20]);
    let after_alloc = snapshot(vec![0; 196]);
    let mut touched = vec![PRESENT | 0x21; 190];
    touched.extend(vec![0u64; 6]);
    let after_touch = snapshot(touched);

    assert_eq!(after_alloc.unmapped, after_alloc.total);
    assert!(after_alloc.total > before.total);
    assert!(after_touch.present > before.present);
}

#[test]
fn default_counters_are_zero() {
    assert_eq!(PageStats::default(), PageStats { swapped: 0, present: 0, unmapped: 0, total: 0 });
}

#[test]
fn counts_per_key() {
    let regions = vec![
        region(0x1000, 3, None),
        region(0x10000, 4, Some("/lib/x")),
        region(0x20000, 2, None),
    ];
    let records = vec![
        vec![PRESENT | 1, SWAPPED | 2, 0],
        vec![PRESENT | 9, PRESENT | SWAPPED | 10, PRESENT, SWAPPED | 3],
        vec![PRESENT | SWAPPED, 1 << 55],
    ];
    let stats = page_stats(&regions, &records).unwrap();
    assert_eq!(stats.len(), 2);
    assert_eq!(
        stats.get("anon"),
        Some(PageStats { swapped: 2, present: 2, unmapped: 3, total: 5 })
    );
    assert_eq!(
        stats.get("/lib/x"),
        Some(PageStats { swapped: 2, present: 3, unmapped: 1, total: 4 })
    );
    assert_eq!(stats.get("/lib/y"), None);
    let entries = stats.entries();
    assert_eq!(entries.len(), 2);
    assert_eq!(entries[0].0, "anon");
    assert_eq!(entries[1].0, "/lib/x");
    assert_eq!(entries[1].1.total, 4);
}

#[test]
fn other_keys_are_untouched() {
    let mut stats = StatsMap::new();
    stats.record("/lib/x", PageMap::from_bits_truncate(PRESENT | 4));
    let before = stats.get("/lib/x");
    stats.record("anon", PageMap::from_bits_truncate(SWAPPED));
    stats.record("anon", PageMap::from_bits_truncate(0));
    assert_eq!(stats.get("/lib/x"), before);
    assert_eq!(before, Some(PageStats { swapped: 0, present: 1, unmapped: 0, total: 1 }));
    assert_eq!(
        stats.get("anon"),
        Some(PageStats { swapped: 1, present: 0, unmapped: 2, total: 2 })
    );
}

#[test]
fn region_without_pages_has_no_entry() {
    let regions = vec![region(0x1000, 0, Some("/empty")), region(0x2000, 1, None)];
    let stats = page_stats(&regions, &vec![Vec::new(), vec![0]]).unwrap();
    assert_eq!(stats.get("/empty"), None);
    assert_eq!(stats.len(), 1);
}

#[test]
fn no_regions_no_entries() {
    let stats = page_stats(&Vec::new(), &Vec::new()).unwrap();
    assert_eq!(stats.len(), 0);
    assert_eq!(stats.get("anon"), None);
    assert!(StatsMap::new().entries().is_empty());
}

#[test]
fn missing_records_fail_the_statistics() {
    let regions = vec![region(0x1000, 1, None), region(0x5000, 2, None)];
    assert_eq!(page_stats(&regions, &vec![vec![0], vec![0]]).unwrap_err(), ResolveError::ShortRead);
    assert_eq!(page_stats(&regions, &vec![vec![0]]).unwrap_err(), ResolveError::ShortRead);
}

#[test]
fn a_path_named_anon_shares_the_anonymous_key() {
    let regions = vec![region(0x1000, 1, Some("anon")), region(0x5000, 1, None)];
    let stats = page_stats(&regions, &vec![vec![PRESENT | 1], vec![0]]).unwrap();
    assert_eq!(
        stats.get("anon"),
        Some(PageStats { swapped: 0, present: 1, unmapped: 1, total: 2 })
    );
}

fn sample() -> (Vec<MemoryMap>, Vec<Vec<u64>>) {
    (
        vec![region(0x1000, 3, None), region(0x10000, 2, Some("/lib/x")), region(0x20000, 1, None)],
        vec![
            vec![PRESENT | 1, SWAPPED | 2, PRESENT | SWAPPED | 3],
            vec![PRESENT | SWAPPED | 4, 0],
            vec![SWAPPED | 5],
        ],
    )
}

fn addresses(pages: &[ListedPage]) -> Vec<(usize, u64)> {
    pages.iter().map(|p| (p.region, p.addr)).collect()
}

#[test]
fn unfiltered_list_has_every_page() {
    let (regions, records) = sample();
    let pages = list_pages(&regions, &records, &ListFilters::default()).unwrap();
    assert_eq!(
        addresses(&pages),
        vec![(0, 0x1000), (0, 0x2000), (0, 0x3000), (1, 0x10000), (1, 0x11000), (2, 0x20000)]
    );
    assert_eq!(pages[1].page.pfn(), 2);
    assert!(pages[1].page.is_swapped());
}

#[test]
fn anon_only_drops_regions_with_a_path() {
    let (regions, records) = sample();
    let filters = ListFilters { anon_only: true, ..ListFilters::default() };
    let pages = list_pages(&regions, &records, &filters).unwrap();
    assert_eq!(addresses(&pages), vec![(0, 0x1000), (0, 0x2000), (0, 0x3000), (2, 0x20000)]);
}

#[test]
fn anon_only_does_not_read_regions_with_a_path() {
    let (regions, mut records) = sample();
    records[1].clear();
    let filters = ListFilters { anon_only: true, ..ListFilters::default() };
    assert_eq!(list_pages(&regions, &records, &filters).unwrap().len(), 4);
    assert_eq!(
        list_pages(&regions, &records, &ListFilters::default()).unwrap_err(),
        ResolveError::ShortRead
    );
}

#[test]
fn swapped_and_present_filters_are_conjoined() {
    let (regions, records) = sample();
    let swapped = ListFilters { swapped_only: true, ..ListFilters::default() };
    let present = ListFilters { present_only: true, ..ListFilters::default() };
    let both = ListFilters { swapped_only: true, present_only: true, anon_only: false };
    let all = ListFilters { swapped_only: true, present_only: true, anon_only: true };
    assert_eq!(
        addresses(&list_pages(&regions, &records, &swapped).unwrap()),
        vec![(0, 0x2000), (0, 0x3000), (1, 0x10000), (2, 0x20000)]
    );
    assert_eq!(
        addresses(&list_pages(&regions, &records, &present).unwrap()),
        vec![(0, 0x1000), (0, 0x3000), (1, 0x10000)]
    );
    assert_eq!(
        addresses(&list_pages(&regions, &records, &both).unwrap()),
        vec![(0, 0x3000), (1, 0x10000)]
    );
    assert_eq!(addresses(&list_pages(&regions, &records, &all).unwrap()), vec![(0, 0x3000)]);
}

#[test]
fn filters_judge_single_pages() {
    let anon = region(0x1000, 1, None);
    let file = region(0x1000, 1, Some("/lib/x"));
    let both = ListFilters { swapped_only: true, present_only: true, anon_only: true };
    assert!(both.keeps_page(&anon, PageMap::from_bits_truncate(PRESENT | SWAPPED)));
    assert!(!both.keeps_page(&anon, PageMap::from_bits_truncate(PRESENT)));
    assert!(!both.keeps_page(&anon, PageMap::from_bits_truncate(SWAPPED)));
    assert!(!both.keeps_page(&file, PageMap::from_bits_truncate(PRESENT | SWAPPED)));
    assert!(both.reads_region(&anon));
    assert!(!both.reads_region(&file));
    assert!(ListFilters::default().keeps_page(&file, PageMap::from_bits_truncate(0)));
}

#[test]
fn sorted_entries_ascend_by_swapped_count() {
    let mut stats = StatsMap::new();
    for _ in 0..3 {
        stats.record("/lib/many", PageMap::from_bits_truncate(SWAPPED | 1));
    }
    stats.record("anon", PageMap::from_bits_truncate(PRESENT | 2));
    stats.record("/lib/one", PageMap::from_bits_truncate(SWAPPED | 3));
    stats.record("/lib/one", PageMap::from_bits_truncate(PRESENT | 4));
    let first_seen: Vec<String> = stats.entries().into_iter().map(|row| row.0).collect();
    assert_eq!(first_seen, vec!["/lib/many", "anon", "/lib/one"]);
    let sorted = stats.sorted_entries();
    let keys: Vec<&str> = sorted.iter().map(|row| row.0.as_str()).collect();
    assert_eq!(keys, vec!["anon", "/lib/one", "/lib/many"]);
    assert_eq!(sorted[0].1, PageStats { swapped: 0, present: 1, unmapped: 0, total: 1 });
    assert_eq!(sorted[1].1, PageStats { swapped: 1, present: 1, unmapped: 0, total: 2 });
    assert_eq!(sorted[2].1, PageStats { swapped: 3, present: 0, unmapped: 0, total: 3 });
}

#[test]
fn counters_fit_up_to_their_width() {
    assert!(fits_counters(&Vec::new()));
    assert!(fits_counters(&vec![region(0x1000, 7, None), region(0x10000, 9, Some("/lib/x"))]));
    let most = region(0, 0xffff_fffe, None);
    assert!(fits_counters(&vec![most, region(0x1000, 1, Some("/lib/x"))]));
    let most = region(0, 0xffff_fffe, None);
    assert!(!fits_counters(&vec![most, region(0x1000, 2, Some("/lib/x"))]));
    assert!(!fits_counters(&vec![region(0, 0x1_0000_0000, None)]));
    let huge = MemoryMap { low_addr: 0, high_addr: u64::MAX, path: None };
    let again = MemoryMap { low_addr: 0, high_addr: u64::MAX, path: None };
    assert!(!fits_counters(&vec![huge, again]));
}

#[test]
fn equal_swapped_counts_keep_their_order() {
    let mut stats = StatsMap::new();
    for key in ["d", "b", "c", "a"] {
        stats.record(key, PageMap::from_bits_truncate(SWAPPED | 1));
    }
    stats.record("z", PageMap::from_bits_truncate(PRESENT | 1));
    stats.record("b", PageMap::from_bits_truncate(PRESENT | 1));
    let keys: Vec<String> = stats.sorted_entries().into_iter().map(|row| row.0).collect();
    assert_eq!(keys, vec!["z", "d", "b", "c", "a"]);
}

#[test]
fn empty_path_counts_as_anon() {
    let regions = vec![region(0x1000, 2, Some("")), region(0x5000, 1, None)];
    let stats = page_stats(&regions, &vec![vec![PRESENT | 1, 0], vec![SWAPPED | 2]]).unwrap();
    assert_eq!(stats.len(), 1);
    assert_eq!(stats.get(""), None);
    assert_eq!(
        stats.get("anon"),
        Some(PageStats { swapped: 1, present: 1, unmapped: 1, total: 3 })
    );
}

#[test]
fn anon_only_keeps_regions_with_an_empty_path() {
    let regions = vec![region(0x1000, 1, Some("")), region(0x5000, 1, Some("/lib/x"))];
    let records = vec![vec![PRESENT | 1], vec![PRESENT | 2]];
    let filters = ListFilters { anon_only: true, ..ListFilters::default() };
    assert!(filters.reads_region(&regions[0]));
    assert!(!filters.reads_region(&regions[1]));
    let pages = list_pages(&regions, &records, &filters).unwrap();
    assert_eq!(addresses(&pages), vec![(0, 0x1000)]);
}

#[test]
fn each_key_is_held_to_the_counter_width() {
    assert!(keys_fit_counters(&Vec::new()));
    let split = vec![region(0, 0xffff_ffff, None), region(0, 0xffff_ffff, Some("/lib/x"))];
    assert!(keys_fit_counters(&split));
    assert!(!fits_counters(&split));
    let anon_twice = vec![
        region(0, 0xffff_ffff, None),
        region(0, 5, Some("/lib/x")),
        region(0, 1, Some("")),
    ];
    assert!(!keys_fit_counters(&anon_twice));
    let later_key = vec![
        region(0, 1, None),
        region(0, 0x8000_0000, Some("/lib/x")),
        region(0, 0x8000_0000, Some("/lib/x")),
    ];
    assert!(!keys_fit_counters(&later_key));
    let just = vec![
        region(0, 0x8000_0000, Some("/lib/x")),
        region(0, 0x7fff_ffff, Some("/lib/x")),
        region(0, 0, Some("/lib/x")),
    ];
    assert!(keys_fit_counters(&just));
}

#[test]
fn untouched_then_touched_pages() {
    let before = snapshot(vec![PRESENT | 0x20, 0]);
    let mapped = snapshot(vec![PRESENT | 0x20, 0, 0, 0, 0]);
    assert_eq!(mapped.unmapped, before.unmapped + 3);
    assert_eq!(mapped.total, before.total + 3);
    assert_eq!(mapped.present, before.present);
    assert_eq!(mapped.swapped, before.swapped);
    let touched = snapshot(vec![PRESENT | 0x20, 0, PRESENT | 0x30, PRESENT, 0]);
    assert_eq!(touched.present, mapped.present + 2);
    assert_eq!(touched.total, mapped.total);
    assert_eq!(touched.swapped, mapped.swapped);
    assert_eq!(touched.unmapped, mapped.unmapped - 1);
}
