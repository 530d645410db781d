//! Page counters per backing object, folded from the resolved pages of a
//! process's regions.

use crate::memory::{
    fetch_pagemaps, frame_bits, present_bit, swapped_bit, truncated, MemoryMap, PageMap,
    RegionView, ResolveError,
};
use crate::query::{lemma_filter_all, lemma_filter_append_none};
use vstd::prelude::*;

verus! {

/// Counters over the pages of one backing object. The four count
/// independently: a page adds to `total` always, and to each of the others
/// when its own condition holds.
#[derive(Clone, Copy, Debug, PartialEq, Eq, Structural)]
pub struct PageStats {
    /// Pages whose swapped flag is set.
    pub swapped: u32,
    /// Pages whose present flag is set.
    pub present: u32,
    /// Pages whose payload is zero.
    pub unmapped: u32,
    /// All pages.
    pub total: u32,
}

impl Default for PageStats {
    fn default() -> (stats: PageStats)
        ensures
            stats == zero_stats(),
    {
        PageStats { swapped: 0, present: 0, unmapped: 0, total: 0 }
    }
}

/// Counters that have seen no page.
pub open spec fn zero_stats() -> PageStats {
    PageStats { swapped: 0, present: 0, unmapped: 0, total: 0 }
}

/// The counters `before` after one more page with the record `bits`.
pub open spec fn bumped(before: PageStats, bits: u64) -> PageStats {
    PageStats {
        swapped: if swapped_bit(bits) {
            (before.swapped + 1) as u32
        } else {
            before.swapped
        },
        present: if present_bit(bits) {
            (before.present + 1) as u32
        } else {
            before.present
        },
        unmapped: if frame_bits(bits) == 0 {
            (before.unmapped + 1) as u32
        } else {
            before.unmapped
        },
        total: (before.total + 1) as u32,
    }
}

/// A resolved page as it is counted: the key of its region and the bits of
/// its record.
pub type CountedPage = (Seq<char>, u64);

/// The pages of one region as they are counted, given the raw records read
/// for it.
pub open spec fn region_pages(region: RegionView, records: Seq<u64>) -> Seq<CountedPage> {
    Seq::new(region.page_count(), |j: int| (region.key(), truncated(records[j])))
}

/// The pages of the first `n` regions as they are counted, region after
/// region and each in address order.
pub open spec fn snapshot_pages(regions: Seq<MemoryMap>, records: Seq<Vec<u64>>, n: nat) -> Seq<
    CountedPage,
>
    decreases n,
{
    if n == 0 {
        Seq::empty()
    } else {
        snapshot_pages(regions, records, (n - 1) as nat) + region_pages(
            regions[n - 1]@,
            records[n - 1]@,
        )
    }
}

/// The number of pages in the first `n` regions.
pub open spec fn total_pages(regions: Seq<MemoryMap>, n: nat) -> nat
    decreases n,
{
    if n == 0 {
        0
    } else {
        total_pages(regions, (n - 1) as nat) + regions[n - 1]@.page_count()
    }
}

/// Every region has its records: one sequence of records per region, with at
/// least as many records as the region has pages.
pub open spec fn complete(regions: Seq<MemoryMap>, records: Seq<Vec<u64>>) -> bool {
    forall|r: int|
        0 <= r < regions.len() ==> r < records.len() && records[r]@.len() >= (
        #[trigger] regions[r])@.page_count()
}

/// No key has more pages than a counter can count. The records play no part
/// in how many pages lie under a key.
pub open spec fn countable(regions: Seq<MemoryMap>, records: Seq<Vec<u64>>) -> bool {
    forall|key: Seq<char>|
        (#[trigger] tally(snapshot_pages(regions, records, regions.len()), key)).total <= u32::MAX
}

/// Exact counts of the pages under one key.
pub struct Tally {
    pub swapped: nat,
    pub present: nat,
    pub unmapped: nat,
    pub total: nat,
}

/// How many of `pages` lie under `key`: those swapped, those present, those
/// with a zero payload, and all of them.
pub open spec fn tally(pages: Seq<CountedPage>, key: Seq<char>) -> Tally {
    Tally {
        swapped: pages.filter(swapped_under(key)).len(),
        present: pages.filter(present_under(key)).len(),
        unmapped: pages.filter(unmapped_under(key)).len(),
        total: pages.filter(under(key)).len(),
    }
}

/// The page lies under `key`.
pub open spec fn under(key: Seq<char>) -> spec_fn(CountedPage) -> bool {
    |p: CountedPage| p.0 == key
}

/// The page lies under `key` and its swapped flag is set.
pub open spec fn swapped_under(key: Seq<char>) -> spec_fn(CountedPage) -> bool {
    |p: CountedPage| p.0 == key && swapped_bit(p.1)
}

/// The page lies under `key` and its present flag is set.
pub open spec fn present_under(key: Seq<char>) -> spec_fn(CountedPage) -> bool {
    |p: CountedPage| p.0 == key && present_bit(p.1)
}

/// The page lies under `key` and its payload is zero.
pub open spec fn unmapped_under(key: Seq<char>) -> spec_fn(CountedPage) -> bool {
    |p: CountedPage| p.0 == key && frame_bits(p.1) == 0
}

/// The counters hold exactly the counts of a tally.
pub open spec fn agrees(stats: PageStats, counts: Tally) -> bool {
    &&& stats.swapped == counts.swapped
    &&& stats.present == counts.present
    &&& stats.unmapped == counts.unmapped
    &&& stats.total == counts.total
}

/// The table `table` counts exactly `pages`: it has an entry for each key
/// that some page lies under, for no other, and each entry holds the counts
/// of the pages under its key.
pub open spec fn counts_pages(table: Map<Seq<char>, PageStats>, pages: Seq<CountedPage>) -> bool {
    forall|key: Seq<char>|
        {
            &&& table.contains_key(key) <==> (#[trigger] tally(pages, key)).total > 0
            &&& table.contains_key(key) ==> agrees(table[key], tally(pages, key))
        }
}

/// One more page under `key` adds to the counts of `key` what `bumped` adds,
/// and leaves the counts of every other key as they were.
pub proof fn lemma_tally_push(pages: Seq<CountedPage>, key: Seq<char>, bits: u64, other: Seq<char>)
    ensures
        ({
            let before = tally(pages, other);
            let after = tally(pages.push((key, bits)), other);
            if other == key {
                &&& after.total == before.total + 1
                &&& after.swapped == before.swapped + if swapped_bit(bits) { 1nat } else { 0 }
                &&& after.present == before.present + if present_bit(bits) { 1nat } else { 0 }
                &&& after.unmapped == before.unmapped + if frame_bits(bits) == 0 { 1nat } else { 0 }
            } else {
                after == before
            }
        }),
        tally(pages, other).swapped <= tally(pages, other).total <= pages.len(),
        tally(pages, other).present <= tally(pages, other).total,
        tally(pages, other).unmapped <= tally(pages, other).total,
{
    reveal(Seq::filter);
    let more = pages.push((key, bits));
    assert(more.drop_last() =~= pages);
    lemma_tally_bounds(pages, other);
}

/// No counter of a key exceeds its total, and no total the number of pages.
pub proof fn lemma_tally_bounds(pages: Seq<CountedPage>, key: Seq<char>)
    ensures
        tally(pages, key).swapped <= tally(pages, key).total <= pages.len(),
        tally(pages, key).present <= tally(pages, key).total,
        tally(pages, key).unmapped <= tally(pages, key).total,
    decreases pages.len(),
{
    reveal(Seq::filter);
    if pages.len() > 0 {
        lemma_tally_bounds(pages.drop_last(), key);
    }
}

/// Rows of a table as values: each key as a sequence of characters, with its
/// counters.
pub open spec fn row_views(rows: Seq<(String, PageStats)>) -> Seq<(Seq<char>, PageStats)> {
    Seq::new(rows.len(), |i: int| (rows[i].0@, rows[i].1))
}

/// The rows whose swapped count is `swapped`, in the order in which they
/// stand.
pub open spec fn rows_with(rows: Seq<(Seq<char>, PageStats)>, swapped: u32) -> Seq<
    (Seq<char>, PageStats),
> {
    rows.filter(|row: (Seq<char>, PageStats)| row.1.swapped == swapped)
}

/// `slice::sort_by_key` with the swapped count as the key: the rows are
/// rearranged, none added or lost, so that the swapped counts ascend. The
/// sort is stable: rows with the same swapped count keep their order.
#[verifier::external_body]
fn sort_by_swapped(rows: &mut Vec<(String, PageStats)>)
    ensures
        final(rows)@.len() == old(rows)@.len(),
        row_views(final(rows)@).to_multiset() == row_views(old(rows)@).to_multiset(),
        forall|swapped: u32| #[trigger]
            rows_with(row_views(final(rows)@), swapped) == rows_with(
                row_views(old(rows)@),
                swapped,
            ),
        forall|i: int, j: int|
            0 <= i <= j < final(rows)@.len() ==> final(rows)@[i].1.swapped
                <= final(rows)@[j].1.swapped,
{
    rows.sort_by_key(|row| row.1.swapped);
}

/// A table from key to counters, with one entry per key, in the order in which
/// the keys were first seen.
#[derive(Debug)]
pub struct StatsMap {
    keys: Vec<String>,
    counts: Vec<PageStats>,
}

impl View for StatsMap {
    type V = Map<Seq<char>, PageStats>;

    closed spec fn view(&self) -> Map<Seq<char>, PageStats> {
        Map::new(|key: Seq<char>| self.has(key), |key: Seq<char>| self.counts@[self.index_of(key)])
    }
}

impl StatsMap {
    spec fn has(&self, key: Seq<char>) -> bool {
        exists|i: int| 0 <= i < self.keys@.len() && (#[trigger] self.keys@[i])@ == key
    }

    spec fn index_of(&self, key: Seq<char>) -> int {
        choose|i: int| 0 <= i < self.keys@.len() && (#[trigger] self.keys@[i])@ == key
    }

    /// No key occurs twice, every key has its counters, and no counter
    /// exceeds the total beside it.
    pub closed spec fn wf(&self) -> bool {
        &&& self.keys@.len() == self.counts@.len()
        &&& forall|i: int, j: int|
            0 <= i < j < self.keys@.len() ==> (#[trigger] self.keys@[i])@ != (
            #[trigger] self.keys@[j])@
        &&& forall|i: int|
            0 <= i < self.counts@.len() ==> {
                &&& (#[trigger] self.counts@[i]).swapped <= self.counts@[i].total
                &&& self.counts@[i].present <= self.counts@[i].total
                &&& self.counts@[i].unmapped <= self.counts@[i].total
            }
    }

    proof fn lemma_entry(&self, i: int)
        requires
            self.wf(),
            0 <= i < self.keys@.len(),
        ensures
            self.has(self.keys@[i]@),
            self.index_of(self.keys@[i]@) == i,
            self@.contains_key(self.keys@[i]@),
            self@[self.keys@[i]@] == self.counts@[i],
    {
        let key = self.keys@[i]@;
        let found = self.index_of(key);
        assert(0 <= found < self.keys@.len() && self.keys@[found]@ == key);
        if found < i {
            assert(self.keys@[found]@ != self.keys@[i]@);
        } else if i < found {
            assert(self.keys@[i]@ != self.keys@[found]@);
        }
    }

    /// The empty table: no key has counters, and there are no entries.
    pub fn new() -> (table: StatsMap)
        ensures
            table.wf(),
            table@ == Map::<Seq<char>, PageStats>::empty(),
            table.entries_view() == Seq::<(Seq<char>, PageStats)>::empty(),
    {
        let table = StatsMap { keys: Vec::new(), counts: Vec::new() };
        assert(table@ =~= Map::<Seq<char>, PageStats>::empty());
        assert(table.entries_view() =~= Seq::<(Seq<char>, PageStats)>::empty());
        table
    }

    /// The number of keys in the table.
    pub fn len(&self) -> (n: usize)
        ensures
            n == self.entries_view().len(),
    {
        self.keys.len()
    }

    /// The entries in the order in which their keys were first seen: each key
    /// of the table once, with its counters.
    pub closed spec fn entries_view(&self) -> Seq<(Seq<char>, PageStats)> {
        Seq::new(self.keys@.len(), |i: int| (self.keys@[i]@, self.counts@[i]))
    }

    /// The entries are the table: every entry is a key of the table with its
    /// counters, every key of the table has an entry, and only one.
    pub proof fn lemma_entries(&self)
        requires
            self.wf(),
        ensures
            forall|i: int|
                0 <= i < self.entries_view().len() ==> {
                    &&& self@.contains_key((#[trigger] self.entries_view()[i]).0)
                    &&& self@[self.entries_view()[i].0] == self.entries_view()[i].1
                },
            forall|key: Seq<char>| #[trigger]
                self@.contains_key(key) ==> exists|i: int|
                    0 <= i < self.entries_view().len() && (#[trigger] self.entries_view()[i]).0
                        == key,
            forall|i: int, j: int|
                0 <= i < j < self.entries_view().len() ==> (#[trigger] self.entries_view()[i]).0 != (
                #[trigger] self.entries_view()[j]).0,
    {
        assert forall|i: int| 0 <= i < self.entries_view().len() implies {
            &&& self@.contains_key((#[trigger] self.entries_view()[i]).0)
            &&& self@[self.entries_view()[i].0] == self.entries_view()[i].1
        } by {
            self.lemma_entry(i);
        }
        assert forall|key: Seq<char>| #[trigger] self@.contains_key(key) implies exists|i: int|
            0 <= i < self.entries_view().len() && (#[trigger] self.entries_view()[i]).0
                == key by {
            let i = self.index_of(key);
            assert(self.entries_view()[i].0 == key);
        }
    }

    /// A copy of the entries, in the order in which their keys were first
    /// seen.
    pub fn entries(&self) -> (out: Vec<(String, PageStats)>)
        requires
            self.wf(),
        ensures
            out@.len() == self.entries_view().len(),
            forall|i: int|
                0 <= i < out@.len() ==> (#[trigger] out@[i]).0@ == self.entries_view()[i].0
                    && out@[i].1 == self.entries_view()[i].1,
    {
        let mut out: Vec<(String, PageStats)> = Vec::new();
        let mut i: usize = 0;
        while i < self.keys.len()
            invariant
                self.wf(),
                i <= self.keys@.len(),
                out@.len() == i,
                forall|k: int|
                    0 <= k < i ==> (#[trigger] out@[k]).0@ == self.entries_view()[k].0
                        && out@[k].1 == self.entries_view()[k].1,
            decreases self.keys@.len() - i,
        {
            out.push((self.keys[i].clone(), self.counts[i]));
            i += 1;
        }
        out
    }

    /// The entries in ascending order of their swapped count: the same
    /// entries as `entries` gives, each as often, with no entry before one
    /// that has a smaller swapped count, and those with the same swapped
    /// count in the order in which their keys were first seen.
    pub fn sorted_entries(&self) -> (out: Vec<(String, PageStats)>)
        requires
            self.wf(),
        ensures
            out@.len() == self.entries_view().len(),
            row_views(out@).to_multiset() == self.entries_view().to_multiset(),
            forall|swapped: u32| #[trigger]
                rows_with(row_views(out@), swapped) == rows_with(self.entries_view(), swapped),
            forall|i: int, j: int|
                0 <= i <= j < out@.len() ==> out@[i].1.swapped <= out@[j].1.swapped,
    {
        let mut out = self.entries();
        assert(row_views(out@) =~= self.entries_view());
        sort_by_swapped(&mut out);
        out
    }

    /// The position of `key` among the entries, if it has one.
    fn position(&self, key: &String) -> (found: Option<usize>)
        requires
            self.wf(),
        ensures
            match found {
                Some(i) => i < self.keys@.len() && self.keys@[i as int]@ == key@,
                None => !self.has(key@),
            },
    {
        let mut i: usize = 0;
        while i < self.keys.len()
            invariant
                i <= self.keys@.len(),
                forall|k: int| 0 <= k < i ==> (#[trigger] self.keys@[k])@ != key@,
            decreases self.keys@.len() - i,
        {
            if self.keys[i] == *key {
                return Some(i);
            }
            i += 1;
        }
        None
    }

    /// The counters of `key`, if any page was counted under it.
    pub fn get(&self, key: &str) -> (found: Option<PageStats>)
        requires
            self.wf(),
        ensures
            found == if self@.contains_key(key@) {
                Some(self@[key@])
            } else {
                None
            },
    {
        let owned: String = key.to_owned();
        match self.position(&owned) {
            Some(i) => {
                proof {
                    self.lemma_entry(i as int);
                }
                Some(self.counts[i])
            },
            None => None,
        }
    }

    /// Counts one page under `key`: its entry, made with zero counters if the
    /// key is new, is bumped by the page's record; every other entry stays.
    /// The entry's total must have room for one more.
    pub fn record(&mut self, key: &str, page: PageMap)
        requires
            old(self).wf(),
            old(self)@.contains_key(key@) ==> old(self)@[key@].total < u32::MAX,
        ensures
            final(self).wf(),
            final(self)@ == old(self)@.insert(
                key@,
                bumped(
                    if old(self)@.contains_key(key@) {
                        old(self)@[key@]
                    } else {
                        zero_stats()
                    },
                    page@,
                ),
            ),
    {
        let owned: String = key.to_owned();
        let swapped: u32 = if page.is_swapped() { 1 } else { 0 };
        let present: u32 = if page.is_present() { 1 } else { 0 };
        let unmapped: u32 = if page.pfn() == 0 { 1 } else { 0 };
        let ghost before = *self;
        match self.position(&owned) {
            Some(i) => {
                proof {
                    self.lemma_entry(i as int);
                }
                let entry: PageStats = self.counts[i];
                let next = PageStats {
                    swapped: entry.swapped + swapped,
                    present: entry.present + present,
                    unmapped: entry.unmapped + unmapped,
                    total: entry.total + 1,
                };
                self.counts.set(i, next);
                proof {
                    assert(self.wf());
                    assert forall|k: Seq<char>| self.has(k) == before.has(k) by {
                        if before.has(k) {
                            assert(self.keys@[before.index_of(k)]@ == k);
                        }
                        if self.has(k) {
                            assert(before.keys@[self.index_of(k)]@ == k);
                        }
                    }
                    assert forall|k: Seq<char>| self.has(k) implies self.index_of(k)
                        == before.index_of(k) by {
                        let a = self.index_of(k);
                        self.lemma_entry(a);
                        before.lemma_entry(a);
                    }
                    assert(self@ =~= before@.insert(key@, next));
                }
            },
            None => {
                let next = PageStats { swapped, present, unmapped, total: 1 };
                self.keys.push(owned);
                self.counts.push(next);
                proof {
                    let last = before.keys@.len() as int;
                    assert(self.wf());
                    self.lemma_entry(last);
                    assert forall|k: Seq<char>| self.has(k) == (before.has(k) || k == key@) by {
                        if before.has(k) {
                            assert(self.keys@[before.index_of(k)]@ == k);
                        }
                        if self.has(k) && k != key@ {
                            assert(before.keys@[self.index_of(k)]@ == k);
                        }
                    }
                    assert forall|k: Seq<char>| before.has(k) implies self.index_of(k)
                        == before.index_of(k) by {
                        let a = before.index_of(k);
                        before.lemma_entry(a);
                        self.lemma_entry(a);
                    }
                    assert(self@ =~= before@.insert(key@, next));
                }
            },
        }
    }
}

/// The pages of the first `n` regions number `total_pages`.
pub proof fn lemma_snapshot_len(regions: Seq<MemoryMap>, records: Seq<Vec<u64>>, n: nat)
    ensures
        snapshot_pages(regions, records, n).len() == total_pages(regions, n),
    decreases n,
{
    if n > 0 {
        lemma_snapshot_len(regions, records, (n - 1) as nat);
    }
}

/// The pages of the first `m` regions come first among those of the first
/// `n`.
proof fn lemma_snapshot_prefix(regions: Seq<MemoryMap>, records: Seq<Vec<u64>>, m: nat, n: nat)
    requires
        m <= n,
    ensures
        snapshot_pages(regions, records, m).is_prefix_of(snapshot_pages(regions, records, n)),
    decreases n,
{
    if m < n {
        lemma_snapshot_prefix(regions, records, m, (n - 1) as nat);
    }
}

/// A key has no fewer pages in a sequence than in a part that it starts with.
proof fn lemma_tally_prefix(part: Seq<CountedPage>, pages: Seq<CountedPage>, key: Seq<char>)
    requires
        part.is_prefix_of(pages),
    ensures
        tally(part, key).total <= tally(pages, key).total,
    decreases pages.len(),
{
    reveal(Seq::filter);
    if part.len() == pages.len() {
        assert(part =~= pages);
    } else {
        assert(part.is_prefix_of(pages.drop_last()));
        lemma_tally_prefix(part, pages.drop_last(), key);
    }
}

/// Where all regions together hold no more pages than a counter can count,
/// no key does.
pub proof fn lemma_few_pages_fit(regions: Seq<MemoryMap>, records: Seq<Vec<u64>>)
    requires
        total_pages(regions, regions.len()) <= u32::MAX,
    ensures
        countable(regions, records),
{
    lemma_snapshot_len(regions, records, regions.len());
    assert forall|key: Seq<char>|
        (#[trigger] tally(snapshot_pages(regions, records, regions.len()), key)).total
            <= u32::MAX by {
        lemma_tally_bounds(snapshot_pages(regions, records, regions.len()), key);
    }
}

/// More regions hold no fewer pages.
proof fn lemma_total_pages_grows(regions: Seq<MemoryMap>, m: nat, n: nat)
    requires
        m <= n,
    ensures
        total_pages(regions, m) <= total_pages(regions, n),
    decreases n,
{
    if m < n {
        lemma_total_pages_grows(regions, m, (n - 1) as nat);
    }
}

/// Whether all regions together hold no more pages than a 32-bit counter can
/// count. Where that is so, the pages of each single key can be counted too,
/// whatever the records are.
pub fn fits_counters(regions: &Vec<MemoryMap>) -> (fits: bool)
    ensures
        fits == (total_pages(regions@, regions@.len()) <= u32::MAX),
        fits ==> forall|records: Seq<Vec<u64>>| #[trigger] countable(regions@, records),
{
    let mut sum: u64 = 0;
    let mut r: usize = 0;
    while r < regions.len()
        invariant
            r <= regions@.len(),
            sum == total_pages(regions@, r as nat),
            sum <= u32::MAX,
        decreases regions@.len() - r,
    {
        let count: u64 = regions[r].num_pages();
        if count > 0xffff_ffff - sum {
            proof {
                lemma_total_pages_grows(regions@, (r + 1) as nat, regions@.len());
            }
            return false;
        }
        sum = sum + count;
        r += 1;
    }
    proof {
        assert forall|records: Seq<Vec<u64>>| #[trigger] countable(regions@, records) by {
            lemma_few_pages_fit(regions@, records);
        }
    }
    true
}

/// The number of pages under `key` in the first `n` regions.
pub open spec fn key_pages(regions: Seq<MemoryMap>, n: nat, key: Seq<char>) -> nat
    decreases n,
{
    if n == 0 {
        0
    } else {
        key_pages(regions, (n - 1) as nat, key) + if regions[n - 1]@.key() == key {
            regions[n - 1]@.page_count()
        } else {
            0
        }
    }
}

/// The counts of two runs of pages, one after the other, are the sums of
/// their counts.
pub proof fn lemma_tally_concat(first: Seq<CountedPage>, second: Seq<CountedPage>, key: Seq<char>)
    ensures
        tally(first + second, key).swapped == tally(first, key).swapped + tally(second, key).swapped,
        tally(first + second, key).present == tally(first, key).present + tally(second, key).present,
        tally(first + second, key).unmapped == tally(first, key).unmapped + tally(
            second,
            key,
        ).unmapped,
        tally(first + second, key).total == tally(first, key).total + tally(second, key).total,
{
    Seq::filter_distributes_over_add(first, second, swapped_under(key));
    Seq::filter_distributes_over_add(first, second, present_under(key));
    Seq::filter_distributes_over_add(first, second, unmapped_under(key));
    Seq::filter_distributes_over_add(first, second, under(key));
}

/// A run of pages none of which lies under `key` adds nothing to the counts of
/// `key`.
proof fn lemma_tally_of_others(pages: Seq<CountedPage>, key: Seq<char>)
    requires
        forall|i: int| 0 <= i < pages.len() ==> (#[trigger] pages[i]).0 != key,
    ensures
        tally(pages, key) == (Tally { swapped: 0, present: 0, unmapped: 0, total: 0 }),
{
    reveal(Seq::filter);
    let none = Seq::<CountedPage>::empty();
    assert(none + pages =~= pages);
    lemma_filter_append_none(none, pages, swapped_under(key));
    lemma_filter_append_none(none, pages, present_under(key));
    lemma_filter_append_none(none, pages, unmapped_under(key));
    lemma_filter_append_none(none, pages, under(key));
}

/// Pages of one key never change the counts of another: with a run of pages
/// under `key` put anywhere among the others, every other key keeps its four
/// counts.
pub proof fn lemma_other_keys_keep_counts(
    before: Seq<CountedPage>,
    extra: Seq<CountedPage>,
    after: Seq<CountedPage>,
    key: Seq<char>,
    other: Seq<char>,
)
    requires
        forall|i: int| 0 <= i < extra.len() ==> (#[trigger] extra[i]).0 == key,
        other != key,
    ensures
        tally(before + extra + after, other) == tally(before + after, other),
{
    lemma_tally_of_others(extra, other);
    lemma_tally_concat(before, extra, other);
    lemma_tally_concat(before + extra, after, other);
    lemma_tally_concat(before, after, other);
}

/// The pages of the first `n` regions depend on those regions and their
/// records alone.
proof fn lemma_snapshot_agrees(
    regions: Seq<MemoryMap>,
    records: Seq<Vec<u64>>,
    others: Seq<MemoryMap>,
    other_records: Seq<Vec<u64>>,
    n: nat,
)
    requires
        forall|i: int| 0 <= i < n ==> regions[i] == others[i] && records[i] == other_records[i],
    ensures
        snapshot_pages(regions, records, n) == snapshot_pages(others, other_records, n),
    decreases n,
{
    if n > 0 {
        lemma_snapshot_agrees(regions, records, others, other_records, (n - 1) as nat);
    }
}

/// The pages of two region lists, one after the other, are the pages of the
/// first list followed by those of the second.
pub proof fn lemma_snapshot_concat(
    first: Seq<MemoryMap>,
    first_records: Seq<Vec<u64>>,
    second: Seq<MemoryMap>,
    second_records: Seq<Vec<u64>>,
    n: nat,
)
    requires
        first.len() == first_records.len(),
        n <= second.len(),
        n <= second_records.len(),
    ensures
        snapshot_pages(first + second, first_records + second_records, first.len() + n)
            == snapshot_pages(first, first_records, first.len()) + snapshot_pages(
            second,
            second_records,
            n,
        ),
    decreases n,
{
    let whole = first + second;
    let whole_records = first_records + second_records;
    if n == 0 {
        lemma_snapshot_agrees(whole, whole_records, first, first_records, first.len());
    } else {
        lemma_snapshot_concat(first, first_records, second, second_records, (n - 1) as nat);
        assert(whole[first.len() + n - 1] == second[n - 1]);
        assert(whole_records[first.len() + n - 1] == second_records[n - 1]);
        assert(snapshot_pages(first, first_records, first.len()) + (snapshot_pages(
            second,
            second_records,
            (n - 1) as nat,
        ) + region_pages(second[n - 1]@, second_records[n - 1]@)) =~= snapshot_pages(
            first,
            first_records,
            first.len(),
        ) + snapshot_pages(second, second_records, (n - 1) as nat) + region_pages(
            second[n - 1]@,
            second_records[n - 1]@,
        ));
    }
}

/// The pages of regions that all have one key lie under that key.
proof fn lemma_snapshot_of_one_key(
    regions: Seq<MemoryMap>,
    records: Seq<Vec<u64>>,
    n: nat,
    key: Seq<char>,
)
    requires
        n <= regions.len(),
        forall|r: int| 0 <= r < n ==> (#[trigger] regions[r])@.key() == key,
    ensures
        forall|i: int|
            0 <= i < snapshot_pages(regions, records, n).len() ==> (#[trigger] snapshot_pages(
                regions,
                records,
                n,
            )[i]).0 == key,
    decreases n,
{
    if n > 0 {
        lemma_snapshot_of_one_key(regions, records, (n - 1) as nat, key);
        let earlier = snapshot_pages(regions, records, (n - 1) as nat);
        let last = region_pages(regions[n - 1]@, records[n - 1]@);
        assert forall|i: int| 0 <= i < (earlier + last).len() implies (#[trigger] (earlier
            + last)[i]).0 == key by {
            if i < earlier.len() {
                assert((earlier + last)[i] == earlier[i]);
            } else {
                assert((earlier + last)[i] == last[i - earlier.len()]);
            }
        }
    }
}

/// Regions of one key never change the counts of another key: a process that
/// has, anywhere in its region list, more regions that all have the key
/// `key` has under every other key the counts that it has without them.
pub proof fn lemma_extra_regions_keep_other_keys(
    before: Seq<MemoryMap>,
    before_records: Seq<Vec<u64>>,
    extra: Seq<MemoryMap>,
    extra_records: Seq<Vec<u64>>,
    after: Seq<MemoryMap>,
    after_records: Seq<Vec<u64>>,
    key: Seq<char>,
    other: Seq<char>,
)
    requires
        before.len() == before_records.len(),
        extra.len() == extra_records.len(),
        after.len() == after_records.len(),
        forall|r: int| 0 <= r < extra.len() ==> (#[trigger] extra[r])@.key() == key,
        other != key,
    ensures
        tally(
            snapshot_pages(
                before + extra + after,
                before_records + extra_records + after_records,
                (before + extra + after).len(),
            ),
            other,
        ) == tally(
            snapshot_pages(before + after, before_records + after_records, (before + after).len()),
            other,
        ),
{
    lemma_snapshot_concat(before, before_records, extra, extra_records, extra.len());
    lemma_snapshot_concat(
        before + extra,
        before_records + extra_records,
        after,
        after_records,
        after.len(),
    );
    lemma_snapshot_concat(before, before_records, after, after_records, after.len());
    lemma_snapshot_of_one_key(extra, extra_records, extra.len(), key);
    lemma_other_keys_keep_counts(
        snapshot_pages(before, before_records, before.len()),
        snapshot_pages(extra, extra_records, extra.len()),
        snapshot_pages(after, after_records, after.len()),
        key,
        other,
    );
}

/// Two tables that count the same pages but for a run of pages under `key`
/// agree on every other key: it has an entry in both or in neither, with the
/// same four counters.
pub proof fn lemma_other_entries_stay(
    smaller: Map<Seq<char>, PageStats>,
    larger: Map<Seq<char>, PageStats>,
    before: Seq<CountedPage>,
    extra: Seq<CountedPage>,
    after: Seq<CountedPage>,
    key: Seq<char>,
    other: Seq<char>,
)
    requires
        counts_pages(smaller, before + after),
        counts_pages(larger, before + extra + after),
        forall|i: int| 0 <= i < extra.len() ==> (#[trigger] extra[i]).0 == key,
        other != key,
    ensures
        larger.contains_key(other) == smaller.contains_key(other),
        larger.contains_key(other) ==> larger[other] == smaller[other],
{
    lemma_other_keys_keep_counts(before, extra, after, key, other);
    let small = tally(before + after, other);
    let large = tally(before + extra + after, other);
    assert(smaller.contains_key(other) <==> small.total > 0);
    assert(larger.contains_key(other) <==> large.total > 0);
}

/// Pages that were mapped but never touched, with records that are all zero,
/// count as unmapped: a run of them under `key`, put anywhere, raises the
/// unmapped count and the total of `key` by their number and leaves its
/// swapped and present counts as they were.
pub proof fn lemma_untouched_pages(
    before: Seq<CountedPage>,
    fresh: Seq<CountedPage>,
    after: Seq<CountedPage>,
    key: Seq<char>,
)
    requires
        forall|i: int| 0 <= i < fresh.len() ==> (#[trigger] fresh[i]) == (key, 0u64),
    ensures
        tally(before + fresh + after, key).unmapped == tally(before + after, key).unmapped
            + fresh.len(),
        tally(before + fresh + after, key).total == tally(before + after, key).total + fresh.len(),
        tally(before + fresh + after, key).present == tally(before + after, key).present,
        tally(before + fresh + after, key).swapped == tally(before + after, key).swapped,
{
    reveal(Seq::filter);
    assert(0u64 & 0x007f_ffff_ffff_ffff == 0 && 0u64 & 0x4000_0000_0000_0000 == 0 && 0u64
        & 0x8000_0000_0000_0000 == 0) by (bit_vector);
    let none = Seq::<CountedPage>::empty();
    assert(none + fresh =~= fresh);
    lemma_filter_all(fresh, under(key));
    lemma_filter_all(fresh, unmapped_under(key));
    lemma_filter_append_none(none, fresh, swapped_under(key));
    lemma_filter_append_none(none, fresh, present_under(key));
    lemma_tally_concat(before, fresh, key);
    lemma_tally_concat(before + fresh, after, key);
    lemma_tally_concat(before, after, key);
}

/// Touching a page: where the record of one untouched page, all zero, gives
/// way to `bits`, the page's key keeps its total, gains what the flags of
/// `bits` count, and loses one unmapped page unless the payload of `bits` is
/// zero too. Every other key keeps its counts.
pub proof fn lemma_touched_page(pages: Seq<CountedPage>, i: int, bits: u64, other: Seq<char>)
    requires
        0 <= i < pages.len(),
        pages[i].1 == 0,
    ensures
        ({
            let key = pages[i].0;
            let before = tally(pages, other);
            let after = tally(pages.update(i, (key, bits)), other);
            if other == key {
                &&& after.total == before.total
                &&& after.present == before.present + if present_bit(bits) { 1nat } else { 0 }
                &&& after.swapped == before.swapped + if swapped_bit(bits) { 1nat } else { 0 }
                &&& after.unmapped + (if frame_bits(bits) == 0 { 0nat } else { 1 })
                    == before.unmapped
            } else {
                after == before
            }
        }),
{
    let key = pages[i].0;
    let none = Seq::<CountedPage>::empty();
    let head = pages.take(i);
    let tail = pages.skip(i + 1);
    assert(0u64 & 0x007f_ffff_ffff_ffff == 0 && 0u64 & 0x4000_0000_0000_0000 == 0 && 0u64
        & 0x8000_0000_0000_0000 == 0) by (bit_vector);
    assert(pages =~= head + none.push((key, 0u64)) + tail);
    assert(pages.update(i, (key, bits)) =~= head + none.push((key, bits)) + tail);
    lemma_tally_push(none, key, 0u64, other);
    lemma_tally_push(none, key, bits, other);
    lemma_tally_bounds(none, other);
    lemma_tally_concat(head, none.push((key, 0u64)), other);
    lemma_tally_concat(head + none.push((key, 0u64)), tail, other);
    lemma_tally_concat(head, none.push((key, bits)), other);
    lemma_tally_concat(head + none.push((key, bits)), tail, other);
}

/// The pages of `later` are those of `earlier`, each with its key, and each
/// with its record unless it was untouched, all zero, and is now present.
pub open spec fn touched_since(earlier: Seq<CountedPage>, later: Seq<CountedPage>) -> bool {
    &&& earlier.len() == later.len()
    &&& forall|i: int|
        0 <= i < earlier.len() ==> {
            &&& (#[trigger] later[i]).0 == earlier[i].0
            &&& later[i].1 == earlier[i].1 || (earlier[i].1 == 0 && present_bit(later[i].1))
        }
}

/// How many pages under `key` have another record in `later` than in
/// `earlier`, counting only those whose new record meets `kind`.
pub open spec fn changed_pages(
    earlier: Seq<CountedPage>,
    later: Seq<CountedPage>,
    key: Seq<char>,
    kind: spec_fn(u64) -> bool,
) -> nat
    decreases earlier.len(),
{
    if earlier.len() == 0 || later.len() != earlier.len() {
        0
    } else {
        changed_pages(earlier.drop_last(), later.drop_last(), key, kind) + if earlier.last().0
            == key && later.last().1 != earlier.last().1 && kind(later.last().1) {
            1nat
        } else {
            0
        }
    }
}

/// Any record.
pub open spec fn any_record() -> spec_fn(u64) -> bool {
    |bits: u64| true
}

/// A record whose swapped flag is set.
pub open spec fn swapped_record() -> spec_fn(u64) -> bool {
    |bits: u64| swapped_bit(bits)
}

/// A record whose payload is not zero.
pub open spec fn mapped_record() -> spec_fn(u64) -> bool {
    |bits: u64| frame_bits(bits) != 0
}

/// Touching pages: where some untouched pages, with records all zero, have
/// become present and nothing else has changed, every key keeps its total,
/// has as many more present pages as pages of it were touched, as many more
/// swapped pages as were touched into a record with the swapped flag, and as
/// many fewer unmapped pages as were touched into a record with a payload.
pub proof fn lemma_touched_pages(earlier: Seq<CountedPage>, later: Seq<CountedPage>, key: Seq<char>)
    requires
        touched_since(earlier, later),
    ensures
        tally(later, key).total == tally(earlier, key).total,
        tally(later, key).present == tally(earlier, key).present + changed_pages(
            earlier,
            later,
            key,
            any_record(),
        ),
        tally(later, key).swapped == tally(earlier, key).swapped + changed_pages(
            earlier,
            later,
            key,
            swapped_record(),
        ),
        tally(later, key).unmapped + changed_pages(earlier, later, key, mapped_record()) == tally(
            earlier,
            key,
        ).unmapped,
    decreases earlier.len(),
{
    reveal(Seq::filter);
    assert(0u64 & 0x007f_ffff_ffff_ffff == 0 && 0u64 & 0x4000_0000_0000_0000 == 0 && 0u64
        & 0x8000_0000_0000_0000 == 0) by (bit_vector);
    if earlier.len() > 0 {
        let n = earlier.len() - 1;
        assert(later.last() == later[n] && earlier.last() == earlier[n]);
        assert(touched_since(earlier.drop_last(), later.drop_last())) by {
            assert forall|i: int| 0 <= i < n implies {
                &&& (#[trigger] later.drop_last()[i]).0 == earlier.drop_last()[i].0
                &&& later.drop_last()[i].1 == earlier.drop_last()[i].1 || (earlier.drop_last()[i].1
                    == 0 && present_bit(later.drop_last()[i].1))
            } by {
                assert(later.drop_last()[i] == later[i]);
            }
        }
        lemma_touched_pages(earlier.drop_last(), later.drop_last(), key);
    }
}

/// How many pages lie under a key depends on the regions alone: it is the sum
/// of the page counts of the regions with that key.
pub proof fn lemma_key_pages(regions: Seq<MemoryMap>, records: Seq<Vec<u64>>, n: nat, key: Seq<char>)
    ensures
        tally(snapshot_pages(regions, records, n), key).total == key_pages(regions, n, key),
    decreases n,
{
    reveal(Seq::filter);
    if n > 0 {
        let earlier = snapshot_pages(regions, records, (n - 1) as nat);
        let last = region_pages(regions[n - 1]@, records[n - 1]@);
        lemma_key_pages(regions, records, (n - 1) as nat, key);
        lemma_tally_concat(earlier, last, key);
        if regions[n - 1]@.key() == key {
            lemma_filter_all(last, under(key));
        } else {
            lemma_filter_append_none(Seq::<CountedPage>::empty(), last, under(key));
            assert(Seq::<CountedPage>::empty() + last =~= last);
        }
    }
}

/// More regions hold no fewer pages under a key.
proof fn lemma_key_pages_grow(regions: Seq<MemoryMap>, m: nat, n: nat, key: Seq<char>)
    requires
        m <= n,
    ensures
        key_pages(regions, m, key) <= key_pages(regions, n, key),
    decreases n,
{
    if m < n {
        lemma_key_pages_grow(regions, m, (n - 1) as nat, key);
    }
}

/// A key of no region has no pages.
proof fn lemma_key_pages_none(regions: Seq<MemoryMap>, n: nat, key: Seq<char>)
    requires
        n <= regions.len(),
        forall|q: int| 0 <= q < n ==> (#[trigger] regions[q])@.key() != key,
    ensures
        key_pages(regions, n, key) == 0,
    decreases n,
{
    if n > 0 {
        lemma_key_pages_none(regions, (n - 1) as nat, key);
    }
}

/// Whether the pages of every key can be counted in 32 bits, whatever the
/// records are.
pub fn keys_fit_counters(regions: &Vec<MemoryMap>) -> (fits: bool)
    ensures
        fits <==> forall|records: Seq<Vec<u64>>| #[trigger] countable(regions@, records),
{
    let n: usize = regions.len();
    let mut r: usize = 0;
    while r < n
        invariant
            r <= n == regions@.len(),
            forall|p: int|
                0 <= p < r ==> key_pages(regions@, n as nat, (#[trigger] regions@[p])@.key())
                    <= u32::MAX,
        decreases n - r,
    {
        let key: String = regions[r].key().to_owned();
        let mut sum: u64 = 0;
        let mut q: usize = 0;
        while q < n
            invariant
                q <= n == regions@.len(),
                r < n,
                key@ == regions@[r as int]@.key(),
                sum == key_pages(regions@, q as nat, key@),
                sum <= u32::MAX,
            decreases n - q,
        {
            let other: String = regions[q].key().to_owned();
            if other == key {
                let count: u64 = regions[q].num_pages();
                if count > 0xffff_ffff - sum {
                    proof {
                        let none = Seq::<Vec<u64>>::empty();
                        lemma_key_pages_grow(regions@, (q + 1) as nat, n as nat, key@);
                        lemma_key_pages(regions@, none, n as nat, key@);
                        assert(tally(snapshot_pages(regions@, none, regions@.len()), key@).total
                            > u32::MAX);
                        assert(!countable(regions@, none));
                    }
                    return false;
                }
                sum = sum + count;
            }
            q += 1;
        }
        r += 1;
    }
    proof {
        assert forall|records: Seq<Vec<u64>>| #[trigger] countable(regions@, records) by {
            assert forall|key: Seq<char>|
                (#[trigger] tally(snapshot_pages(regions@, records, regions@.len()), key)).total
                    <= u32::MAX by {
                lemma_key_pages(regions@, records, regions@.len(), key);
                if exists|p: int| 0 <= p < regions@.len() && (#[trigger] regions@[p])@.key() == key {
                    let p = choose|p: int|
                        0 <= p < regions@.len() && (#[trigger] regions@[p])@.key() == key;
                    assert(key_pages(regions@, n as nat, regions@[p]@.key()) <= u32::MAX);
                } else {
                    lemma_key_pages_none(regions@, regions@.len(), key);
                }
            }
        }
    }
    true
}

/// Counts the pages of a process. `regions` is the region list and
/// `records[r]` holds the raw records of the pages of region `r`, in address
/// order. Each page of each region is resolved and counted once, under the
/// region's path or under `"anon"`. A region without its records, or with
/// fewer records than pages, is a short read, and nothing is returned. The
/// counters are 32 bits wide, so no key may have more pages than that counts.
pub fn page_stats(regions: &Vec<MemoryMap>, records: &Vec<Vec<u64>>) -> (result: Result<
    StatsMap,
    ResolveError,
>)
    requires
        countable(regions@, records@),
    ensures
        result is Ok <==> complete(regions@, records@),
        result matches Ok(table) ==> table.wf() && counts_pages(
            table@,
            snapshot_pages(regions@, records@, regions@.len()),
        ),
{
    let mut table = StatsMap::new();
    let ghost mut seen: Seq<CountedPage> = Seq::empty();
    let mut r: usize = 0;
    proof {
        assert forall|key: Seq<char>| (#[trigger] tally(seen, key)).total == 0 by {
            lemma_tally_bounds(seen, key);
        }
    }
    while r < regions.len()
        invariant
            r <= regions@.len(),
            countable(regions@, records@),
            table.wf(),
            seen == snapshot_pages(regions@, records@, r as nat),
            counts_pages(table@, seen),
            forall|q: int|
                0 <= q < r ==> q < records@.len() && records@[q]@.len() >= (
                #[trigger] regions@[q])@.page_count(),
        decreases regions@.len() - r,
    {
        if r >= records.len() {
            assert(regions@[r as int]@.page_count() >= 0 && r >= records@.len());
            return Err(ResolveError::ShortRead);
        }
        let map = &regions[r];
        let pages = match fetch_pagemaps(map, &records[r]) {
            Ok(pages) => pages,
            Err(short) => {
                assert(records@[r as int]@.len() < regions@[r as int]@.page_count());
                return Err(short);
            },
        };
        let key: &str = map.key();
        let ghost whole = region_pages(map@, records@[r as int]@);
        let ghost start = seen;
        let ghost all = snapshot_pages(regions@, records@, regions@.len());
        proof {
            lemma_snapshot_prefix(regions@, records@, (r + 1) as nat, regions@.len());
            assert(start + whole.take(0) =~= start);
        }
        let mut j: usize = 0;
        while j < pages.len()
            invariant
                j <= pages@.len(),
                pages@.len() == whole.len(),
                (start + whole).is_prefix_of(all),
                forall|other: Seq<char>| (#[trigger] tally(all, other)).total <= u32::MAX,
                forall|i: int|
                    0 <= i < pages@.len() ==> (#[trigger] pages@[i]).1@ == whole[i].1 && whole[i].0
                        == key@,
                table.wf(),
                seen == start + whole.take(j as int),
                counts_pages(table@, seen),
            decreases pages@.len() - j,
        {
            let page: PageMap = pages[j].1;
            let ghost earlier = seen;
            let ghost before = table@;
            proof {
                let next = earlier.push((key@, page@));
                assert(whole.take(j + 1) =~= whole.take(j as int).push(whole[j as int]));
                assert(start + whole.take(j + 1) =~= next);
                assert(next =~= (start + whole).subrange(0, next.len() as int));
                assert(next.is_prefix_of(all));
                lemma_tally_prefix(next, all, key@);
                lemma_tally_push(earlier, key@, page@, key@);
                assert(tally(all, key@).total <= u32::MAX);
            }
            table.record(key, page);
            proof {
                seen = earlier.push((key@, page@));
                assert forall|other: Seq<char>|
                    {
                        &&& table@.contains_key(other) <==> (#[trigger] tally(seen, other)).total
                            > 0
                        &&& table@.contains_key(other) ==> agrees(table@[other], tally(seen, other))
                    } by {
                    lemma_tally_push(earlier, key@, page@, other);
                    assert(before.contains_key(other) <==> tally(earlier, other).total > 0);
                }
            }
            j += 1;
        }
        proof {
            assert(whole.take(whole.len() as int) =~= whole);
        }
        r += 1;
    }
    Ok(table)
}

} // verus!
