//! The list of a process's resolved pages, narrowed by filters.

use crate::memory::{
    fetch_pagemaps, present_bit, swapped_bit, truncated, MemoryMap, PageMap, RegionView,
    ResolveError,
};
use vstd::prelude::*;

verus! {

/// What a list keeps. Each filter is off unless set, and the ones that are
/// set must all hold of a page for it to be kept.
#[derive(Clone, Copy, Debug, PartialEq, Eq, Structural)]
pub struct ListFilters {
    /// Keep only pages whose swapped flag is set.
    pub swapped_only: bool,
    /// Keep only pages whose present flag is set.
    pub present_only: bool,
    /// Keep only pages of anonymous regions.
    pub anon_only: bool,
}

impl Default for ListFilters {
    fn default() -> (filters: ListFilters)
        ensures
            filters == (ListFilters { swapped_only: false, present_only: false, anon_only: false }),
    {
        ListFilters { swapped_only: false, present_only: false, anon_only: false }
    }
}

/// A page of the list: its virtual address, its decoded record, and the
/// position of its region in the region list.
#[derive(Clone, Copy, Debug, PartialEq, Eq, Structural)]
pub struct ListedPage {
    pub addr: u64,
    pub page: PageMap,
    pub region: usize,
}

/// A listed page as a value.
pub struct ListedView {
    pub addr: int,
    pub bits: u64,
    pub region: int,
}

impl View for ListedPage {
    type V = ListedView;

    open spec fn view(&self) -> ListedView {
        ListedView { addr: self.addr as int, bits: self.page@, region: self.region as int }
    }
}

impl ListFilters {
    /// Whether the filters read the pages of `region` at all: with
    /// `anon_only`, a region with a path is passed over unread.
    pub open spec fn reads(self, region: RegionView) -> bool {
        self.anon_only ==> region.anonymous()
    }

    /// Whether a page with the record `bits` in `region` passes every filter
    /// that is set.
    pub open spec fn keeps(self, region: RegionView, bits: u64) -> bool {
        &&& self.reads(region)
        &&& self.swapped_only ==> swapped_bit(bits)
        &&& self.present_only ==> present_bit(bits)
    }

    /// Whether the pages of `map` are read at all.
    pub fn reads_region(&self, map: &MemoryMap) -> (read: bool)
        ensures
            read == self.reads(map@),
    {
        !self.anon_only || map.is_anon()
    }

    /// Whether a page of `map` with the record `page` is kept.
    pub fn keeps_page(&self, map: &MemoryMap, page: PageMap) -> (kept: bool)
        ensures
            kept == self.keeps(map@, page@),
    {
        self.reads_region(map) && (!self.swapped_only || page.is_swapped()) && (!self.present_only
            || page.is_present())
    }
}

/// Every page of region `r`, in address order.
pub open spec fn region_listing(region: RegionView, records: Seq<u64>, r: int) -> Seq<ListedView> {
    Seq::new(
        region.page_count(),
        |j: int| ListedView { addr: region.page_addr(j), bits: truncated(records[j]), region: r },
    )
}

/// Every page of the first `n` regions, region after region.
pub open spec fn full_listing(regions: Seq<MemoryMap>, records: Seq<Vec<u64>>, n: nat) -> Seq<
    ListedView,
>
    decreases n,
{
    if n == 0 {
        Seq::empty()
    } else {
        full_listing(regions, records, (n - 1) as nat) + region_listing(
            regions[n - 1]@,
            records[n - 1]@,
            n - 1,
        )
    }
}

/// Whether the filters keep a page, judged by the region it names.
pub open spec fn kept(regions: Seq<MemoryMap>, filters: ListFilters) -> spec_fn(ListedView) -> bool {
    |p: ListedView| 0 <= p.region < regions.len() && filters.keeps(regions[p.region]@, p.bits)
}

/// The pages that the filters keep, in region-then-address order.
pub open spec fn filtered_listing(
    regions: Seq<MemoryMap>,
    records: Seq<Vec<u64>>,
    filters: ListFilters,
) -> Seq<ListedView> {
    full_listing(regions, records, regions.len()).filter(kept(regions, filters))
}

/// Every region that the filters read has its records: at least as many as
/// it has pages.
pub open spec fn readable(regions: Seq<MemoryMap>, records: Seq<Vec<u64>>, filters: ListFilters) -> bool {
    forall|r: int|
        0 <= r < regions.len() && filters.reads((#[trigger] regions[r])@) ==> r < records.len()
            && records[r]@.len() >= regions[r]@.page_count()
}

/// The views of listed pages.
pub open spec fn listed_views(pages: Seq<ListedPage>) -> Seq<ListedView> {
    Seq::new(pages.len(), |i: int| pages[i]@)
}

pub proof fn lemma_filter_push<A>(s: Seq<A>, x: A, pred: spec_fn(A) -> bool)
    ensures
        s.push(x).filter(pred) == if pred(x) {
            s.filter(pred).push(x)
        } else {
            s.filter(pred)
        },
{
    reveal(Seq::filter);
    assert(s.push(x).drop_last() =~= s);
}

pub proof fn lemma_filter_append_none<A>(s: Seq<A>, t: Seq<A>, pred: spec_fn(A) -> bool)
    requires
        forall|i: int| 0 <= i < t.len() ==> !pred(#[trigger] t[i]),
    ensures
        (s + t).filter(pred) == s.filter(pred),
    decreases t.len(),
{
    if t.len() == 0 {
        assert(s + t =~= s);
    } else {
        assert(s + t =~= (s + t.drop_last()).push(t.last()));
        lemma_filter_push(s + t.drop_last(), t.last(), pred);
        lemma_filter_append_none(s, t.drop_last(), pred);
    }
}

/// Lists the pages of a process that pass the filters. `regions` is the
/// region list and `records[r]` holds the raw records of the pages of region
/// `r`, in address order. With `anon_only`, regions with a path are passed
/// over and their records are not looked at. A region that is read but has
/// fewer records than pages is a short read, and nothing is returned.
pub fn list_pages(regions: &Vec<MemoryMap>, records: &Vec<Vec<u64>>, filters: &ListFilters) -> (listed:
    Result<Vec<ListedPage>, ResolveError>)
    ensures
        listed is Ok <==> readable(regions@, records@, *filters),
        listed matches Ok(pages) ==> listed_views(pages@) == filtered_listing(
            regions@,
            records@,
            *filters,
        ),
{
    let mut out: Vec<ListedPage> = Vec::new();
    let ghost pred = kept(regions@, *filters);
    let ghost mut seen: Seq<ListedView> = Seq::empty();
    let mut r: usize = 0;
    proof {
        reveal(Seq::filter);
        assert(listed_views(out@) =~= seen.filter(pred));
    }
    while r < regions.len()
        invariant
            r <= regions@.len(),
            pred == kept(regions@, *filters),
            seen == full_listing(regions@, records@, r as nat),
            listed_views(out@) == seen.filter(pred),
            forall|q: int|
                0 <= q < r && filters.reads((#[trigger] regions@[q])@) ==> q < records@.len()
                    && records@[q]@.len() >= regions@[q]@.page_count(),
        decreases regions@.len() - r,
    {
        let map = &regions[r];
        let ghost whole = region_listing(map@, records@[r as int]@, r as int);
        let ghost start = seen;
        if filters.reads_region(map) {
            if r >= records.len() {
                assert(regions@[r as int]@.page_count() >= 0 && r >= records@.len());
                return Err(ResolveError::ShortRead);
            }
            let pages = match fetch_pagemaps(map, &records[r]) {
                Ok(pages) => pages,
                Err(short) => {
                    assert(records@[r as int]@.len() < regions@[r as int]@.page_count());
                    return Err(short);
                },
            };
            proof {
                assert(start + whole.take(0) =~= start);
            }
            let mut j: usize = 0;
            while j < pages.len()
                invariant
                    j <= pages@.len(),
                    r < regions@.len(),
                    map == &regions@[r as int],
                    pred == kept(regions@, *filters),
                    pages@.len() == whole.len(),
                    whole == region_listing(map@, records@[r as int]@, r as int),
                    forall|i: int|
                        0 <= i < pages@.len() ==> (#[trigger] pages@[i]).0 == map@.page_addr(i)
                            && pages@[i].1@ == truncated(records@[r as int]@[i]),
                    seen == start + whole.take(j as int),
                    listed_views(out@) == seen.filter(pred),
                decreases pages@.len() - j,
            {
                let addr: u64 = pages[j].0;
                let page: PageMap = pages[j].1;
                let entry = ListedPage { addr, page, region: r };
                proof {
                    assert(entry@ == whole[j as int]);
                    assert(whole.take(j + 1) =~= whole.take(j as int).push(whole[j as int]));
                    assert(start + whole.take(j + 1) =~= seen.push(entry@));
                    lemma_filter_push(seen, entry@, pred);
                    seen = seen.push(entry@);
                }
                if filters.keeps_page(map, page) {
                    proof {
                        assert(listed_views(out@.push(entry)) =~= listed_views(out@).push(entry@));
                    }
                    out.push(entry);
                }
                j += 1;
            }
            proof {
                assert(whole.take(whole.len() as int) =~= whole);
            }
        } else {
            proof {
                lemma_filter_append_none(start, whole, pred);
                seen = start + whole;
            }
        }
        r += 1;
    }
    Ok(out)
}

/// Every listed page passes each filter that is set: with `anon_only` its
/// region is anonymous, with no path or an empty one, with `swapped_only` its swapped flag is set, and with
/// `present_only` its present flag is set. With both of the last two, both
/// flags are set.
pub proof fn lemma_listed_pass_filters(
    regions: Seq<MemoryMap>,
    records: Seq<Vec<u64>>,
    filters: ListFilters,
    i: int,
)
    requires
        0 <= i < filtered_listing(regions, records, filters).len(),
    ensures
        ({
            let p = filtered_listing(regions, records, filters)[i];
            &&& 0 <= p.region < regions.len()
            &&& filters.anon_only ==> regions[p.region]@.anonymous()
            &&& filters.swapped_only ==> swapped_bit(p.bits)
            &&& filters.present_only ==> present_bit(p.bits)
            &&& filters.swapped_only && filters.present_only ==> swapped_bit(p.bits) && present_bit(
                p.bits,
            )
        }),
{
    full_listing(regions, records, regions.len()).lemma_filter_pred(kept(regions, filters), i);
}

/// With no filter set, every page of every region is listed.
pub proof fn lemma_no_filter_lists_all(regions: Seq<MemoryMap>, records: Seq<Vec<u64>>)
    ensures
        filtered_listing(
            regions,
            records,
            ListFilters { swapped_only: false, present_only: false, anon_only: false },
        ) == full_listing(regions, records, regions.len()),
{
    let filters = ListFilters { swapped_only: false, present_only: false, anon_only: false };
    lemma_regions_in_range(regions, records, regions.len());
    lemma_filter_all(full_listing(regions, records, regions.len()), kept(regions, filters));
}

/// Each page of the first `n` regions names one of them.
proof fn lemma_regions_in_range(regions: Seq<MemoryMap>, records: Seq<Vec<u64>>, n: nat)
    ensures
        forall|i: int|
            0 <= i < full_listing(regions, records, n).len() ==> 0 <= (#[trigger] full_listing(
                regions,
                records,
                n,
            )[i]).region < n,
    decreases n,
{
    if n > 0 {
        lemma_regions_in_range(regions, records, (n - 1) as nat);
        let earlier = full_listing(regions, records, (n - 1) as nat);
        let last = region_listing(regions[n - 1]@, records[n - 1]@, n - 1);
        assert forall|i: int| 0 <= i < (earlier + last).len() implies 0 <= (#[trigger] (earlier
            + last)[i]).region < n by {
            if i < earlier.len() {
                assert((earlier + last)[i] == earlier[i]);
            } else {
                assert((earlier + last)[i] == last[i - earlier.len()]);
            }
        }
    }
}

pub proof fn lemma_filter_all<A>(s: Seq<A>, pred: spec_fn(A) -> bool)
    requires
        forall|i: int| 0 <= i < s.len() ==> pred(#[trigger] s[i]),
    ensures
        s.filter(pred) == s,
    decreases s.len(),
{
    reveal(Seq::filter);
    if s.len() > 0 {
        lemma_filter_all(s.drop_last(), pred);
        assert(s.drop_last().push(s.last()) =~= s);
    }
}

} // verus!
