//! Memory regions and the packed 64-bit record that describes one virtual page.

use crate::listing::{parse_line, parsed_line};
use vstd::prelude::*;

verus! {

/// Size of one virtual page in bytes.
pub const PAGE_SIZE: u64 = 0x1000;

/// Size in bytes of the packed record that describes one virtual page.
pub const RECORD_SIZE: u64 = 8;

/// Every bit that a record keeps: the payload and the two flags.
pub const KNOWN_MASK: u64 = 0xc07f_ffff_ffff_ffff;

/// What a raw 64-bit record keeps once the bits without a meaning here are
/// masked out.
pub open spec fn truncated(raw: u64) -> u64 {
    raw & KNOWN_MASK
}

/// The swapped flag of a record: bit 62.
pub open spec fn swapped_bit(bits: u64) -> bool {
    bits & PageMap::SWAPPED != 0
}

/// The present flag of a record: bit 63.
pub open spec fn present_bit(bits: u64) -> bool {
    bits & PageMap::PRESENT != 0
}

/// The payload of a record: bits 0 to 54.
pub open spec fn frame_bits(bits: u64) -> u64 {
    bits & PageMap::PFN
}

/// The number that `bytes` spell with the least significant byte first.
pub open spec fn le_value(bytes: Seq<u8>) -> nat
    decreases bytes.len(),
{
    if bytes.len() == 0 {
        0
    } else {
        bytes.first() as nat + 256 * le_value(bytes.drop_first())
    }
}

/// The number that `bytes` spell with the most significant byte first.
pub open spec fn be_value(bytes: Seq<u8>) -> nat
    decreases bytes.len(),
{
    if bytes.len() == 0 {
        0
    } else {
        be_value(bytes.drop_last()) * 256 + bytes.last() as nat
    }
}

/// `u64::from_ne_bytes`: the integer whose representation in this machine's
/// memory is `bytes`. Which byte order that is depends on the machine, so the
/// contract claims only that it is one of the two.
#[verifier::external_body]
fn native_u64(bytes: [u8; 8]) -> (raw: u64)
    ensures
        raw == le_value(bytes@) || raw == be_value(bytes@),
{
    u64::from_ne_bytes(bytes)
}

/// One packed record: the physical mapping of a single virtual page. It is
/// exactly as wide as the 64-bit integer it is decoded from.
#[derive(Clone, Copy, Debug, PartialEq, Eq, Structural)]
pub struct PageMap(u64);

impl View for PageMap {
    type V = u64;

    closed spec fn view(&self) -> u64 {
        self.0
    }
}

impl PageMap {
    /// Mask of the payload: bits 0 to 54.
    pub const PFN: u64 = 0x007f_ffff_ffff_ffff;

    /// Mask of the swapped flag: bit 62.
    pub const SWAPPED: u64 = 0x4000_0000_0000_0000;

    /// Mask of the present flag: bit 63.
    pub const PRESENT: u64 = 0x8000_0000_0000_0000;

    /// Decodes a raw record. The payload and the two flags are kept as they
    /// are; every other bit is dropped without being looked at.
    pub fn from_bits_truncate(raw: u64) -> (record: PageMap)
        ensures
            record@ == truncated(raw),
            swapped_bit(record@) == swapped_bit(raw),
            present_bit(record@) == present_bit(raw),
            frame_bits(record@) == frame_bits(raw),
    {
        assert((raw & 0xc07f_ffff_ffff_ffff) & 0x4000_0000_0000_0000 == raw
            & 0x4000_0000_0000_0000) by (bit_vector);
        assert((raw & 0xc07f_ffff_ffff_ffff) & 0x8000_0000_0000_0000 == raw
            & 0x8000_0000_0000_0000) by (bit_vector);
        assert((raw & 0xc07f_ffff_ffff_ffff) & 0x007f_ffff_ffff_ffff == raw
            & 0x007f_ffff_ffff_ffff) by (bit_vector);
        PageMap(raw & KNOWN_MASK)
    }

    /// Decodes the eight bytes of a record as they were read from the
    /// kernel: an integer in this machine's byte order, then decoded as
    /// `from_bits_truncate` does.
    pub fn from_ne_bytes(bytes: [u8; 8]) -> (record: PageMap)
        ensures
            record@ == truncated(le_value(bytes@) as u64) || record@ == truncated(
                be_value(bytes@) as u64,
            ),
    {
        PageMap::from_bits_truncate(native_u64(bytes))
    }

    /// The bits that the record holds.
    pub fn bits(self) -> (bits: u64)
        ensures
            bits == self@,
    {
        self.0
    }

    /// Whether the page is swapped out (bit 62).
    pub fn is_swapped(self) -> (swapped: bool)
        ensures
            swapped == swapped_bit(self@),
    {
        self.0 & PageMap::SWAPPED != 0
    }

    /// Whether the page is present in physical memory (bit 63).
    pub fn is_present(self) -> (present: bool)
        ensures
            present == present_bit(self@),
    {
        self.0 & PageMap::PRESENT != 0
    }

    /// The page frame number of a present page, or the swap type and offset
    /// of a swapped one (bits 0 to 54).
    pub fn pfn(self) -> (frame: u64)
        ensures
            frame == frame_bits(self@),
            frame <= PageMap::PFN,
    {
        let bits: u64 = self.0;
        assert(bits & 0x007f_ffff_ffff_ffff <= 0x007f_ffff_ffff_ffff) by (bit_vector);
        self.0 & PageMap::PFN
    }
}

/// The payload and the two flags of a record are read independently: a raw
/// record put together from a payload, either flag set or clear, and any bits
/// outside the three fields decodes to that payload and those flags.
pub proof fn lemma_fields_independent(payload: u64, swapped: bool, present: bool, rest: u64)
    requires
        payload <= PageMap::PFN,
        rest & KNOWN_MASK == 0,
    ensures
        ({
            let flags: u64 = (if swapped {
                PageMap::SWAPPED
            } else {
                0
            }) | (if present {
                PageMap::PRESENT
            } else {
                0
            });
            let bits = truncated(payload | flags | rest);
            &&& frame_bits(bits) == payload
            &&& swapped_bit(bits) == swapped
            &&& present_bit(bits) == present
            &&& bits == payload | flags
        }),
{
    let s: u64 = if swapped {
        0x4000_0000_0000_0000
    } else {
        0
    };
    let p: u64 = if present {
        0x8000_0000_0000_0000
    } else {
        0
    };
    assert(payload <= 0x007f_ffff_ffff_ffff && rest & 0xc07f_ffff_ffff_ffff == 0 && (s == 0 || s
        == 0x4000_0000_0000_0000) && (p == 0 || p == 0x8000_0000_0000_0000) ==> {
        let bits = (payload | (s | p) | rest) & 0xc07f_ffff_ffff_ffff;
        &&& bits & 0x007f_ffff_ffff_ffff == payload
        &&& (bits & 0x4000_0000_0000_0000 != 0) == (s != 0)
        &&& (bits & 0x8000_0000_0000_0000 != 0) == (p != 0)
        &&& bits == payload | (s | p)
    }) by (bit_vector);
}

/// A contiguous range of virtual addresses, `low_addr` up to but not including
/// `high_addr`, with the path of the object that backs it. A region without a
/// path is anonymous memory.
#[derive(Debug)]
pub struct MemoryMap {
    pub low_addr: u64,
    pub high_addr: u64,
    pub path: Option<String>,
}

/// A region as a value: its bounds, and its path as a sequence of characters.
pub struct RegionView {
    pub low_addr: u64,
    pub high_addr: u64,
    pub path: Option<Seq<char>>,
}

impl View for MemoryMap {
    type V = RegionView;

    open spec fn view(&self) -> RegionView {
        RegionView {
            low_addr: self.low_addr,
            high_addr: self.high_addr,
            path: match self.path {
                Some(p) => Some(p@),
                None => None,
            },
        }
    }
}

impl RegionView {
    /// The bounds are ordered and both lie on a page boundary, as a kernel's
    /// listing gives them.
    pub open spec fn aligned(self) -> bool {
        &&& self.low_addr <= self.high_addr
        &&& self.low_addr % PAGE_SIZE == 0
        &&& self.high_addr % PAGE_SIZE == 0
    }

    /// How many pages the region holds: the addresses `low_addr`,
    /// `low_addr + PAGE_SIZE`, ... that lie below `high_addr`.
    pub open spec fn page_count(self) -> nat {
        if self.high_addr <= self.low_addr {
            0
        } else {
            ((self.high_addr - self.low_addr - 1) / (PAGE_SIZE as int) + 1) as nat
        }
    }

    /// The virtual address of the region's page `i`.
    pub open spec fn page_addr(self, i: int) -> int {
        self.low_addr + i * PAGE_SIZE
    }

    /// The region is anonymous memory: it has no path, or an empty one.
    pub open spec fn anonymous(self) -> bool {
        match self.path {
            Some(p) => p.len() == 0,
            None => true,
        }
    }

    /// The key under which the region's pages are counted: its path, or
    /// `"anon"` for anonymous memory.
    pub open spec fn key(self) -> Seq<char> {
        match self.path {
            Some(p) => if p.len() == 0 {
                "anon"@
            } else {
                p
            },
            None => "anon"@,
        }
    }
}

/// Why the pages of a region could not be resolved.
#[derive(Clone, Copy, Debug, PartialEq, Eq, Structural)]
pub enum ResolveError {
    /// Fewer records were supplied than the region has pages.
    ShortRead,
}

impl MemoryMap {
    /// Whether the region is anonymous memory, backed by no object: its path
    /// is absent or empty.
    pub fn is_anon(&self) -> (anon: bool)
        ensures
            anon == self@.anonymous(),
    {
        match &self.path {
            Some(path) => path.as_str().is_empty(),
            None => true,
        }
    }

    /// The key under which the region's pages are counted: its path, or
    /// `"anon"` for anonymous memory.
    pub fn key(&self) -> (key: &str)
        ensures
            key@ == self@.key(),
    {
        match &self.path {
            Some(path) => if path.as_str().is_empty() {
                "anon"
            } else {
                path.as_str()
            },
            None => "anon",
        }
    }

    /// The virtual address of page `i` of the region.
    pub fn page_address(&self, i: u64) -> (addr: u64)
        requires
            i < self@.page_count(),
        ensures
            addr == self@.page_addr(i as int),
            addr < self.high_addr,
    {
        self.low_addr + i * PAGE_SIZE
    }

    /// The number of pages in the region. Page `i` exists exactly when its
    /// address lies below `high_addr`.
    pub fn num_pages(&self) -> (count: u64)
        ensures
            count == self@.page_count(),
            forall|i: int| 0 <= i ==> (i < count <==> #[trigger] self@.page_addr(i) < self.high_addr),
    {
        if self.high_addr <= self.low_addr {
            0
        } else {
            (self.high_addr - self.low_addr - 1) / PAGE_SIZE + 1
        }
    }
}

/// Why a region listing could not be read.
#[derive(Clone, Copy, Debug, PartialEq, Eq, Structural)]
pub enum ListingError {
    /// The line at this position, counting from 0, describes no region.
    MalformedLine { line: usize },
}

/// Reads a region listing, one region per line, and keeps the order of the
/// lines. A single line that describes no region fails the whole listing; the
/// error names the first such line.
pub fn memory_maps(lines: &Vec<String>) -> (listing: Result<Vec<MemoryMap>, ListingError>)
    ensures
        listing is Ok <==> forall|i: int|
            0 <= i < lines@.len() ==> parsed_line(#[trigger] lines@[i]@) is Some,
        listing matches Ok(maps) ==> {
            &&& maps@.len() == lines@.len()
            &&& forall|i: int|
                0 <= i < maps@.len() ==> parsed_line(lines@[i]@) == Some((#[trigger] maps@[i])@)
        },
        listing matches Err(ListingError::MalformedLine { line }) ==> {
            &&& line < lines@.len()
            &&& parsed_line(lines@[line as int]@) is None
            &&& forall|i: int| 0 <= i < line ==> parsed_line(#[trigger] lines@[i]@) is Some
        },
{
    let mut all_maps: Vec<MemoryMap> = Vec::new();
    let mut i: usize = 0;
    while i < lines.len()
        invariant
            i <= lines@.len(),
            all_maps@.len() == i,
            forall|k: int|
                0 <= k < i ==> parsed_line(lines@[k]@) == Some((#[trigger] all_maps@[k])@),
            forall|k: int| 0 <= k < i ==> parsed_line(#[trigger] lines@[k]@) is Some,
        decreases lines@.len() - i,
    {
        match parse_line(lines[i].as_str()) {
            Some(map) => {
                all_maps.push(map);
            },
            None => {
                return Err(ListingError::MalformedLine { line: i });
            },
        }
        i += 1;
    }
    Ok(all_maps)
}

/// The byte offset, in the source of packed records, of the record for the
/// page that holds `addr`: records are laid out by page index, `RECORD_SIZE`
/// bytes each.
pub fn record_offset(addr: u64) -> (offset: u64)
    ensures
        offset == (addr / PAGE_SIZE) * RECORD_SIZE,
{
    addr / PAGE_SIZE * RECORD_SIZE
}

/// Resolves every page of a region. `records` holds the raw 64-bit records of
/// the region's pages in address order, the one for page `i` read at
/// `record_offset` of that page's address. The result pairs each page's
/// address with its decoded record, in ascending order of address. Records
/// beyond the region's last page are not looked at; too few are a short read.
pub fn fetch_pagemaps(map: &MemoryMap, records: &Vec<u64>) -> (resolved: Result<
    Vec<(u64, PageMap)>,
    ResolveError,
>)
    ensures
        resolved is Ok <==> records@.len() >= map@.page_count(),
        resolved matches Ok(pages) ==> {
            &&& pages@.len() == map@.page_count()
            &&& forall|i: int|
                0 <= i < pages@.len() ==> {
                    &&& (#[trigger] pages@[i]).0 == map@.page_addr(i)
                    &&& pages@[i].1@ == truncated(records@[i])
                }
        },
{
    let count: u64 = map.num_pages();
    let supplied: usize = records.len();
    if (supplied as u64) < count {
        return Err(ResolveError::ShortRead);
    }
    let mut pages: Vec<(u64, PageMap)> = Vec::new();
    let mut i: usize = 0;
    while (i as u64) < count
        invariant
            i <= count,
            count == map@.page_count(),
            count <= supplied == records@.len(),
            forall|k: int| 0 <= k ==> (k < count <==> #[trigger] map@.page_addr(k) < map.high_addr),
            pages@.len() == i,
            forall|k: int|
                0 <= k < i ==> {
                    &&& (#[trigger] pages@[k]).0 == map@.page_addr(k)
                    &&& pages@[k].1@ == truncated(records@[k])
                },
        decreases count - i,
    {
        let addr: u64 = map.page_address(i as u64);
        pages.push((addr, PageMap::from_bits_truncate(records[i])));
        i += 1;
    }
    Ok(pages)
}

/// A region of `k` whole pages resolves to exactly `k` pages, at `low_addr`,
/// `low_addr + PAGE_SIZE`, and so on up to `low_addr + (k - 1) * PAGE_SIZE`,
/// all below `high_addr`; an empty region resolves to none.
pub proof fn lemma_whole_pages(region: RegionView, k: nat)
    requires
        region.high_addr == region.low_addr + k * PAGE_SIZE,
    ensures
        region.page_count() == k,
        forall|i: int| 0 <= i < k ==> region.low_addr <= #[trigger] region.page_addr(i) < region.high_addr,
        forall|i: int| 0 <= i < k - 1 ==> #[trigger] region.page_addr(i) + PAGE_SIZE == region.page_addr(i + 1),
{
}

/// A region whose bounds are ordered and lie on page boundaries is made of
/// whole pages, each of which starts on a page boundary.
pub proof fn lemma_aligned_region(region: RegionView)
    requires
        region.aligned(),
    ensures
        region.high_addr == region.low_addr + region.page_count() * PAGE_SIZE,
        forall|i: int|
            0 <= i < region.page_count() ==> (#[trigger] region.page_addr(i)) % (PAGE_SIZE as int)
                == 0,
{
}

/// The records of a region's pages lie one after another in the source: the
/// record of page `i` starts `i * RECORD_SIZE` bytes after that of page 0.
pub proof fn lemma_offsets_contiguous(region: RegionView, i: nat)
    ensures
        (region.page_addr(i as int) / (PAGE_SIZE as int)) * RECORD_SIZE == (region.low_addr / PAGE_SIZE)
            * RECORD_SIZE + i * RECORD_SIZE,
{
}

} // verus!
