//! The ordering segments

use vstd::prelude::*;
use crate::itree::interval::{DataSource, LogicalInterval};
use crate::jif::Jif;
use crate::utils::{PAGE_SIZE, page_align_down, spec_align_down};

verus! {

/// Flag of an ordering chunk of pages backed by the reference file
pub const ORD_SHARED_FLAG: u64 = 0x8000_0000_0000_0000;
/// Flag of an ordering chunk of private pages
pub const ORD_PRIVATE_FLAG: u64 = 0x4000_0000_0000_0000;
/// Flag of an ordering chunk of zero pages
pub const ORD_ZERO_FLAG: u64 = 0x2000_0000_0000_0000;
/// Mask of the bits below the kind flags
pub const ORD_KIND_MASK: u64 = 0x1fff_ffff_ffff_ffff;
/// Flag of an ordering chunk whose pages are written to
pub const ORD_WRITE_FLAG: u64 = 0x1000_0000_0000_0000;
/// Mask of the address bits
pub const ORD_FLAG_MASK: u64 = 0x0fff_ffff_ffff_ffff;

/// An ordering chunk represents a range of pages to pre-fault
#[derive(Debug, Clone, Copy, PartialEq, Eq, Structural)]
pub struct OrdChunk {
    /// Timestamp of the access
    pub timestamp_us: u64,
    /// Address of the first page
    pub vaddr: u64,
    /// Number of pages
    pub n_pages: u64,
    /// Source of the interval in the chunk
    pub kind: DataSource,
    /// Whether the page is written to at some point
    pub is_written_to: bool,
}

/// The page address named by a raw address: page aligned, flag bits cleared
pub open spec fn spec_sanitize(raw_vaddr: u64) -> u64 {
    (spec_align_down(raw_vaddr as int, PAGE_SIZE as int) as u64) & ORD_FLAG_MASK
}

/// Whether a raw address carries the write flag
pub open spec fn spec_written_to(raw_vaddr: u64) -> bool {
    raw_vaddr & ORD_WRITE_FLAG != 0
}

impl OrdChunk {
    /// Address of the last page
    pub open spec fn spec_last_page_addr(&self) -> int {
        if self.n_pages > 1 {
            self.vaddr + (self.n_pages - 1) * (PAGE_SIZE as int)
        } else {
            self.vaddr as int
        }
    }

    /// The chunk's addresses fit a `u64`
    pub open spec fn fits(&self) -> bool {
        self.spec_last_page_addr() + PAGE_SIZE <= u64::MAX
    }

    /// The first address of each page
    pub open spec fn spec_pages(&self) -> Seq<u64> {
        Seq::new(
            if self.n_pages > 1 { self.n_pages as nat } else { 1 },
            |i: int| (self.vaddr + i * (PAGE_SIZE as int)) as u64,
        )
    }

    /// The size of the [`OrdChunk`] when serialized: address (with flags), number of pages and
    /// timestamp
    pub fn serialized_size() -> (r: usize)
        ensures
            r == 24,
    {
        3 * 8
    }

    /// The page address named by a raw address
    pub fn sanitize_addr(raw_vaddr: u64) -> (r: u64)
        ensures
            r == spec_sanitize(raw_vaddr),
    {
        page_align_down(raw_vaddr) & ORD_FLAG_MASK
    }

    /// Whether a raw address carries the write flag
    pub fn raw_addr_written_to(raw_vaddr: u64) -> (r: bool)
        ensures
            r == spec_written_to(raw_vaddr),
    {
        (raw_vaddr & ORD_WRITE_FLAG) != 0
    }

    /// Create a new ordering chunk
    ///
    /// Will silently clamp the `vaddr`
    pub fn new(timestamp_us: u64, raw_vaddr: u64, n_pages: u64, kind: DataSource) -> (r: Self)
        ensures
            r == (OrdChunk {
                timestamp_us,
                vaddr: spec_sanitize(raw_vaddr),
                n_pages,
                kind,
                is_written_to: spec_written_to(raw_vaddr),
            }),
    {
        let is_written_to = Self::raw_addr_written_to(raw_vaddr);
        let vaddr = Self::sanitize_addr(raw_vaddr);
        OrdChunk { timestamp_us, vaddr, n_pages, kind, is_written_to }
    }

    /// Whether this ordering chunk has any data
    pub fn is_empty(&self) -> (r: bool)
        ensures
            r == (self.n_pages == 0),
    {
        self.n_pages == 0
    }

    /// Number of pages in the ordering chunk
    pub fn size(&self) -> (r: u64)
        ensures
            r == self.n_pages,
    {
        self.n_pages
    }

    /// Kind of ordering segment
    pub fn kind(&self) -> (r: DataSource)
        ensures
            r == self.kind,
    {
        self.kind
    }

    /// The address of the first page in the ordering chunk
    pub fn addr(&self) -> (r: u64)
        ensures
            r == self.vaddr,
    {
        self.vaddr
    }

    /// The address of the last page in the ordering chunk
    pub fn last_page_addr(&self) -> (r: u64)
        requires
            self.spec_last_page_addr() <= u64::MAX,
        ensures
            r == self.spec_last_page_addr(),
    {
        if self.n_pages > 1 {
            assert((self.n_pages - 1) * 4096 <= u64::MAX) by (nonlinear_arith)
                requires
                    self.vaddr + (self.n_pages - 1) * 4096 <= u64::MAX,
                    self.n_pages > 1,
            ;
            self.vaddr + (self.n_pages - 1) * PAGE_SIZE as u64
        } else {
            self.vaddr
        }
    }

    /// The end of the memory region referenced by the ordering chunk
    pub fn end(&self) -> (r: u64)
        requires
            self.fits(),
        ensures
            r == self.spec_last_page_addr() + PAGE_SIZE,
    {
        self.last_page_addr() + PAGE_SIZE as u64
    }

    /// First address of each page
    pub fn pages(&self) -> (r: Vec<u64>)
        requires
            self.spec_last_page_addr() <= u64::MAX,
        ensures
            r@ == self.spec_pages(),
    {
        let n: u64 = if self.n_pages > 1 {
            self.n_pages
        } else {
            1
        };
        let mut out: Vec<u64> = Vec::new();
        let mut i: u64 = 0;
        while i < n
            invariant
                i <= n,
                n == if self.n_pages > 1 { self.n_pages } else { 1 },
                self.vaddr + (n - 1) * 4096 <= u64::MAX,
                out@.len() == i,
                forall|j: int| 0 <= j < i ==> #[trigger] out@[j] == (self.vaddr + j * 4096) as u64,
            decreases n - i,
        {
            assert(i * 4096 <= (n - 1) * 4096) by (nonlinear_arith)
                requires
                    i < n,
            ;
            out.push(self.vaddr + i * PAGE_SIZE as u64);
            i = i + 1;
        }
        assert(out@ =~= self.spec_pages());
        out
    }

    /// Attempt to merge a page (`raw_vaddr`, a page address with the write flag) into the
    /// ordering chunk, which happens if:
    ///  - the chunk is empty (it then holds just that page)
    ///  - or the page has the chunk's write behaviour, is contiguous to it (or is already in it)
    ///    **and** resolves, in `jif`, as the chunk's first page does
    ///
    /// The chunk keeps the earlier of the two timestamps. Return false if it is not possible to
    /// merge the page (the chunk is then unchanged).
    pub fn merge_page(&mut self, jif: &Jif, timestamp_us: u64, raw_vaddr: u64) -> (r: bool)
        requires
            jif.wf(),
            old(self).vaddr + old(self).n_pages * PAGE_SIZE <= u64::MAX,
        ensures
            (*final(self), r) == merged(*old(self), *jif, timestamp_us, raw_vaddr),
    {
        let vaddr = Self::sanitize_addr(raw_vaddr);
        let is_written_to = Self::raw_addr_written_to(raw_vaddr);
        proof {
            lemma_sanitized_small(raw_vaddr);
        }

        if self.n_pages == 0 {
            self.vaddr = vaddr;
            self.n_pages = 1;
            self.is_written_to = is_written_to;
            return true;
        }

        // we can only merge addresses if they have the same write behaviour
        if is_written_to != self.is_written_to {
            return false;
        }

        // we can only merge if the addresses belong in the same itree
        // interval (logically) and, consequently, in the same pheader
        if !same_resolution(&jif.resolve(vaddr), &jif.resolve(self.vaddr)) {
            return false;
        }

        let end = self.vaddr + self.n_pages * PAGE_SIZE as u64;
        let ts = if timestamp_us < self.timestamp_us {
            timestamp_us
        } else {
            self.timestamp_us
        };
        if vaddr + PAGE_SIZE as u64 == self.vaddr {
            // the page is immediately before the ordering chunk
            self.vaddr = vaddr;
            self.n_pages = self.n_pages + 1;
            self.timestamp_us = ts;
            true
        } else if vaddr == end {
            // the page is immediately after the ordering chunk
            self.n_pages = self.n_pages + 1;
            self.timestamp_us = ts;
            true
        } else if self.vaddr <= vaddr && vaddr < end {
            // the page is already in the ordering chunk
            self.timestamp_us = ts;
            true
        } else {
            false
        }
    }

    /// Split the chunk into maximal runs of pages that resolve alike in `jif`, from its first
    /// page up to (not including) its last page; each run gets the kind its first page
    /// resolves to
    pub fn split_by_intervals(&self, jif: &Jif) -> (r: Vec<OrdChunk>)
        requires
            jif.wf(),
            self.fits(),
            forall|a: u64|
                self.vaddr <= a < self.spec_last_page_addr() && (a - self.vaddr) % (PAGE_SIZE as int) == 0
                    ==> (#[trigger] jif.spec_resolve(a)) is Some,
        ensures
            split_ok(*self, |a: u64| jif.spec_resolve(a), r@),
    {
        let ghost res = |a: u64| jif.spec_resolve(a);
        let last = self.last_page_addr();
        let mut cursor = self.vaddr;
        let mut ords: Vec<OrdChunk> = Vec::new();
        while cursor < last
            invariant
                jif.wf(),
                res == (|a: u64| jif.spec_resolve(a)),
                self.fits(),
                last == self.spec_last_page_addr(),
                self.vaddr <= cursor <= last,
                (cursor - self.vaddr) % (PAGE_SIZE as int) == 0,
                (last - self.vaddr) % (PAGE_SIZE as int) == 0,
                forall|a: u64| self.vaddr <= a < last && (a - self.vaddr) % (PAGE_SIZE as int) == 0 ==> (#[trigger] res(a)) is Some,
                split_prefix_ok(*self, res, ords@, cursor),
                ords@.len() > 0 && cursor < last ==> res(ords@.last().vaddr) != res(cursor),
            decreases last - cursor,
        {
            let head = cursor;
            let head_res = jif.resolve(head);
            assert(head_res == res(head));
            proof {
                lemma_page_of_page(self.vaddr as int, head as int, last as int);
                lemma_page_fits(head as int, head as int, last as int);
            }
            cursor = cursor + PAGE_SIZE as u64;
            loop
                invariant
                    jif.wf(),
                    res == (|a: u64| jif.spec_resolve(a)),
                    head < cursor <= last,
                    last + PAGE_SIZE <= u64::MAX,
                    (cursor - head) % (PAGE_SIZE as int) == 0,
                    (last - head) % (PAGE_SIZE as int) == 0,
                    head_res == res(head),
                    forall|a: u64| head <= a < cursor && (a - head) % (PAGE_SIZE as int) == 0 ==> #[trigger] res(a) == res(head),
                ensures
                    cursor < last ==> res(cursor) != res(head),
                decreases last - cursor,
            {
                if cursor >= last {
                    break;
                }
                let next = jif.resolve(cursor);
                if !same_resolution(&head_res, &next) {
                    break;
                }
                proof {
                    lemma_page_fits(head as int, cursor as int, last as int);
                    assert forall|a: u64| head <= a < cursor + PAGE_SIZE && (a - head) % (PAGE_SIZE as int) == 0 implies #[trigger] res(a) == res(head) by {
                        if a >= cursor {
                            lemma_next_page(head as int, cursor as int, a as int);
                        }
                    }
                }
                cursor = cursor + PAGE_SIZE as u64;
            }
            proof {
                assert(cursor < last ==> res(cursor) != res(head));
                assert(res(head) is Some);
            }
            let kind = match head_res {
                Some(l) => l.source,
                None => DataSource::Zero,
            };
            let ghost before = ords@;
            let run = OrdChunk {
                timestamp_us: self.timestamp_us,
                vaddr: head,
                n_pages: (cursor - head) / PAGE_SIZE as u64,
                kind,
                is_written_to: self.is_written_to,
            };
            proof {
                lemma_new_run(*self, res, head, cursor, run);
                lemma_split_step(*self, res, before, head, cursor, run);
                lemma_page_of_page(self.vaddr as int, head as int, cursor as int);
            }
            ords.push(run);
        }
        ords
    }
}

/// Whether two resolutions are the same
fn same_resolution(a: &Option<LogicalInterval>, b: &Option<LogicalInterval>) -> (r: bool)
    ensures
        r == (*a == *b),
{
    match (a, b) {
        (Some(x), Some(y)) => x.start == y.start && x.end == y.end && x.source == y.source,
        (None, None) => true,
        _ => false,
    }
}

/// A sanitized address leaves room for a page above it
pub proof fn lemma_sanitized_small(raw: u64)
    ensures
        spec_sanitize(raw) <= ORD_FLAG_MASK,
{
    let a = spec_align_down(raw as int, PAGE_SIZE as int) as u64;
    assert(a & ORD_FLAG_MASK <= ORD_FLAG_MASK) by (bit_vector);
}

/// What merging a page into a chunk gives: the chunk after, and whether the page was merged
pub open spec fn merged(c: OrdChunk, jif: Jif, ts: u64, raw: u64) -> (OrdChunk, bool) {
    let v = spec_sanitize(raw);
    let w = spec_written_to(raw);
    let t = if ts < c.timestamp_us { ts } else { c.timestamp_us };
    let end = c.vaddr + c.n_pages * (PAGE_SIZE as int);
    if c.n_pages == 0 {
        (OrdChunk { vaddr: v, n_pages: 1, is_written_to: w, ..c }, true)
    } else if w != c.is_written_to {
        (c, false)
    } else if jif.spec_resolve(v) != jif.spec_resolve(c.vaddr) {
        (c, false)
    } else if v + PAGE_SIZE == c.vaddr {
        (OrdChunk { vaddr: v, n_pages: (c.n_pages + 1) as u64, timestamp_us: t, ..c }, true)
    } else if v == end {
        (OrdChunk { n_pages: (c.n_pages + 1) as u64, timestamp_us: t, ..c }, true)
    } else if c.vaddr <= v < end {
        (OrdChunk { timestamp_us: t, ..c }, true)
    } else {
        (c, false)
    }
}

/// The chunks `s` split `c` from its first page up to `cursor`: they are consecutive, each a
/// maximal run of pages that resolve alike (a run ends at `cursor` or before a page that resolves
/// otherwise), with the kind of its first page and the timestamp and write behaviour of `c`
pub open spec fn split_prefix_ok(c: OrdChunk, res: spec_fn(u64) -> Option<LogicalInterval>, s: Seq<OrdChunk>, cursor: u64) -> bool {
    &&& s.len() == 0 ==> cursor == c.vaddr
    &&& s.len() > 0 ==> s[0].vaddr == c.vaddr && s.last().vaddr + s.last().n_pages * (PAGE_SIZE as int) == cursor
    &&& forall|k: int, l: int|
        0 <= k && l == k + 1 && l < s.len() ==> (#[trigger] s[k]).vaddr + s[k].n_pages * (PAGE_SIZE as int) == (#[trigger] s[l]).vaddr
    &&& forall|k: int| 0 <= k < s.len() ==> run_ok(#[trigger] s[k], c, res)
    &&& forall|k: int, l: int| 0 <= k && l == k + 1 && l < s.len() ==> res((#[trigger] s[k]).vaddr) != res((#[trigger] s[l]).vaddr)
}

/// A chunk of a split: at least a page, all of whose pages resolve as its first, with the kind
/// its first page resolves to, and the timestamp and write behaviour of `c`
pub open spec fn run_ok(r: OrdChunk, c: OrdChunk, res: spec_fn(u64) -> Option<LogicalInterval>) -> bool {
    &&& r.n_pages >= 1
    &&& r.timestamp_us == c.timestamp_us
    &&& r.is_written_to == c.is_written_to
    &&& res(r.vaddr) matches Some(l) && r.kind == l.source
    &&& forall|a: u64|
        r.vaddr <= a < r.vaddr + r.n_pages * (PAGE_SIZE as int) && (a - r.vaddr) % (PAGE_SIZE as int) == 0
            ==> #[trigger] res(a) == res(r.vaddr)
}

/// What splitting a chunk gives: the split reaches its last page (and is empty for a chunk of a
/// single page)
pub open spec fn split_ok(c: OrdChunk, res: spec_fn(u64) -> Option<LogicalInterval>, s: Seq<OrdChunk>) -> bool {
    split_prefix_ok(c, res, s, c.spec_last_page_addr() as u64)
}

/// The only page address from `cursor` on, below the next page, is `cursor`
proof fn lemma_next_page(head: int, cursor: int, a: int)
    requires
        (cursor - head) % 4096 == 0,
        (a - head) % 4096 == 0,
        cursor <= a < cursor + 4096,
    ensures
        a == cursor,
{
    assert(a == cursor) by (nonlinear_arith)
        requires
            (cursor - head) % 4096 == 0,
            (a - head) % 4096 == 0,
            cursor <= a < cursor + 4096,
    ;
}

/// The chunk of the run of pages from `head` up to `cursor`, all resolving alike
proof fn lemma_new_run(c: OrdChunk, res: spec_fn(u64) -> Option<LogicalInterval>, head: u64, cursor: u64, r: OrdChunk)
    requires
        head < cursor,
        (cursor - head) % 4096 == 0,
        res(head) is Some,
        forall|a: u64| head <= a < cursor && (a - head) % (PAGE_SIZE as int) == 0 ==> #[trigger] res(a) == res(head),
        r == (OrdChunk {
            timestamp_us: c.timestamp_us,
            vaddr: head,
            n_pages: ((cursor - head) / 4096) as u64,
            kind: res(head)->Some_0.source,
            is_written_to: c.is_written_to,
        }),
    ensures
        run_ok(r, c, res),
        r.vaddr + r.n_pages * (PAGE_SIZE as int) == cursor,
{
    let d: int = cursor - head;
    let n: int = d / 4096;
    assert(n * 4096 == d && 1 <= n <= d) by (nonlinear_arith)
        requires
            d % 4096 == 0,
            n == d / 4096,
            d > 0,
    ;
    assert(r.n_pages == n);
}

/// One more run keeps the split in order
#[verifier::spinoff_prover]
proof fn lemma_split_step(
    c: OrdChunk,
    res: spec_fn(u64) -> Option<LogicalInterval>,
    before: Seq<OrdChunk>,
    head: u64,
    cursor: u64,
    r: OrdChunk,
)
    requires
        split_prefix_ok(c, res, before, head),
        run_ok(r, c, res),
        r.vaddr == head,
        r.vaddr + r.n_pages * (PAGE_SIZE as int) == cursor,
        before.len() > 0 ==> res(before.last().vaddr) != res(head),
    ensures
        split_prefix_ok(c, res, before.push(r), cursor),
{
    let after = before.push(r);
    assert forall|k: int| 0 <= k < after.len() implies run_ok(#[trigger] after[k], c, res) by {
        if k < before.len() {
            assert(after[k] == before[k]);
        }
    }
    assert forall|k: int, l: int| 0 <= k && l == k + 1 && l < after.len() implies (#[trigger] after[k]).vaddr + after[k].n_pages * (PAGE_SIZE as int) == (#[trigger] after[l]).vaddr by {
        assert(after[k] == before[k]);
        if l < before.len() {
            assert(after[l] == before[l]);
        }
    }
    assert forall|k: int, l: int| 0 <= k && l == k + 1 && l < after.len() implies res((#[trigger] after[k]).vaddr) != res((#[trigger] after[l]).vaddr) by {
        assert(after[k] == before[k]);
        if l < before.len() {
            assert(after[l] == before[l]);
        }
    }
}

/// The next page after `cursor` does not pass `last` when both are pages from `head`
proof fn lemma_page_fits(head: int, cursor: int, last: int)
    requires
        (cursor - head) % 4096 == 0,
        (last - head) % 4096 == 0,
        cursor < last,
    ensures
        cursor + 4096 <= last,
{
    assert(cursor + 4096 <= last) by (nonlinear_arith)
        requires
            (cursor - head) % 4096 == 0,
            (last - head) % 4096 == 0,
            cursor < last,
    ;
}

/// A page of a page of `base` is a page of `base`
proof fn lemma_page_of_page(base: int, head: int, x: int)
    requires
        (head - base) % 4096 == 0,
    ensures
        ((x - head) % 4096 == 0) == ((x - base) % 4096 == 0),
{
    assert(((x - head) % 4096 == 0) == ((x - base) % 4096 == 0)) by (nonlinear_arith)
        requires
            (head - base) % 4096 == 0,
    ;
}

} // verus!
