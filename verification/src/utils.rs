//! Alignment arithmetic, page inspection and little-endian field access

use vstd::prelude::*;
use vstd::bytes::*;
use vstd::slice::*;

verus! {

/// Size of a memory page (in bytes)
pub const PAGE_SIZE: usize = 0x1000;

/// Smallest multiple of `alignment` that is not smaller than `val`
pub open spec fn spec_align_up(val: int, alignment: int) -> int {
    if val % alignment == 0 {
        val
    } else {
        val + alignment - val % alignment
    }
}

/// Largest multiple of `alignment` that is not greater than `val`
pub open spec fn spec_align_down(val: int, alignment: int) -> int {
    val - val % alignment
}

/// Whether a value is a multiple of the page size
pub open spec fn spec_page_aligned(v: int) -> bool {
    v % (PAGE_SIZE as int) == 0
}

/// The aligned-up value is aligned, is not smaller than the input and is within one alignment
/// step of it.
pub proof fn lemma_align_up(val: int, alignment: int)
    requires
        val >= 0,
        alignment > 0,
    ensures
        spec_align_up(val, alignment) % alignment == 0,
        val <= spec_align_up(val, alignment) < val + alignment,
        val % alignment == 0 ==> spec_align_up(val, alignment) == val,
{
    let r = val % alignment;
    assert(0 <= r < alignment) by (nonlinear_arith)
        requires alignment > 0, r == val % alignment;
    if r != 0 {
        assert((val + alignment - r) % alignment == 0) by (nonlinear_arith)
            requires alignment > 0, r == val % alignment;
    }
}

/// The aligned-down value is aligned, is not greater than the input and is within one
/// alignment step of it.
pub proof fn lemma_align_down(val: int, alignment: int)
    requires
        val >= 0,
        alignment > 0,
    ensures
        spec_align_down(val, alignment) % alignment == 0,
        val - alignment < spec_align_down(val, alignment) <= val,
        0 <= spec_align_down(val, alignment),
{
    let r = val % alignment;
    assert(0 <= r < alignment) by (nonlinear_arith)
        requires alignment > 0, r == val % alignment;
    assert((val - r) % alignment == 0) by (nonlinear_arith)
        requires alignment > 0, r == val % alignment;
    assert(val - r >= 0) by (nonlinear_arith)
        requires alignment > 0, r == val % alignment, val >= 0;
}

/// Check whether `v` is a multiple of `alignment`
pub fn is_aligned(v: u64, alignment: u64) -> (r: bool)
    requires
        alignment > 0,
    ensures
        r == (v % alignment == 0),
{
    v % alignment == 0
}

/// Check whether `v` is page aligned
pub fn is_page_aligned(v: u64) -> (r: bool)
    ensures
        r == spec_page_aligned(v as int),
{
    is_aligned(v, PAGE_SIZE as u64)
}

/// Round `val` up to the next multiple of `alignment`
pub fn align(val: u64, alignment: u64) -> (r: u64)
    requires
        alignment > 0,
        spec_align_up(val as int, alignment as int) <= u64::MAX,
    ensures
        r == spec_align_up(val as int, alignment as int),
{
    let delta = val % alignment;
    if delta != 0 {
        val + (alignment - delta)
    } else {
        val
    }
}

/// Round `val` up to the next page boundary
pub fn page_align(val: u64) -> (r: u64)
    requires
        spec_align_up(val as int, PAGE_SIZE as int) <= u64::MAX,
    ensures
        r == spec_align_up(val as int, PAGE_SIZE as int),
        spec_page_aligned(r as int),
        val <= r < val + PAGE_SIZE,
{
    proof {
        lemma_align_up(val as int, PAGE_SIZE as int);
    }
    align(val, PAGE_SIZE as u64)
}

/// Round `val` down to a multiple of `alignment`
pub fn align_down(val: u64, alignment: u64) -> (r: u64)
    requires
        alignment > 0,
    ensures
        r == spec_align_down(val as int, alignment as int),
{
    proof {
        lemma_align_down(val as int, alignment as int);
    }
    let delta = val % alignment;
    if delta != 0 {
        val - delta
    } else {
        val
    }
}

/// Round `val` down to a page boundary
pub fn page_align_down(val: u64) -> (r: u64)
    ensures
        r == spec_align_down(val as int, PAGE_SIZE as int),
        spec_page_aligned(r as int),
        r <= val < r + PAGE_SIZE,
{
    proof {
        lemma_align_down(val as int, PAGE_SIZE as int);
    }
    align_down(val, PAGE_SIZE as u64)
}

/// The position reached by moving forward from `cur` to the next page boundary
pub fn seek_to_page(cur: u64) -> (r: u64)
    requires
        spec_align_up(cur as int, PAGE_SIZE as int) <= u64::MAX,
    ensures
        r == spec_align_up(cur as int, PAGE_SIZE as int),
{
    page_align(cur)
}

/// All bytes of `s` are zero
pub open spec fn spec_all_zero(s: Seq<u8>) -> bool {
    forall|i: int| 0 <= i < s.len() ==> s[i] == 0
}

/// Result of comparing an overlay page against a base page
#[derive(Debug, Clone, Copy, PartialEq, Eq, Structural)]
pub enum PageCmp {
    Same,
    Diff,
    Zero,
}

/// Check whether a page only holds zeroes (the page is scanned in 16-byte words)
pub fn is_zero(page: &[u8]) -> (r: bool)
    requires
        page@.len() % 16 == 0,
    ensures
        r == spec_all_zero(page@),
{
    let mut i: usize = 0;
    while i < page.len()
        invariant
            i <= page@.len(),
            forall|j: int| 0 <= j < i ==> page@[j] == 0,
        decreases page@.len() - i,
    {
        if page[i] != 0 {
            return false;
        }
        i = i + 1;
    }
    true
}

/// Byte-wise equality of two slices
pub fn bytes_eq(a: &[u8], b: &[u8]) -> (r: bool)
    ensures
        r == (a@ == b@),
{
    if a.len() != b.len() {
        return false;
    }
    let mut i: usize = 0;
    while i < a.len()
        invariant
            i <= a@.len(),
            a@.len() == b@.len(),
            forall|j: int| 0 <= j < i ==> a@[j] == b@[j],
        decreases a@.len() - i,
    {
        if a[i] != b[i] {
            return false;
        }
        i = i + 1;
    }
    assert(a@ =~= b@);
    true
}

/// Classification of an overlay page with respect to a base page
pub open spec fn spec_compare_pages(base: Seq<u8>, overlay: Seq<u8>) -> PageCmp {
    if spec_all_zero(overlay) {
        PageCmp::Zero
    } else if base == overlay {
        PageCmp::Same
    } else {
        PageCmp::Diff
    }
}

/// Compare an overlay page with a base page
pub fn compare_pages(base: &[u8], overlay: &[u8]) -> (r: PageCmp)
    requires
        overlay@.len() % 16 == 0,
    ensures
        r == spec_compare_pages(base@, overlay@),
        spec_all_zero(overlay@) ==> r == PageCmp::Zero,
        !spec_all_zero(overlay@) ==> (r == PageCmp::Same <==> base@ == overlay@),
        !spec_all_zero(overlay@) ==> (r == PageCmp::Diff <==> base@ != overlay@),
{
    if is_zero(overlay) {
        return PageCmp::Zero;
    }
    if bytes_eq(base, overlay) {
        PageCmp::Same
    } else {
        PageCmp::Diff
    }
}

/// Read a byte at `pos`
pub fn read_u8(bytes: &[u8], pos: usize) -> (r: Option<u8>)
    ensures
        match r {
            Some(v) => pos < bytes@.len() && v == bytes@[pos as int],
            None => pos >= bytes@.len(),
        },
{
    if pos < bytes.len() {
        Some(bytes[pos])
    } else {
        None
    }
}

/// Read a little-endian `u32` at `pos`
pub fn read_u32(bytes: &[u8], pos: usize) -> (r: Option<u32>)
    ensures
        match r {
            Some(v) => pos + 4 <= bytes@.len() && v == spec_u32_from_le_bytes(
                bytes@.subrange(pos as int, pos + 4),
            ),
            None => pos + 4 > bytes@.len(),
        },
{
    if pos <= bytes.len() && bytes.len() - pos >= 4 {
        Some(u32_from_le_bytes(slice_subrange(bytes, pos, pos + 4)))
    } else {
        None
    }
}

/// Read a little-endian `u64` at `pos`
pub fn read_u64(bytes: &[u8], pos: usize) -> (r: Option<u64>)
    ensures
        match r {
            Some(v) => pos + 8 <= bytes@.len() && v == spec_u64_from_le_bytes(
                bytes@.subrange(pos as int, pos + 8),
            ),
            None => pos + 8 > bytes@.len(),
        },
{
    if pos <= bytes.len() && bytes.len() - pos >= 8 {
        Some(u64_from_le_bytes(slice_subrange(bytes, pos, pos + 8)))
    } else {
        None
    }
}

/// Append the little-endian encoding of a `u32`
pub fn write_u32(out: &mut Vec<u8>, v: u32)
    ensures
        final(out)@ == old(out)@ + spec_u32_to_le_bytes(v),
{
    let mut b = u32_to_le_bytes(v);
    out.append(&mut b);
}

/// Append the little-endian encoding of a `u64`
pub fn write_u64(out: &mut Vec<u8>, v: u64)
    ensures
        final(out)@ == old(out)@ + spec_u64_to_le_bytes(v),
{
    let mut b = u64_to_le_bytes(v);
    out.append(&mut b);
}

/// Copy a slice of bytes into an owned vector
pub fn copy_bytes(s: &[u8]) -> (r: Vec<u8>)
    ensures
        r@ == s@,
{
    slice_to_vec(s)
}

/// The little-endian `u64` at `pos`
pub open spec fn le64_at(b: Seq<u8>, pos: int) -> u64 {
    spec_u64_from_le_bytes(b.subrange(pos, pos + 8))
}

/// The little-endian `u32` at `pos`
pub open spec fn le32_at(b: Seq<u8>, pos: int) -> u32 {
    spec_u32_from_le_bytes(b.subrange(pos, pos + 4))
}

/// A cursor over a byte buffer
pub struct ByteReader<'a> {
    pub bytes: &'a [u8],
    pub pos: usize,
}

impl<'a> ByteReader<'a> {
    /// A cursor at the start of `bytes`
    pub fn new(bytes: &'a [u8]) -> (r: Self)
        ensures
            r.bytes@ == bytes@,
            r.pos == 0,
    {
        ByteReader { bytes, pos: 0 }
    }

    /// Read a byte
    pub fn read_u8(&mut self) -> (r: Option<u8>)
        ensures
            final(self).bytes == old(self).bytes,
            match r {
                Some(v) => old(self).pos + 1 <= old(self).bytes@.len() && v == old(self).bytes@[old(self).pos as int]
                    && final(self).pos == old(self).pos + 1,
                None => old(self).pos + 1 > old(self).bytes@.len(),
            },
    {
        let v = read_u8(self.bytes, self.pos);
        let len = self.bytes.len();
        if v.is_some() {
            assert(self.pos + 1 <= len);
            self.pos = self.pos + 1;
        }
        v
    }

    /// Read a little-endian `u32`
    pub fn read_u32(&mut self) -> (r: Option<u32>)
        ensures
            final(self).bytes == old(self).bytes,
            match r {
                Some(v) => old(self).pos + 4 <= old(self).bytes@.len() && v == le32_at(old(self).bytes@, old(self).pos as int)
                    && final(self).pos == old(self).pos + 4,
                None => old(self).pos + 4 > old(self).bytes@.len(),
            },
    {
        let v = read_u32(self.bytes, self.pos);
        let len = self.bytes.len();
        if v.is_some() {
            assert(self.pos + 4 <= len);
            self.pos = self.pos + 4;
        }
        v
    }

    /// Read a little-endian `u64`
    pub fn read_u64(&mut self) -> (r: Option<u64>)
        ensures
            final(self).bytes == old(self).bytes,
            match r {
                Some(v) => old(self).pos + 8 <= old(self).bytes@.len() && v == le64_at(old(self).bytes@, old(self).pos as int)
                    && final(self).pos == old(self).pos + 8,
                None => old(self).pos + 8 > old(self).bytes@.len(),
            },
    {
        let v = read_u64(self.bytes, self.pos);
        let len = self.bytes.len();
        if v.is_some() {
            assert(self.pos + 8 <= len);
            self.pos = self.pos + 8;
        }
        v
    }

    /// Read up to `n` bytes (fewer when the buffer ends first)
    pub fn read_upto(&mut self, n: u64) -> (r: Vec<u8>)
        ensures
            final(self).bytes == old(self).bytes,
            r@ == old(self).bytes@.subrange(
                spec_min(old(self).pos as int, old(self).bytes@.len() as int),
                spec_min(old(self).pos + n, old(self).bytes@.len() as int),
            ),
            final(self).pos == spec_max(old(self).pos as int, spec_min(old(self).pos + n, old(self).bytes@.len() as int)),
    {
        let len = self.bytes.len();
        if self.pos >= len {
            return Vec::new();
        }
        let avail = (len - self.pos) as u64;
        let take = if n < avail {
            n as usize
        } else {
            len - self.pos
        };
        let end = self.pos + take;
        let v = slice_to_vec(slice_subrange(self.bytes, self.pos, end));
        self.pos = end;
        v
    }

    /// Move forward to the next page boundary, returning the new position
    pub fn seek_to_page(&mut self) -> (r: Option<u64>)
        ensures
            final(self).bytes == old(self).bytes,
            match r {
                Some(p) => p == spec_align_up(old(self).pos as int, PAGE_SIZE as int) && final(self).pos == p,
                None => spec_align_up(old(self).pos as int, PAGE_SIZE as int) > usize::MAX,
            },
    {
        proof {
            lemma_align_up(self.pos as int, PAGE_SIZE as int);
        }
        let p = self.pos as u64;
        let delta = p % PAGE_SIZE as u64;
        if delta == 0 {
            return Some(p);
        }
        let step = PAGE_SIZE - delta as usize;
        if self.pos > usize::MAX - step {
            return None;
        }
        self.pos = self.pos + step;
        Some(self.pos as u64)
    }
}

/// The smaller of two integers
pub open spec fn spec_min(a: int, b: int) -> int {
    if a < b {
        a
    } else {
        b
    }
}

/// The larger of two integers
pub open spec fn spec_max(a: int, b: int) -> int {
    if a < b {
        b
    } else {
        a
    }
}

} // verus!
