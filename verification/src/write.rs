//! Serializing JIF structures into byte buffers

use vstd::prelude::*;
use vstd::bytes::*;
use crate::itree::interval::{DataSource, RawInterval};
use crate::itree::itree_node::RawITreeNode;
use crate::ord::{OrdChunk, ORD_FLAG_MASK, ORD_PRIVATE_FLAG, ORD_SHARED_FLAG, ORD_WRITE_FLAG, ORD_ZERO_FLAG};
use crate::pheader::JifRawPheader;
use crate::jif::{JIF_VERSION, JifRaw};
use crate::read::{jif_magic, aligned_or_max, spec_ord_kind, spec_parse_interval, spec_parse_node, spec_parse_ord, spec_parse_pheader};
use crate::utils::{PAGE_SIZE, le32_at, le64_at, page_align, spec_align_up, spec_max, spec_page_aligned, write_u32, write_u64};

verus! {

/// The bytes of an interval: start, end and offset
pub open spec fn interval_bytes(v: RawInterval) -> Seq<u8> {
    spec_u64_to_le_bytes(v.start) + spec_u64_to_le_bytes(v.end) + spec_u64_to_le_bytes(v.offset)
}

/// The bytes of a node: its three intervals
pub open spec fn node_bytes(n: RawITreeNode) -> Seq<u8> {
    interval_bytes(n.ranges@[0]) + interval_bytes(n.ranges@[1]) + interval_bytes(n.ranges@[2])
}

/// The flag bits of a kind
pub open spec fn kind_flag(k: DataSource) -> u64 {
    match k {
        DataSource::Zero => ORD_ZERO_FLAG,
        DataSource::Private => ORD_PRIVATE_FLAG,
        DataSource::Shared => ORD_SHARED_FLAG,
    }
}

/// The address of an ordering chunk with its flags
pub open spec fn ord_word(c: OrdChunk) -> u64 {
    (c.vaddr | kind_flag(c.kind)) | if c.is_written_to {
        ORD_WRITE_FLAG
    } else {
        0
    }
}

/// The bytes of an ordering chunk: flagged address, number of pages and timestamp
pub open spec fn ord_bytes(c: OrdChunk) -> Seq<u8> {
    spec_u64_to_le_bytes(ord_word(c)) + spec_u64_to_le_bytes(c.n_pages) + spec_u64_to_le_bytes(c.timestamp_us)
}

/// The bytes of a pheader
pub open spec fn pheader_bytes(p: JifRawPheader) -> Seq<u8> {
    spec_u64_to_le_bytes(p.vbegin) + spec_u64_to_le_bytes(p.vend) + spec_u64_to_le_bytes(p.ref_offset)
        + spec_u32_to_le_bytes(p.itree_idx) + spec_u32_to_le_bytes(p.itree_n_nodes) + spec_u32_to_le_bytes(
        p.pathname_offset,
    ) + seq![p.prot]
}

impl RawInterval {
    /// Write an interval
    pub fn to_writer(&self, w: &mut Vec<u8>) -> (r: usize)
        ensures
            final(w)@ == old(w)@ + interval_bytes(*self),
            r == 24,
    {
        write_u64(w, self.start);
        write_u64(w, self.end);
        write_u64(w, self.offset);
        assert(final(w)@ =~= old(w)@ + interval_bytes(*self));
        RawInterval::serialized_size()
    }
}

impl RawITreeNode {
    /// Write an interval tree node
    pub fn to_writer(&self, w: &mut Vec<u8>) -> (r: usize)
        requires
            self.wf(),
        ensures
            final(w)@ == old(w)@ + node_bytes(*self),
            r == 72,
    {
        let mut written: usize = 0;
        let mut i: usize = 0;
        let ghost start = w@;
        while i < 3
            invariant
                i <= 3,
                self.wf(),
                written == 24 * i,
                i == 0 ==> w@ == start,
                i == 1 ==> w@ == start + interval_bytes(self.ranges@[0]),
                i == 2 ==> w@ == start + interval_bytes(self.ranges@[0]) + interval_bytes(self.ranges@[1]),
                i == 3 ==> w@ == start + interval_bytes(self.ranges@[0]) + interval_bytes(self.ranges@[1])
                    + interval_bytes(self.ranges@[2]),
            decreases 3 - i,
        {
            written = written + self.ranges[i].to_writer(w);
            i = i + 1;
        }
        assert(w@ =~= start + node_bytes(*self));
        written
    }
}

impl OrdChunk {
    /// Write an ordering chunk: its address, flagged with its kind (and whether it is written
    /// to), its number of pages and its timestamp
    pub fn to_writer(&self, w: &mut Vec<u8>) -> (r: usize)
        requires
            self.vaddr & !ORD_FLAG_MASK == 0,
        ensures
            final(w)@ == old(w)@ + ord_bytes(*self),
            r == 24,
    {
        let mut vaddr = self.vaddr;
        vaddr = vaddr | match self.kind {
            DataSource::Zero => ORD_ZERO_FLAG,
            DataSource::Private => ORD_PRIVATE_FLAG,
            DataSource::Shared => ORD_SHARED_FLAG,
        };
        if self.is_written_to {
            vaddr = vaddr | ORD_WRITE_FLAG;
        } else {
            assert(vaddr | 0 == vaddr) by (bit_vector);
        }
        write_u64(w, vaddr);
        write_u64(w, self.n_pages);
        write_u64(w, self.timestamp_us);
        assert(final(w)@ =~= old(w)@ + ord_bytes(*self));
        OrdChunk::serialized_size()
    }
}

impl JifRawPheader {
    /// Write a pheader
    pub fn to_writer(&self, w: &mut Vec<u8>) -> (r: usize)
        ensures
            final(w)@ == old(w)@ + pheader_bytes(*self),
            r == 37,
    {
        write_u64(w, self.vbegin);
        write_u64(w, self.vend);
        write_u64(w, self.ref_offset);
        write_u32(w, self.itree_idx);
        write_u32(w, self.itree_n_nodes);
        write_u32(w, self.pathname_offset);
        w.push(self.prot);
        assert(final(w)@ =~= old(w)@ + pheader_bytes(*self));
        JifRawPheader::serialized_size()
    }
}

/// The `u64` written at `p` is read back
pub proof fn lemma_read_back_u64(b: Seq<u8>, p: int, v: u64)
    requires
        0 <= p,
        p + 8 <= b.len(),
        b.subrange(p, p + 8) == spec_u64_to_le_bytes(v),
    ensures
        le64_at(b, p) == v,
{
    lemma_auto_spec_u64_to_from_le_bytes();
}

/// The `u32` written at `p` is read back
pub proof fn lemma_read_back_u32(b: Seq<u8>, p: int, v: u32)
    requires
        0 <= p,
        p + 4 <= b.len(),
        b.subrange(p, p + 4) == spec_u32_to_le_bytes(v),
    ensures
        le32_at(b, p) == v,
{
    lemma_auto_spec_u32_to_from_le_bytes();
    assert(spec_u32_to_le_bytes(v).len() == 4);
    assert(spec_u32_from_le_bytes(spec_u32_to_le_bytes(v)) == v);
}

/// An interval that parsing accepts as it is
pub open spec fn interval_valid(v: RawInterval) -> bool {
    &&& aligned_or_max(v.start) && aligned_or_max(v.end) && aligned_or_max(v.offset)
    &&& (v.start == u64::MAX || v.end == u64::MAX) ==> v.start == u64::MAX && v.end == u64::MAX && v.offset == u64::MAX
    &&& (v.start != u64::MAX && v.end != u64::MAX) ==> v.start <= v.end
}

/// Reading back a written interval gives it back
pub proof fn law_interval_roundtrip(v: RawInterval, b: Seq<u8>, p: int)
    requires
        interval_valid(v),
        0 <= p,
        p + 24 <= b.len(),
        b.subrange(p, p + 24) == interval_bytes(v),
    ensures
        spec_parse_interval(b, p) == Ok::<RawInterval, crate::error::IntervalError>(v),
{
    lemma_auto_spec_u64_to_from_le_bytes();
    let w = interval_bytes(v);
    assert(b.subrange(p, p + 8) =~= w.subrange(0, 8));
    assert(b.subrange(p + 8, p + 16) =~= w.subrange(8, 16));
    assert(b.subrange(p + 16, p + 24) =~= w.subrange(16, 24));
    assert(w.subrange(0, 8) =~= spec_u64_to_le_bytes(v.start));
    assert(w.subrange(8, 16) =~= spec_u64_to_le_bytes(v.end));
    assert(w.subrange(16, 24) =~= spec_u64_to_le_bytes(v.offset));
    lemma_read_back_u64(b, p, v.start);
    lemma_read_back_u64(b, p + 8, v.end);
    lemma_read_back_u64(b, p + 16, v.offset);
}

/// Reading back a written node gives back its intervals
pub proof fn law_node_roundtrip(n: RawITreeNode, b: Seq<u8>, p: int)
    requires
        n.wf(),
        forall|k: int| 0 <= k < 3 ==> interval_valid(#[trigger] n.ranges@[k]),
        0 <= p,
        p + 72 <= b.len(),
        b.subrange(p, p + 72) == node_bytes(n),
    ensures
        spec_parse_node(b, p) == Ok::<Seq<RawInterval>, crate::error::ITreeNodeError>(n.ranges@),
{
    let w = node_bytes(n);
    lemma_auto_spec_u64_to_from_le_bytes();
    assert(interval_bytes(n.ranges@[0]).len() == 24);
    assert(interval_bytes(n.ranges@[1]).len() == 24);
    assert(interval_bytes(n.ranges@[2]).len() == 24);
    assert(b.subrange(p, p + 24) =~= w.subrange(0, 24));
    assert(b.subrange(p + 24, p + 48) =~= w.subrange(24, 48));
    assert(b.subrange(p + 48, p + 72) =~= w.subrange(48, 72));
    assert(w.subrange(0, 24) =~= interval_bytes(n.ranges@[0]));
    assert(w.subrange(24, 48) =~= interval_bytes(n.ranges@[1]));
    assert(w.subrange(48, 72) =~= interval_bytes(n.ranges@[2]));
    law_interval_roundtrip(n.ranges@[0], b, p);
    law_interval_roundtrip(n.ranges@[1], b, p + 24);
    law_interval_roundtrip(n.ranges@[2], b, p + 48);
    assert(seq![n.ranges@[0], n.ranges@[1], n.ranges@[2]] =~= n.ranges@);
}

/// A pheader that parsing accepts as it is
pub open spec fn pheader_valid(h: JifRawPheader) -> bool {
    &&& spec_page_aligned(h.vbegin as int) && spec_page_aligned(h.vend as int)
    &&& h.vbegin <= h.vend
    &&& aligned_or_max(h.ref_offset)
    &&& h.ref_offset == u64::MAX ==> h.pathname_offset == u32::MAX
}

/// Reading back a written pheader gives it back
pub proof fn law_pheader_roundtrip(h: JifRawPheader, b: Seq<u8>, p: int)
    requires
        pheader_valid(h),
        0 <= p,
        p + 37 <= b.len(),
        b.subrange(p, p + 37) == pheader_bytes(h),
    ensures
        spec_parse_pheader(b, p) == Ok::<JifRawPheader, crate::error::PheaderError>(h),
{
    let w = pheader_bytes(h);
    lemma_auto_spec_u64_to_from_le_bytes();
    lemma_auto_spec_u32_to_from_le_bytes();
    assert(b.subrange(p, p + 8) =~= w.subrange(0, 8));
    assert(b.subrange(p + 8, p + 16) =~= w.subrange(8, 16));
    assert(b.subrange(p + 16, p + 24) =~= w.subrange(16, 24));
    assert(b.subrange(p + 24, p + 28) =~= w.subrange(24, 28));
    assert(b.subrange(p + 28, p + 32) =~= w.subrange(28, 32));
    assert(b.subrange(p + 32, p + 36) =~= w.subrange(32, 36));
    assert(w.subrange(0, 8) =~= spec_u64_to_le_bytes(h.vbegin));
    assert(w.subrange(8, 16) =~= spec_u64_to_le_bytes(h.vend));
    assert(w.subrange(16, 24) =~= spec_u64_to_le_bytes(h.ref_offset));
    assert(w.subrange(24, 28) =~= spec_u32_to_le_bytes(h.itree_idx));
    assert(w.subrange(28, 32) =~= spec_u32_to_le_bytes(h.itree_n_nodes));
    assert(w.subrange(32, 36) =~= spec_u32_to_le_bytes(h.pathname_offset));
    assert(b[p + 36] == w[36]);
    lemma_read_back_u64(b, p, h.vbegin);
    lemma_read_back_u64(b, p + 8, h.vend);
    lemma_read_back_u64(b, p + 16, h.ref_offset);
    lemma_read_back_u32(b, p + 24, h.itree_idx);
    lemma_read_back_u32(b, p + 28, h.itree_n_nodes);
    lemma_read_back_u32(b, p + 32, h.pathname_offset);
}

/// An ordering chunk that writing and reading keep as it is: a page-aligned address within
/// the address bits
pub open spec fn ord_valid(c: OrdChunk) -> bool {
    &&& spec_page_aligned(c.vaddr as int)
    &&& c.vaddr & !ORD_FLAG_MASK == 0
}

/// The flags of a written chunk name its kind and whether it is written to, and leave its address
pub proof fn lemma_ord_word(c: OrdChunk)
    requires
        ord_valid(c),
    ensures
        ord_word(c) & ORD_FLAG_MASK == c.vaddr,
        spec_ord_kind(ord_word(c)) == Some(c.kind),
        (ord_word(c) & ORD_WRITE_FLAG != 0) == c.is_written_to,
        spec_page_aligned(ord_word(c) as int),
{
    let v = c.vaddr;
    let f = kind_flag(c.kind);
    let wf: u64 = if c.is_written_to { ORD_WRITE_FLAG } else { 0 };
    assert(f == 0x2000_0000_0000_0000u64 || f == 0x4000_0000_0000_0000u64 || f == 0x8000_0000_0000_0000u64);
    assert(wf == 0x1000_0000_0000_0000u64 || wf == 0);
    assert(v % 4096 == 0);
    assert((f == 0x2000_0000_0000_0000u64 || f == 0x4000_0000_0000_0000u64 || f == 0x8000_0000_0000_0000u64)
        && (wf == 0x1000_0000_0000_0000u64 || wf == 0)
        && v & !0x0fff_ffff_ffff_ffffu64 == 0 && v % 4096 == 0
        ==> ((v | f) | wf) & 0x0fff_ffff_ffff_ffffu64 == v
        && ((v | f) | wf) & !0x1fff_ffff_ffff_ffffu64 == f
        && (((v | f) | wf) & 0x1000_0000_0000_0000u64) == wf
        && ((v | f) | wf) % 4096 == 0) by (bit_vector);
}

/// Reading back a written ordering chunk gives it back
pub proof fn law_ord_roundtrip(c: OrdChunk, b: Seq<u8>, p: int)
    requires
        ord_valid(c),
        0 <= p,
        p + 24 <= b.len(),
        b.subrange(p, p + 24) == ord_bytes(c),
    ensures
        spec_parse_ord(b, p) == Ok::<OrdChunk, crate::error::OrdChunkError>(c),
{
    let w = ord_bytes(c);
    lemma_auto_spec_u64_to_from_le_bytes();
    assert(b.subrange(p, p + 8) =~= w.subrange(0, 8));
    assert(b.subrange(p + 8, p + 16) =~= w.subrange(8, 16));
    assert(b.subrange(p + 16, p + 24) =~= w.subrange(16, 24));
    assert(w.subrange(0, 8) =~= spec_u64_to_le_bytes(ord_word(c)));
    assert(w.subrange(8, 16) =~= spec_u64_to_le_bytes(c.n_pages));
    assert(w.subrange(16, 24) =~= spec_u64_to_le_bytes(c.timestamp_us));
    lemma_read_back_u64(b, p, ord_word(c));
    lemma_read_back_u64(b, p + 8, c.n_pages);
    lemma_read_back_u64(b, p + 16, c.timestamp_us);
    lemma_ord_word(c);
}

/// The bytes of the pheaders, one after the other
pub open spec fn pheaders_bytes(ps: Seq<JifRawPheader>) -> Seq<u8>
    decreases ps.len(),
{
    if ps.len() == 0 {
        seq![]
    } else {
        pheaders_bytes(ps.drop_last()) + pheader_bytes(ps.last())
    }
}

/// The bytes of the nodes, one after the other
pub open spec fn nodes_bytes(ns: Seq<RawITreeNode>) -> Seq<u8>
    decreases ns.len(),
{
    if ns.len() == 0 {
        seq![]
    } else {
        nodes_bytes(ns.drop_last()) + node_bytes(ns.last())
    }
}

/// The bytes of the ordering chunks, one after the other
pub open spec fn ords_bytes(cs: Seq<OrdChunk>) -> Seq<u8>
    decreases cs.len(),
{
    if cs.len() == 0 {
        seq![]
    } else {
        ords_bytes(cs.drop_last()) + ord_bytes(cs.last())
    }
}

/// `n` copies of a byte
pub open spec fn fill(n: int, byte: u8) -> Seq<u8> {
    Seq::new(if n > 0 { n as nat } else { 0 }, |i: int| byte)
}

/// Padding from `cursor` up to the next page boundary
pub open spec fn pad(cursor: int, byte: u8) -> Seq<u8> {
    fill(spec_align_up(cursor, PAGE_SIZE as int) - cursor, byte)
}

/// The bytes of the data segments laid out from `cursor`: zeros up to the start of each
/// segment (when the cursor is behind it), then its data
pub open spec fn segments_bytes(segs: Seq<((u64, u64), Vec<u8>)>, cursor: int) -> Seq<u8>
    decreases segs.len(),
{
    if segs.len() == 0 {
        seq![]
    } else {
        let gap = fill(segs[0].0.0 - cursor, 0);
        let after = spec_max(cursor, segs[0].0.0 as int) + segs[0].1@.len();
        gap + segs[0].1@ + segments_bytes(segs.drop_first(), after)
    }
}

/// The header written for a JIF
pub open spec fn header_bytes(raw: JifRaw) -> Seq<u8> {
    jif_magic() + spec_u32_to_le_bytes(raw.pheaders@.len() as u32) + spec_u32_to_le_bytes(
        spec_align_up(raw.strings_backing@.len() as int, PAGE_SIZE as int) as u32,
    ) + spec_u32_to_le_bytes(spec_align_up((raw.itree_nodes@.len() * 72) as int, PAGE_SIZE as int) as u32)
        + spec_u32_to_le_bytes(spec_align_up((raw.ord_chunks@.len() * 24) as int, PAGE_SIZE as int) as u32)
        + spec_u32_to_le_bytes(JIF_VERSION) + spec_u64_to_le_bytes(raw.n_prefetch)
}

/// The bytes of the tables of a JIF: header and pheaders, strings, itree nodes and ordering
/// chunks, each section padded to a page (the itree section with `0xff` bytes)
pub open spec fn tables_bytes(raw: JifRaw) -> Seq<u8> {
    let s1 = header_bytes(raw) + pheaders_bytes(raw.pheaders@);
    let s2 = s1 + pad(s1.len() as int, 0) + raw.strings_backing@;
    let s3 = s2 + pad(s2.len() as int, 0) + nodes_bytes(raw.itree_nodes@);
    let s4 = s3 + pad(s3.len() as int, 0xff) + ords_bytes(raw.ord_chunks@);
    s4 + pad(s4.len() as int, 0)
}

/// Number of zero bytes written between the tables (of `t` bytes) and the data section: whole
/// pages, as many as fit before the data offset
pub open spec fn gap_to_data(t: int, data_offset: int) -> int {
    if t < data_offset {
        ((data_offset - t) / (PAGE_SIZE as int)) * (PAGE_SIZE as int)
    } else {
        0
    }
}

/// The bytes of a JIF: its tables, zero pages up to the data section, then the data segments
pub open spec fn jif_bytes(raw: JifRaw) -> Seq<u8> {
    let t = tables_bytes(raw);
    let z = gap_to_data(t.len() as int, raw.data_offset as int);
    t + fill(z, 0) + segments_bytes(raw.data_segments@, t.len() + z)
}

/// Append `n` copies of a byte
fn write_fill(w: &mut Vec<u8>, n: usize, byte: u8)
    ensures
        final(w)@ == old(w)@ + fill(n as int, byte),
{
    let mut i: usize = 0;
    let ghost start = w@;
    while i < n
        invariant
            i <= n,
            w@ == start + fill(i as int, byte),
        decreases n - i,
    {
        w.push(byte);
        assert(w@ =~= start + fill(i + 1, byte));
        i = i + 1;
    }
}

/// Append the padding from `cursor` to the next page boundary, returning its length
fn write_pad(w: &mut Vec<u8>, cursor: usize, byte: u8) -> (r: usize)
    requires
        spec_align_up(cursor as int, PAGE_SIZE as int) <= usize::MAX,
    ensures
        final(w)@ == old(w)@ + pad(cursor as int, byte),
        r == spec_align_up(cursor as int, PAGE_SIZE as int) - cursor,
{
    proof {
        crate::utils::lemma_align_up(cursor as int, PAGE_SIZE as int);
    }
    let delta = cursor % PAGE_SIZE;
    let n = if delta == 0 {
        0
    } else {
        PAGE_SIZE - delta
    };
    write_fill(w, n, byte);
    n
}

impl JifRaw {
    /// The layout can be written: the data section starts after the tables, the segments hold
    /// as many bytes as their ranges, the ordering chunks carry no flag bits in their addresses
    /// and the sizes fit the machine
    pub open spec fn writable(&self) -> bool {
        &&& forall|i: int| 0 <= i < self.itree_nodes@.len() ==> (#[trigger] self.itree_nodes@[i]).wf()
        &&& forall|i: int| 0 <= i < self.ord_chunks@.len() ==> (#[trigger] self.ord_chunks@[i]).vaddr & !ORD_FLAG_MASK == 0
        &&& forall|i: int| 0 <= i < self.data_segments@.len() ==> (#[trigger] self.data_segments@[i]).1@.len()
            == self.data_segments@[i].0.1 - self.data_segments@[i].0.0
        &&& tables_bytes(*self).len() <= self.data_offset
        &&& self.data_offset <= usize::MAX
        &&& self.strings_backing@.len() + 2 * PAGE_SIZE <= u64::MAX
        &&& self.itree_nodes@.len() * 72 + 2 * PAGE_SIZE <= u64::MAX
        &&& self.ord_chunks@.len() * 24 + 2 * PAGE_SIZE <= u64::MAX
    }

    /// Write the header
    fn write_header(&self, w: &mut Vec<u8>)
        requires
            self.strings_backing@.len() + 2 * PAGE_SIZE <= u64::MAX,
            self.itree_nodes@.len() * 72 + 2 * PAGE_SIZE <= u64::MAX,
            self.ord_chunks@.len() * 24 + 2 * PAGE_SIZE <= u64::MAX,
        ensures
            final(w)@ == old(w)@ + header_bytes(*self),
    {
        proof {
            crate::utils::lemma_align_up(self.strings_backing@.len() as int, PAGE_SIZE as int);
            crate::utils::lemma_align_up((self.itree_nodes@.len() * 72) as int, PAGE_SIZE as int);
            crate::utils::lemma_align_up((self.ord_chunks@.len() * 24) as int, PAGE_SIZE as int);
        }
        let n_pheaders = self.pheaders.len() as u32;
        let strings_size = page_align(self.strings_backing.len() as u64) as u32;
        let itrees_size = page_align(self.itree_nodes.len() as u64 * 72) as u32;
        let ord_size = page_align(self.ord_chunks.len() as u64 * 24) as u32;
        w.push(0x77);
        w.push(0x4a);
        w.push(0x49);
        w.push(0x46);
        write_u32(w, n_pheaders);
        write_u32(w, strings_size);
        write_u32(w, itrees_size);
        write_u32(w, ord_size);
        write_u32(w, JIF_VERSION);
        write_u64(w, self.n_prefetch);
        assert(final(w)@ =~= old(w)@ + header_bytes(*self));
    }

    /// Write the tables: header and pheaders, strings, itree nodes and ordering chunks, each
    /// section padded to a page
    #[verifier::rlimit(40)]
    fn write_tables(&self, w: &mut Vec<u8>)
        requires
            forall|i: int| 0 <= i < self.itree_nodes@.len() ==> (#[trigger] self.itree_nodes@[i]).wf(),
            forall|i: int| 0 <= i < self.ord_chunks@.len() ==> (#[trigger] self.ord_chunks@[i]).vaddr & !ORD_FLAG_MASK == 0,
            self.strings_backing@.len() + 2 * PAGE_SIZE <= u64::MAX,
            self.itree_nodes@.len() * 72 + 2 * PAGE_SIZE <= u64::MAX,
            self.ord_chunks@.len() * 24 + 2 * PAGE_SIZE <= u64::MAX,
            old(w)@.len() + tables_bytes(*self).len() + 2 * PAGE_SIZE <= usize::MAX,
        ensures
            final(w)@ == old(w)@ + tables_bytes(*self),
    {
        let ghost start = w@;
        let ghost s1 = header_bytes(*self) + pheaders_bytes(self.pheaders@);
        let ghost s2 = s1 + pad(s1.len() as int, 0) + self.strings_backing@;
        let ghost s3 = s2 + pad(s2.len() as int, 0) + nodes_bytes(self.itree_nodes@);
        let ghost s4 = s3 + pad(s3.len() as int, 0xff) + ords_bytes(self.ord_chunks@);
        assert(tables_bytes(*self) == s4 + pad(s4.len() as int, 0));
        let base = w.len();
        self.write_header(w);
        write_pheaders(&self.pheaders, w);
        assert(w@ =~= start + s1);
        proof {
            crate::utils::lemma_align_up(s1.len() as int, PAGE_SIZE as int);
        }
        write_pad(w, w.len() - base, 0);
        let mut copy = crate::utils::copy_bytes(self.strings_backing.as_slice());
        w.append(&mut copy);
        assert(w@ =~= start + s2);
        proof {
            crate::utils::lemma_align_up(s2.len() as int, PAGE_SIZE as int);
        }
        write_pad(w, w.len() - base, 0);
        write_nodes(&self.itree_nodes, w);
        assert(w@ =~= start + s3);
        proof {
            crate::utils::lemma_align_up(s3.len() as int, PAGE_SIZE as int);
        }
        write_pad(w, w.len() - base, 0xff);
        write_ords(&self.ord_chunks, w);
        assert(w@ =~= start + s4);
        proof {
            crate::utils::lemma_align_up(s4.len() as int, PAGE_SIZE as int);
        }
        write_pad(w, w.len() - base, 0);
        assert(w@ =~= start + tables_bytes(*self));
    }

    /// Write a JIF, returning the number of bytes written
    pub fn to_writer(&self, w: &mut Vec<u8>) -> (r: usize)
        requires
            self.writable(),
            old(w)@.len() + jif_bytes(*self).len() + 2 * PAGE_SIZE <= usize::MAX,
        ensures
            final(w)@ == old(w)@ + jif_bytes(*self),
            r == jif_bytes(*self).len(),
    {
        let ghost start = w@;
        let ghost tb = tables_bytes(*self);
        let base = w.len();
        self.write_tables(w);
        let cursor = w.len() - base;
        let data_offset = self.data_offset as usize;
        if cursor < data_offset {
            let n_pages = (data_offset - cursor) / PAGE_SIZE;
            assert(n_pages * PAGE_SIZE <= data_offset - cursor) by (nonlinear_arith)
                requires
                    n_pages == (data_offset - cursor) / 4096,
                    PAGE_SIZE == 4096,
            ;
            write_fill(w, n_pages * PAGE_SIZE, 0);
        }
        let cursor = w.len() - base;
        write_segments(&self.data_segments, w, cursor);
        assert(w@ =~= start + jif_bytes(*self));
        w.len() - base
    }
}

/// Write the pheaders, one after the other
fn write_pheaders(ps: &Vec<JifRawPheader>, w: &mut Vec<u8>)
    ensures
        final(w)@ == old(w)@ + pheaders_bytes(ps@),
{
    let ghost start = w@;
    let mut k: usize = 0;
    assert(pheaders_bytes(ps@.take(0)) =~= Seq::<u8>::empty());
    assert(start + Seq::<u8>::empty() =~= start);
    while k < ps.len()
        invariant
            k <= ps@.len(),
            w@ == start + pheaders_bytes(ps@.take(k as int)),
        decreases ps@.len() - k,
    {
        assert(ps@.take(k + 1).drop_last() =~= ps@.take(k as int));
        assert(ps@.take(k + 1).last() == ps@[k as int]);
        ps[k].to_writer(w);
        assert(w@ =~= start + pheaders_bytes(ps@.take(k + 1)));
        k = k + 1;
    }
    assert(ps@.take(k as int) =~= ps@);
}

/// Write the nodes, one after the other
fn write_nodes(ns: &Vec<RawITreeNode>, w: &mut Vec<u8>)
    requires
        forall|i: int| 0 <= i < ns@.len() ==> (#[trigger] ns@[i]).wf(),
    ensures
        final(w)@ == old(w)@ + nodes_bytes(ns@),
{
    let ghost start = w@;
    let mut k: usize = 0;
    assert(nodes_bytes(ns@.take(0)) =~= Seq::<u8>::empty());
    assert(start + Seq::<u8>::empty() =~= start);
    while k < ns.len()
        invariant
            k <= ns@.len(),
            forall|i: int| 0 <= i < ns@.len() ==> (#[trigger] ns@[i]).wf(),
            w@ == start + nodes_bytes(ns@.take(k as int)),
        decreases ns@.len() - k,
    {
        assert(ns@.take(k + 1).drop_last() =~= ns@.take(k as int));
        assert(ns@.take(k + 1).last() == ns@[k as int]);
        assert(ns@[k as int].wf());
        ns[k].to_writer(w);
        assert(w@ =~= start + nodes_bytes(ns@.take(k + 1)));
        k = k + 1;
    }
    assert(ns@.take(k as int) =~= ns@);
}

/// Write the ordering chunks, one after the other
fn write_ords(cs: &Vec<OrdChunk>, w: &mut Vec<u8>)
    requires
        forall|i: int| 0 <= i < cs@.len() ==> (#[trigger] cs@[i]).vaddr & !ORD_FLAG_MASK == 0,
    ensures
        final(w)@ == old(w)@ + ords_bytes(cs@),
{
    let ghost start = w@;
    let mut k: usize = 0;
    assert(ords_bytes(cs@.take(0)) =~= Seq::<u8>::empty());
    assert(start + Seq::<u8>::empty() =~= start);
    while k < cs.len()
        invariant
            k <= cs@.len(),
            forall|i: int| 0 <= i < cs@.len() ==> (#[trigger] cs@[i]).vaddr & !ORD_FLAG_MASK == 0,
            w@ == start + ords_bytes(cs@.take(k as int)),
        decreases cs@.len() - k,
    {
        assert(cs@.take(k + 1).drop_last() =~= cs@.take(k as int));
        assert(cs@.take(k + 1).last() == cs@[k as int]);
        assert(cs@[k as int].vaddr & !ORD_FLAG_MASK == 0);
        cs[k].to_writer(w);
        assert(w@ =~= start + ords_bytes(cs@.take(k + 1)));
        k = k + 1;
    }
    assert(cs@.take(k as int) =~= cs@);
}

/// Write the data segments from `cursor`
fn write_segments(segs: &Vec<((u64, u64), Vec<u8>)>, w: &mut Vec<u8>, cursor: usize)
    requires
        old(w)@.len() + segments_bytes(segs@, cursor as int).len() <= usize::MAX,
        cursor <= old(w)@.len(),
    ensures
        final(w)@ == old(w)@ + segments_bytes(segs@, cursor as int),
{
    let ghost target = old(w)@ + segments_bytes(segs@, cursor as int);
    let ghost base = old(w)@.len() - cursor;
    let mut cursor = cursor;
    let mut k: usize = 0;
    assert(segs@.skip(0) =~= segs@);
    while k < segs.len()
        invariant
            k <= segs@.len(),
            w@ + segments_bytes(segs@.skip(k as int), cursor as int) == target,
            w@.len() == base + cursor,
            0 <= base,
            target.len() <= usize::MAX,
        decreases segs@.len() - k,
    {
        let ghost rest = segs@.skip(k as int);
        assert(rest[0] == segs@[k as int]);
        assert(rest.drop_first() =~= segs@.skip(k + 1));
        let ghost before = w@;
        let seg_start = segs[k].0.0;
        if (cursor as u64) < seg_start {
            let gap = (seg_start - cursor as u64) as usize;
            write_fill(w, gap, 0);
            cursor = cursor + gap;
        }
        let data = &segs[k].1;
        let mut copy = crate::utils::copy_bytes(data.as_slice());
        w.append(&mut copy);
        cursor = cursor + data.len();
        assert(w@ + segments_bytes(segs@.skip(k + 1), cursor as int) =~= target);
        k = k + 1;
    }
    assert(segs@.skip(k as int) =~= Seq::<((u64, u64), Vec<u8>)>::empty());
    assert(w@ =~= target);
}

/// The pheaders take 37 bytes each
pub proof fn lemma_pheaders_bytes_len(ps: Seq<JifRawPheader>)
    ensures
        pheaders_bytes(ps).len() == 37 * ps.len(),
    decreases ps.len(),
{
    lemma_auto_spec_u64_to_from_le_bytes();
    lemma_auto_spec_u32_to_from_le_bytes();
    if ps.len() > 0 {
        lemma_pheaders_bytes_len(ps.drop_last());
        let h = ps.last();
        assert(spec_u64_to_le_bytes(h.vbegin).len() == 8);
        assert(spec_u64_to_le_bytes(h.vend).len() == 8);
        assert(spec_u64_to_le_bytes(h.ref_offset).len() == 8);
        assert(spec_u32_to_le_bytes(h.itree_idx).len() == 4);
        assert(spec_u32_to_le_bytes(h.itree_n_nodes).len() == 4);
        assert(spec_u32_to_le_bytes(h.pathname_offset).len() == 4);
    }
}

/// Prefixes of the node bytes are no longer than the whole
pub proof fn lemma_nodes_bytes_prefix(ns: Seq<RawITreeNode>, k: int)
    requires
        0 <= k <= ns.len(),
    ensures
        nodes_bytes(ns.take(k)).len() <= nodes_bytes(ns).len(),
    decreases ns.len() - k,
{
    if k < ns.len() {
        lemma_nodes_bytes_prefix(ns, k + 1);
        assert(ns.take(k + 1).drop_last() =~= ns.take(k));
    } else {
        assert(ns.take(k) =~= ns);
    }
}

/// Prefixes of the chunk bytes are no longer than the whole
pub proof fn lemma_ords_bytes_prefix(cs: Seq<OrdChunk>, k: int)
    requires
        0 <= k <= cs.len(),
    ensures
        ords_bytes(cs.take(k)).len() <= ords_bytes(cs).len(),
    decreases cs.len() - k,
{
    if k < cs.len() {
        lemma_ords_bytes_prefix(cs, k + 1);
        assert(cs.take(k + 1).drop_last() =~= cs.take(k));
    } else {
        assert(cs.take(k) =~= cs);
    }
}

} // verus!
