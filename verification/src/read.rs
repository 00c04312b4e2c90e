//! Parsing JIF structures out of byte buffers

use vstd::prelude::*;
use vstd::bytes::*;
use crate::error::{JifError, JifResult, IntervalError, IntervalResult, ITreeNodeError, ITreeNodeResult, OrdChunkError, OrdChunkResult, PheaderError, PheaderResult};
use crate::itree::interval::{DataSource, RawInterval};
use crate::itree::itree_node::RawITreeNode;
use crate::ord::{OrdChunk, ORD_FLAG_MASK, ORD_KIND_MASK, ORD_PRIVATE_FLAG, ORD_SHARED_FLAG, ORD_WRITE_FLAG, ORD_ZERO_FLAG};
use crate::pheader::JifRawPheader;
use crate::deduper::DedupToken;
use crate::jif::{JIF_VERSION, Jif, JifHeaderBinary, JifRaw, anon_tree_from, materialized_from, materializes, pheader_materializes, ref_tree_from};
use crate::utils::{ByteReader, PAGE_SIZE, is_page_aligned, le32_at, le64_at, spec_align_up, spec_max, spec_min, spec_page_aligned};

verus! {

/// A page-aligned value, or the special value `u64::MAX`
pub open spec fn aligned_or_max(v: u64) -> bool {
    v == u64::MAX || spec_page_aligned(v as int)
}

/// The interval read from three fields (each checked once read)
pub open spec fn spec_interval_fields(s: u64, e: u64, o: u64) -> IntervalResult<RawInterval> {
    if s == u64::MAX || e == u64::MAX {
        if s == e && o == u64::MAX {
            Ok(RawInterval { start: u64::MAX, end: u64::MAX, offset: u64::MAX })
        } else {
            Err(IntervalError::InvalidInterval(s, e, o))
        }
    } else if s > e {
        Err(IntervalError::BadRange(s, e))
    } else {
        Ok(RawInterval { start: s, end: e, offset: o })
    }
}

/// Parsing an interval at `p`: each field is read and checked in turn
pub open spec fn spec_parse_interval(b: Seq<u8>, p: int) -> IntervalResult<RawInterval> {
    if p + 8 > b.len() {
        Err(IntervalError::UnexpectedEof)
    } else if !aligned_or_max(le64_at(b, p)) {
        Err(IntervalError::BadAlignment(le64_at(b, p)))
    } else if p + 16 > b.len() {
        Err(IntervalError::UnexpectedEof)
    } else if !aligned_or_max(le64_at(b, p + 8)) {
        Err(IntervalError::BadAlignment(le64_at(b, p + 8)))
    } else if p + 24 > b.len() {
        Err(IntervalError::UnexpectedEof)
    } else if !aligned_or_max(le64_at(b, p + 16)) {
        Err(IntervalError::BadAlignment(le64_at(b, p + 16)))
    } else {
        spec_interval_fields(le64_at(b, p), le64_at(b, p + 8), le64_at(b, p + 16))
    }
}

/// A field of an interval, checked as it is read
fn read_interval_field(r: &mut ByteReader) -> (res: IntervalResult<u64>)
    ensures
        final(r).bytes == old(r).bytes,
        match res {
            Ok(v) => old(r).pos + 8 <= old(r).bytes@.len() && v == le64_at(old(r).bytes@, old(r).pos as int)
                && aligned_or_max(v) && final(r).pos == old(r).pos + 8,
            Err(e) => (old(r).pos + 8 > old(r).bytes@.len() && e == IntervalError::UnexpectedEof) || (old(r).pos + 8
                <= old(r).bytes@.len() && !aligned_or_max(le64_at(old(r).bytes@, old(r).pos as int)) && e
                == IntervalError::BadAlignment(le64_at(old(r).bytes@, old(r).pos as int))),
        },
{
    match r.read_u64() {
        None => Err(IntervalError::UnexpectedEof),
        Some(v) => {
            if v == u64::MAX {
                Ok(v)
            } else if !is_page_aligned(v) {
                Err(IntervalError::BadAlignment(v))
            } else {
                Ok(v)
            }
        },
    }
}

impl RawInterval {
    /// Read and parse a RawInterval
    pub fn from_reader(r: &mut ByteReader) -> (res: IntervalResult<Self>)
        ensures
            final(r).bytes == old(r).bytes,
            res == spec_parse_interval(old(r).bytes@, old(r).pos as int),
            res is Ok ==> final(r).pos == old(r).pos + 24,
    {
        let start = read_interval_field(r)?;
        let end = read_interval_field(r)?;
        let offset = read_interval_field(r)?;
        if start == u64::MAX || end == u64::MAX {
            if start == end && offset == u64::MAX {
                return Ok(RawInterval::default());
            } else {
                return Err(IntervalError::InvalidInterval(start, end, offset));
            }
        }
        if start > end {
            return Err(IntervalError::BadRange(start, end));
        }
        Ok(RawInterval::new(start, end, offset))
    }
}

/// Parsing a node at `p`: its three intervals in turn
pub open spec fn spec_parse_node(b: Seq<u8>, p: int) -> ITreeNodeResult<Seq<RawInterval>> {
    match spec_parse_interval(b, p) {
        Err(e) => Err(ITreeNodeError::Interval { interval_idx: 0, interval_err: e }),
        Ok(i0) => match spec_parse_interval(b, p + 24) {
            Err(e) => Err(ITreeNodeError::Interval { interval_idx: 1, interval_err: e }),
            Ok(i1) => match spec_parse_interval(b, p + 48) {
                Err(e) => Err(ITreeNodeError::Interval { interval_idx: 2, interval_err: e }),
                Ok(i2) => Ok(seq![i0, i1, i2]),
            },
        },
    }
}

impl RawITreeNode {
    /// Read and parse a RawITreeNode
    pub fn from_reader(r: &mut ByteReader) -> (res: ITreeNodeResult<Self>)
        ensures
            final(r).bytes == old(r).bytes,
            match spec_parse_node(old(r).bytes@, old(r).pos as int) {
                Ok(s) => res matches Ok(node) && node.ranges@ == s && node.wf() && final(r).pos == old(r).pos + 72,
                Err(e) => res == Err::<RawITreeNode, ITreeNodeError>(e),
            },
    {
        let mut ranges: Vec<RawInterval> = Vec::new();
        let ghost p = r.pos as int;
        let ghost b = r.bytes@;
        let mut interval_idx: usize = 0;
        while interval_idx < 3
            invariant
                interval_idx <= 3,
                r.bytes == old(r).bytes,
                b == old(r).bytes@,
                p == old(r).pos,
                r.bytes@ == b,
                r.pos == p + 24 * interval_idx,
                ranges@.len() == interval_idx,
                forall|k: int| 0 <= k < interval_idx ==> spec_parse_interval(b, p + 24 * k) == Ok::<RawInterval, IntervalError>(#[trigger] ranges@[k]),
            decreases 3 - interval_idx,
        {
            match RawInterval::from_reader(r) {
                Ok(iv) => ranges.push(iv),
                Err(interval_err) => {
                    proof {
                        if interval_idx == 1 {
                            assert(spec_parse_interval(b, p) == Ok::<RawInterval, IntervalError>(ranges@[0]));
                        } else if interval_idx == 2 {
                            assert(spec_parse_interval(b, p) == Ok::<RawInterval, IntervalError>(ranges@[0]));
                            assert(spec_parse_interval(b, p + 24) == Ok::<RawInterval, IntervalError>(ranges@[1]));
                        }
                    }
                    return Err(ITreeNodeError::Interval { interval_idx, interval_err });
                },
            }
            interval_idx = interval_idx + 1;
        }
        assert(ranges@ =~= seq![ranges@[0], ranges@[1], ranges@[2]]);
        Ok(RawITreeNode::new(ranges))
    }
}

/// The kind named by the kind bits of a raw ordering address (the write flag aside)
pub open spec fn spec_ord_kind(vaddr: u64) -> Option<DataSource> {
    let flags = vaddr & !ORD_KIND_MASK;
    if flags == ORD_ZERO_FLAG {
        Some(DataSource::Zero)
    } else if flags == ORD_PRIVATE_FLAG {
        Some(DataSource::Private)
    } else if flags == ORD_SHARED_FLAG {
        Some(DataSource::Shared)
    } else if vaddr == 0 {
        Some(DataSource::Zero)
    } else {
        None
    }
}

/// Parsing an ordering chunk at `p`: the address (with its flags), the number of pages and the
/// timestamp
pub open spec fn spec_parse_ord(b: Seq<u8>, p: int) -> OrdChunkResult<OrdChunk> {
    if p + 8 > b.len() {
        Err(OrdChunkError::UnexpectedEof)
    } else if !spec_page_aligned(le64_at(b, p) as int) {
        Err(OrdChunkError::BadAlignment(le64_at(b, p)))
    } else if spec_ord_kind(le64_at(b, p)) is None {
        Err(OrdChunkError::BadFlags(le64_at(b, p)))
    } else if p + 24 > b.len() {
        Err(OrdChunkError::UnexpectedEof)
    } else {
        Ok(OrdChunk {
            timestamp_us: le64_at(b, p + 16),
            vaddr: le64_at(b, p) & ORD_FLAG_MASK,
            n_pages: le64_at(b, p + 8),
            kind: spec_ord_kind(le64_at(b, p))->Some_0,
            is_written_to: le64_at(b, p) & ORD_WRITE_FLAG != 0,
        })
    }
}

impl OrdChunk {
    /// Read and parse an OrdChunk
    pub fn from_reader(r: &mut ByteReader) -> (res: OrdChunkResult<Self>)
        ensures
            final(r).bytes == old(r).bytes,
            res == spec_parse_ord(old(r).bytes@, old(r).pos as int),
            res is Ok ==> final(r).pos == old(r).pos + 24,
    {
        let vaddr = match r.read_u64() {
            Some(v) => v,
            None => {
                return Err(OrdChunkError::UnexpectedEof);
            },
        };
        if !is_page_aligned(vaddr) {
            return Err(OrdChunkError::BadAlignment(vaddr));
        }
        let is_written_to = (vaddr & ORD_WRITE_FLAG) != 0;
        let flags = vaddr & !ORD_KIND_MASK;
        let kind = if flags == ORD_ZERO_FLAG {
            DataSource::Zero
        } else if flags == ORD_PRIVATE_FLAG {
            DataSource::Private
        } else if flags == ORD_SHARED_FLAG {
            DataSource::Shared
        } else if vaddr == 0 {
            DataSource::Zero
        } else {
            return Err(OrdChunkError::BadFlags(vaddr));
        };
        let n_pages = match r.read_u64() {
            Some(v) => v,
            None => {
                return Err(OrdChunkError::UnexpectedEof);
            },
        };
        let timestamp_us = match r.read_u64() {
            Some(v) => v,
            None => {
                return Err(OrdChunkError::UnexpectedEof);
            },
        };
        Ok(OrdChunk { timestamp_us, vaddr: vaddr & ORD_FLAG_MASK, n_pages, kind, is_written_to })
    }
}

/// Parsing a pheader at `p`: virtual range, reference offset, itree span, path offset and
/// protections
pub open spec fn spec_parse_pheader(b: Seq<u8>, p: int) -> PheaderResult<JifRawPheader> {
    if p + 8 > b.len() {
        Err(PheaderError::UnexpectedEof)
    } else if !spec_page_aligned(le64_at(b, p) as int) {
        Err(PheaderError::BadAlignment(le64_at(b, p)))
    } else if p + 16 > b.len() {
        Err(PheaderError::UnexpectedEof)
    } else if !spec_page_aligned(le64_at(b, p + 8) as int) {
        Err(PheaderError::BadAlignment(le64_at(b, p + 8)))
    } else if le64_at(b, p) > le64_at(b, p + 8) {
        Err(PheaderError::BadVirtualRange(le64_at(b, p), le64_at(b, p + 8)))
    } else if p + 24 > b.len() {
        Err(PheaderError::UnexpectedEof)
    } else if !aligned_or_max(le64_at(b, p + 16)) {
        Err(PheaderError::BadAlignment(le64_at(b, p + 16)))
    } else if p + 36 > b.len() {
        Err(PheaderError::UnexpectedEof)
    } else if le64_at(b, p + 16) == u64::MAX && le32_at(b, p + 32) != u32::MAX {
        Err(PheaderError::BadRefRange { offset: le64_at(b, p + 16), pathname_offset: le32_at(b, p + 32) })
    } else if p + 37 > b.len() {
        Err(PheaderError::UnexpectedEof)
    } else {
        Ok(JifRawPheader {
            vbegin: le64_at(b, p),
            vend: le64_at(b, p + 8),
            ref_offset: le64_at(b, p + 16),
            itree_idx: le32_at(b, p + 24),
            itree_n_nodes: le32_at(b, p + 28),
            pathname_offset: le32_at(b, p + 32),
            prot: b[p + 36],
        })
    }
}

impl JifRawPheader {
    /// Read and parse a pheader
    pub fn from_reader(r: &mut ByteReader) -> (res: PheaderResult<Self>)
        ensures
            final(r).bytes == old(r).bytes,
            res == spec_parse_pheader(old(r).bytes@, old(r).pos as int),
            res is Ok ==> final(r).pos == old(r).pos + 37,
    {
        let vbegin = match r.read_u64() {
            Some(v) => v,
            None => {
                return Err(PheaderError::UnexpectedEof);
            },
        };
        if !is_page_aligned(vbegin) {
            return Err(PheaderError::BadAlignment(vbegin));
        }
        let vend = match r.read_u64() {
            Some(v) => v,
            None => {
                return Err(PheaderError::UnexpectedEof);
            },
        };
        if !is_page_aligned(vend) {
            return Err(PheaderError::BadAlignment(vend));
        }
        if vbegin > vend {
            return Err(PheaderError::BadVirtualRange(vbegin, vend));
        }
        let ref_offset = match r.read_u64() {
            Some(v) => v,
            None => {
                return Err(PheaderError::UnexpectedEof);
            },
        };
        if ref_offset != u64::MAX && !is_page_aligned(ref_offset) {
            return Err(PheaderError::BadAlignment(ref_offset));
        }
        let itree_idx = match r.read_u32() {
            Some(v) => v,
            None => {
                return Err(PheaderError::UnexpectedEof);
            },
        };
        let itree_n_nodes = match r.read_u32() {
            Some(v) => v,
            None => {
                return Err(PheaderError::UnexpectedEof);
            },
        };
        let pathname_offset = match r.read_u32() {
            Some(v) => v,
            None => {
                return Err(PheaderError::UnexpectedEof);
            },
        };
        if ref_offset == u64::MAX && pathname_offset != u32::MAX {
            return Err(PheaderError::BadRefRange { offset: ref_offset, pathname_offset });
        }
        let prot = match r.read_u8() {
            Some(v) => v,
            None => {
                return Err(PheaderError::UnexpectedEof);
            },
        };
        Ok(JifRawPheader { vbegin, vend, ref_offset, itree_idx, itree_n_nodes, pathname_offset, prot })
    }
}

/// The magic bytes that open a JIF
pub open spec fn jif_magic() -> Seq<u8> {
    seq![0x77u8, 0x4au8, 0x49u8, 0x46u8]
}

/// Parsing the header at the start of `b`
pub open spec fn spec_parse_header(b: Seq<u8>) -> JifResult<JifHeaderBinary> {
    if b.len() < 4 {
        Err(JifError::UnexpectedEof)
    } else if b.subrange(0, 4) != jif_magic() {
        Err(JifError::BadMagic)
    } else if b.len() < 12 {
        Err(JifError::UnexpectedEof)
    } else if !spec_page_aligned(le32_at(b, 8) as int) {
        Err(JifError::BadAlignment)
    } else if b.len() < 16 {
        Err(JifError::UnexpectedEof)
    } else if !spec_page_aligned(le32_at(b, 12) as int) {
        Err(JifError::BadAlignment)
    } else if b.len() < 20 {
        Err(JifError::UnexpectedEof)
    } else if !spec_page_aligned(le32_at(b, 16) as int) {
        Err(JifError::BadAlignment)
    } else if b.len() < 24 {
        Err(JifError::UnexpectedEof)
    } else if le32_at(b, 20) != JIF_VERSION {
        Err(JifError::BadVersion { expected: JIF_VERSION, found: le32_at(b, 20) })
    } else if b.len() < 32 {
        Err(JifError::UnexpectedEof)
    } else {
        Ok(JifHeaderBinary {
            n_pheaders: le32_at(b, 4),
            strings_size: le32_at(b, 8),
            itrees_size: le32_at(b, 12),
            ord_size: le32_at(b, 16),
            version: le32_at(b, 20),
            n_prefetch: le64_at(b, 24),
        })
    }
}

/// Read a header field that must be page aligned
fn read_aligned_u32(r: &mut ByteReader) -> (res: JifResult<u32>)
    ensures
        final(r).bytes == old(r).bytes,
        match res {
            Ok(v) => old(r).pos + 4 <= old(r).bytes@.len() && v == le32_at(old(r).bytes@, old(r).pos as int)
                && spec_page_aligned(v as int) && final(r).pos == old(r).pos + 4,
            Err(e) => (old(r).pos + 4 > old(r).bytes@.len() && e == JifError::UnexpectedEof) || (old(r).pos + 4
                <= old(r).bytes@.len() && !spec_page_aligned(le32_at(old(r).bytes@, old(r).pos as int) as int) && e
                == JifError::BadAlignment),
        },
{
    match r.read_u32() {
        None => Err(JifError::UnexpectedEof),
        Some(v) => {
            if !is_page_aligned(v as u64) {
                Err(JifError::BadAlignment)
            } else {
                Ok(v)
            }
        },
    }
}

impl JifHeaderBinary {
    /// Read and parse a JIF header, at the start of the buffer
    pub fn from_reader(r: &mut ByteReader) -> (res: JifResult<Self>)
        requires
            old(r).pos == 0,
        ensures
            final(r).bytes == old(r).bytes,
            res == spec_parse_header(old(r).bytes@),
            res is Ok ==> final(r).pos == 32,
    {
        let ghost b = r.bytes@;
        let m0 = r.read_u8();
        let m1 = r.read_u8();
        let m2 = r.read_u8();
        let m3 = r.read_u8();
        let magic = match (m0, m1, m2, m3) {
            (Some(a), Some(b1), Some(c), Some(d)) => (a, b1, c, d),
            _ => {
                return Err(JifError::UnexpectedEof);
            },
        };
        proof {
            assert(b.subrange(0, 4) =~= seq![magic.0, magic.1, magic.2, magic.3]);
        }
        if !(magic.0 == 0x77 && magic.1 == 0x4a && magic.2 == 0x49 && magic.3 == 0x46) {
            return Err(JifError::BadMagic);
        }
        let n_pheaders = match r.read_u32() {
            Some(v) => v,
            None => {
                return Err(JifError::UnexpectedEof);
            },
        };
        let strings_size = read_aligned_u32(r)?;
        let itrees_size = read_aligned_u32(r)?;
        let ord_size = read_aligned_u32(r)?;
        let version = match r.read_u32() {
            Some(v) => v,
            None => {
                return Err(JifError::UnexpectedEof);
            },
        };
        if version != JIF_VERSION {
            return Err(JifError::BadVersion { expected: JIF_VERSION, found: version });
        }
        let n_prefetch = match r.read_u64() {
            Some(v) => v,
            None => {
                return Err(JifError::UnexpectedEof);
            },
        };
        Ok(JifHeaderBinary { n_pheaders, strings_size, itrees_size, ord_size, version, n_prefetch })
    }
}

/// Total number of itree nodes the pheaders span
pub open spec fn total_nodes(ps: Seq<JifRawPheader>) -> int
    decreases ps.len(),
{
    if ps.len() == 0 {
        0
    } else {
        total_nodes(ps.drop_last()) + ps.last().itree_n_nodes
    }
}

/// A pheader's string offset and itree span lie within the tables
pub open spec fn pheader_in_tables(p: JifRawPheader, strings_size: u32, n_nodes: int) -> bool {
    &&& !(p.pathname_offset != u32::MAX && p.pathname_offset >= strings_size)
    &&& !(p.itree_n_nodes > 0 && spec_sat_add(p.itree_idx, p.itree_n_nodes) > n_nodes)
}

/// Saturating addition of `u32`s
pub open spec fn spec_sat_add(a: u32, b: u32) -> int {
    if a + b > u32::MAX {
        u32::MAX as int
    } else {
        a + b
    }
}

/// The error for a pheader, at index `k`, that reaches outside the tables
pub open spec fn table_error(p: JifRawPheader, k: int, strings_size: u32, n_nodes: u64) -> Option<JifError> {
    if p.pathname_offset != u32::MAX && p.pathname_offset >= strings_size {
        Some(JifError::BadPheader {
            pheader_idx: k as usize,
            pheader_err: PheaderError::InvalidOffset { offset: p.pathname_offset, size: strings_size },
        })
    } else if p.itree_n_nodes > 0 && spec_sat_add(p.itree_idx, p.itree_n_nodes) > n_nodes {
        Some(JifError::BadPheader {
            pheader_idx: k as usize,
            pheader_err: PheaderError::InvalidITreeIndex { index: p.itree_idx, tree_len: p.itree_n_nodes, len: n_nodes as usize },
        })
    } else {
        None
    }
}

/// The error for the first of the first `n` pheaders that reaches outside the tables, if any
pub open spec fn first_table_error(ps: Seq<JifRawPheader>, strings_size: u32, n_nodes: u64, n: nat) -> Option<JifError>
    decreases n,
{
    if n == 0 {
        None
    } else {
        match first_table_error(ps, strings_size, n_nodes, (n - 1) as nat) {
            Some(e) => Some(e),
            None => table_error(ps[n - 1], n - 1, strings_size, n_nodes),
        }
    }
}

/// Once a pheader reaches outside the tables, the first error stays
proof fn lemma_first_table_error(ps: Seq<JifRawPheader>, strings_size: u32, n_nodes: u64, m: nat, n: nat)
    requires
        m <= n,
        first_table_error(ps, strings_size, n_nodes, m) is Some,
    ensures
        first_table_error(ps, strings_size, n_nodes, n) == first_table_error(ps, strings_size, n_nodes, m),
    decreases n,
{
    if n > m {
        lemma_first_table_error(ps, strings_size, n_nodes, m, (n - 1) as nat);
    }
}

/// The error for the first pheader that reaches outside the tables, if any
fn check_pheaders(pheaders: &Vec<JifRawPheader>, strings_size: u32, n_nodes: u64) -> (r: Option<JifError>)
    ensures
        r is None <==> forall|k: int| 0 <= k < pheaders@.len() ==> pheader_in_tables(#[trigger] pheaders@[k], strings_size, n_nodes as int),
        r matches Some(e) ==> e is BadPheader,
        r == first_table_error(pheaders@, strings_size, n_nodes, pheaders@.len()),
{
    let mut k: usize = 0;
    while k < pheaders.len()
        invariant
            k <= pheaders@.len(),
            forall|j: int| 0 <= j < k ==> pheader_in_tables(#[trigger] pheaders@[j], strings_size, n_nodes as int),
            first_table_error(pheaders@, strings_size, n_nodes, k as nat) is None,
        decreases pheaders@.len() - k,
    {
        let p = pheaders[k];
        proof {
            if table_error(p, k as int, strings_size, n_nodes) is Some {
                lemma_first_table_error(pheaders@, strings_size, n_nodes, (k + 1) as nat, pheaders@.len());
            }
        }
        if p.pathname_offset != u32::MAX && p.pathname_offset >= strings_size {
            return Some(JifError::BadPheader {
                pheader_idx: k,
                pheader_err: PheaderError::InvalidOffset { offset: p.pathname_offset, size: strings_size },
            });
        }
        if p.itree_n_nodes > 0 && p.itree_idx.saturating_add(p.itree_n_nodes) as u64 > n_nodes {
            return Some(JifError::BadPheader {
                pheader_idx: k,
                pheader_err: PheaderError::InvalidITreeIndex { index: p.itree_idx, tree_len: p.itree_n_nodes, len: n_nodes as usize },
            });
        }
        k = k + 1;
    }
    None
}

/// The interval at slot `k` of node `i`
pub open spec fn node_iv(nodes: Seq<Seq<RawInterval>>, i: int, k: int) -> RawInterval {
    nodes[i][k]
}

/// The intervals of each node
pub open spec fn node_views(nodes: Seq<RawITreeNode>) -> Seq<Seq<RawInterval>> {
    nodes.map_values(|n: RawITreeNode| n.ranges@)
}

/// Slot `k` of node `i` exists and holds a data interval
pub open spec fn data_slot(nodes: Seq<Seq<RawInterval>>, i: int, k: int) -> bool {
    0 <= i < nodes.len() && 0 <= k < 3 && node_iv(nodes, i, k).spec_is_data()
}

/// Slot (`i`, `k`) comes before slot (`bi`, `bk`) in the order of nodes, then of slots
pub open spec fn slot_before(i: int, k: int, bi: int, bk: int) -> bool {
    i < bi || (i == bi && k < bk)
}

/// The data interval lies at or after the data section and does not end before it starts
pub open spec fn iv_fits(iv: RawInterval, data_offset: u64) -> bool {
    iv.offset >= data_offset && iv.start <= iv.end
}

/// The range of a data interval: its offset relative to the data section, and its length
pub open spec fn rel_range(iv: RawInterval, data_offset: u64) -> (u64, u64) {
    ((iv.offset - data_offset) as u64, (iv.end - iv.start) as u64)
}

/// Every data interval before slot (`bi`, `bk`) fits, and two of them at the same offset have
/// the same length
pub open spec fn ranges_ok_upto(nodes: Seq<Seq<RawInterval>>, data_offset: u64, bi: int, bk: int) -> bool {
    &&& forall|i: int, k: int|
        data_slot(nodes, i, k) && slot_before(i, k, bi, bk) ==> iv_fits(#[trigger] node_iv(nodes, i, k), data_offset)
    &&& forall|i1: int, k1: int, i2: int, k2: int|
        data_slot(nodes, i1, k1) && slot_before(i1, k1, bi, bk) && data_slot(nodes, i2, k2) && slot_before(i2, k2, bi, bk)
            && rel_range(#[trigger] node_iv(nodes, i1, k1), data_offset).0 == rel_range(#[trigger] node_iv(nodes, i2, k2), data_offset).0
            ==> rel_range(node_iv(nodes, i1, k1), data_offset).1 == rel_range(node_iv(nodes, i2, k2), data_offset).1
}

/// `p` is the range of a data interval before slot (`bi`, `bk`)
pub open spec fn range_before(nodes: Seq<Seq<RawInterval>>, data_offset: u64, bi: int, bk: int, p: (u64, u64)) -> bool {
    exists|i: int, k: int|
        #![trigger node_iv(nodes, i, k)]
        data_slot(nodes, i, k) && slot_before(i, k, bi, bk) && p == rel_range(node_iv(nodes, i, k), data_offset)
}

/// `v` lists exactly the ranges of the data intervals before slot (`bi`, `bk`)
pub open spec fn lists_ranges_upto(nodes: Seq<Seq<RawInterval>>, data_offset: u64, bi: int, bk: int, v: Seq<(u64, u64)>) -> bool {
    &&& forall|x: int| 0 <= x < v.len() ==> range_before(nodes, data_offset, bi, bk, #[trigger] v[x])
    &&& forall|i: int, k: int|
        data_slot(nodes, i, k) && slot_before(i, k, bi, bk) ==> v.contains(rel_range(#[trigger] node_iv(nodes, i, k), data_offset))
}

/// Every data interval of the nodes fits, and two of them at the same offset have the same length
pub open spec fn ranges_ok(nodes: Seq<Seq<RawInterval>>, data_offset: u64) -> bool {
    ranges_ok_upto(nodes, data_offset, nodes.len() as int, 0)
}

/// The ranges listed up to a slot are those listed up to the next slot where the slot holds no
/// data interval or its range is listed already
proof fn lemma_lists_next_slot(nodes: Seq<Seq<RawInterval>>, data_offset: u64, i: int, k: int, v: Seq<(u64, u64)>)
    requires
        lists_ranges_upto(nodes, data_offset, i, k, v),
        data_slot(nodes, i, k) ==> v.contains(rel_range(node_iv(nodes, i, k), data_offset)),
    ensures
        lists_ranges_upto(nodes, data_offset, i, k + 1, v),
{
    assert forall|x: int| 0 <= x < v.len() implies range_before(nodes, data_offset, i, k + 1, #[trigger] v[x]) by {
        assert(v[x] == v[x]);
        let (i2, k2) = choose|i2: int, k2: int|
            data_slot(nodes, i2, k2) && slot_before(i2, k2, i, k) && v[x] == rel_range(node_iv(nodes, i2, k2), data_offset);
        assert(slot_before(i2, k2, i, k + 1));
    }
    assert forall|i2: int, k2: int| data_slot(nodes, i2, k2) && slot_before(i2, k2, i, k + 1) implies v.contains(
        rel_range(#[trigger] node_iv(nodes, i2, k2), data_offset),
    ) by {
        if !slot_before(i2, k2, i, k) {
            assert(i2 == i && k2 == k);
        }
    }
}

/// Listing up to past the last slot of node `i` is listing up to the first slot of the next node
proof fn lemma_lists_next_node(nodes: Seq<Seq<RawInterval>>, data_offset: u64, i: int, v: Seq<(u64, u64)>)
    requires
        lists_ranges_upto(nodes, data_offset, i, 3, v),
    ensures
        lists_ranges_upto(nodes, data_offset, i + 1, 0, v),
{
    assert forall|x: int| 0 <= x < v.len() implies range_before(nodes, data_offset, i + 1, 0, #[trigger] v[x]) by {
        assert(v[x] == v[x]);
        let (i2, k2) = choose|i2: int, k2: int|
            data_slot(nodes, i2, k2) && slot_before(i2, k2, i, 3) && v[x] == rel_range(node_iv(nodes, i2, k2), data_offset);
        assert(slot_before(i2, k2, i + 1, 0));
    }
    assert forall|i2: int, k2: int| data_slot(nodes, i2, k2) && slot_before(i2, k2, i + 1, 0) implies v.contains(
        rel_range(#[trigger] node_iv(nodes, i2, k2), data_offset),
    ) by {
        assert(slot_before(i2, k2, i, 3));
    }
}

/// The data ranges (relative to the data section) and lengths of the data intervals of the
/// nodes, sorted and without repeats; an error where a data interval starts before the data
/// section or ends before it starts, or where two of them start at the same offset with
/// different lengths
fn data_ranges(nodes: &Vec<RawITreeNode>, data_offset: u64) -> (r: Result<Vec<(u64, u64)>, JifError>)
    requires
        forall|i: int| 0 <= i < nodes@.len() ==> (#[trigger] nodes@[i]).wf(),
    ensures
        match r {
            Ok(v) => {
                &&& ranges_ok(node_views(nodes@), data_offset)
                &&& lists_ranges_upto(node_views(nodes@), data_offset, nodes@.len() as int, 0, v@)
                &&& forall|i: int, j: int| 0 <= i < j < v@.len() ==> (#[trigger] v@[i]).0 < (#[trigger] v@[j]).0
            },
            Err(e) => !ranges_ok(node_views(nodes@), data_offset) && e is DataSegmentNotFound,
        },
{
    let ghost ns = node_views(nodes@);
    let mut out: Vec<(u64, u64)> = Vec::new();
    let mut i: usize = 0;
    while i < nodes.len()
        invariant
            i <= nodes@.len(),
            ns == node_views(nodes@),
            forall|x: int| 0 <= x < nodes@.len() ==> (#[trigger] nodes@[x]).wf(),
            forall|x: int, y: int| 0 <= x < y < out@.len() ==> (#[trigger] out@[x]).0 < (#[trigger] out@[y]).0,
            ranges_ok_upto(ns, data_offset, i as int, 0),
            lists_ranges_upto(ns, data_offset, i as int, 0, out@),
        decreases nodes@.len() - i,
    {
        assert(nodes@[i as int].wf());
        let mut k: usize = 0;
        while k < 3
            invariant
                k <= 3,
                i < nodes@.len(),
                ns == node_views(nodes@),
                nodes@[i as int].ranges@.len() == 3,
                forall|x: int, y: int| 0 <= x < y < out@.len() ==> (#[trigger] out@[x]).0 < (#[trigger] out@[y]).0,
                ranges_ok_upto(ns, data_offset, i as int, k as int),
                lists_ranges_upto(ns, data_offset, i as int, k as int, out@),
            decreases 3 - k,
        {
            let iv = nodes[i].ranges[k];
            assert(iv == node_iv(ns, i as int, k as int));
            if !iv.is_data() {
                proof {
                    lemma_lists_next_slot(ns, data_offset, i as int, k as int, out@);
                }
            }
            if iv.is_data() {
                if iv.offset < data_offset || iv.start > iv.end {
                    assert(!ranges_ok(ns, data_offset)) by {
                        assert(data_slot(ns, i as int, k as int));
                        assert(slot_before(i as int, k as int, ns.len() as int, 0));
                    }
                    return Err(JifError::DataSegmentNotFound {
                        data_range: (iv.offset, iv.offset),
                        virtual_range: (iv.start, iv.end),
                        found_len: 0,
                    });
                }
                let off = iv.offset - data_offset;
                let len = iv.end - iv.start;
                assert((off, len) == rel_range(iv, data_offset));
                // insert in order of offset, skipping repeats
                let mut pos: usize = 0;
                while pos < out.len() && out[pos].0 < off
                    invariant
                        pos <= out@.len(),
                        forall|x: int| 0 <= x < pos ==> (#[trigger] out@[x]).0 < off,
                    decreases out@.len() - pos,
                {
                    pos = pos + 1;
                }
                if pos < out.len() && out[pos].0 == off {
                    if out[pos].1 != len {
                        assert(!ranges_ok(ns, data_offset)) by {
                            let x = pos as int;
                            assert(out@[x] == out@[x]);
                            let (i2, k2) = choose|i2: int, k2: int|
                                data_slot(ns, i2, k2) && slot_before(i2, k2, i as int, k as int) && #[trigger] out@[x] == rel_range(
                                    #[trigger] node_iv(ns, i2, k2),
                                    data_offset,
                                );
                            assert(data_slot(ns, i as int, k as int));
                            assert(slot_before(i as int, k as int, ns.len() as int, 0));
                            assert(slot_before(i2, k2, ns.len() as int, 0));
                            assert(iv_fits(node_iv(ns, i2, k2), data_offset));
                        }
                        return Err(JifError::DataSegmentNotFound {
                            data_range: (off, off),
                            virtual_range: (iv.start, iv.end),
                            found_len: out[pos].1 as usize,
                        });
                    }
                    proof {
                        let x = pos as int;
                        assert(out@[x] == (off, len));
                        assert forall|i1: int, k1: int, i2: int, k2: int|
                            data_slot(ns, i1, k1) && slot_before(i1, k1, i as int, k + 1) && data_slot(ns, i2, k2) && slot_before(
                                i2,
                                k2,
                                i as int,
                                k + 1,
                            ) && rel_range(#[trigger] node_iv(ns, i1, k1), data_offset).0 == rel_range(
                                #[trigger] node_iv(ns, i2, k2),
                                data_offset,
                            ).0 implies rel_range(node_iv(ns, i1, k1), data_offset).1 == rel_range(
                            node_iv(ns, i2, k2),
                            data_offset,
                        ).1 by {
                            let (ia, ka) = choose|ia: int, ka: int|
                                data_slot(ns, ia, ka) && slot_before(ia, ka, i as int, k as int) && #[trigger] out@[x] == rel_range(
                                    #[trigger] node_iv(ns, ia, ka),
                                    data_offset,
                                );
                            if slot_before(i1, k1, i as int, k as int) && !slot_before(i2, k2, i as int, k as int) {
                                assert(rel_range(node_iv(ns, i1, k1), data_offset).0 == rel_range(node_iv(ns, ia, ka), data_offset).0);
                            } else if !slot_before(i1, k1, i as int, k as int) && slot_before(i2, k2, i as int, k as int) {
                                assert(rel_range(node_iv(ns, i2, k2), data_offset).0 == rel_range(node_iv(ns, ia, ka), data_offset).0);
                            }
                        }
                        assert forall|i2: int, k2: int|
                            data_slot(ns, i2, k2) && slot_before(i2, k2, i as int, k + 1) implies out@.contains(
                            rel_range(#[trigger] node_iv(ns, i2, k2), data_offset),
                        ) by {
                            if !slot_before(i2, k2, i as int, k as int) {
                                assert(out@[x] == rel_range(node_iv(ns, i2, k2), data_offset));
                            }
                        }
                        assert(out@.contains(rel_range(node_iv(ns, i as int, k as int), data_offset)));
                        lemma_lists_next_slot(ns, data_offset, i as int, k as int, out@);
                    }
                } else {
                    let ghost before = out@;
                    out.insert(pos, (off, len));
                    assert forall|x: int, y: int| 0 <= x < y < out@.len() implies (#[trigger] out@[x]).0 < (#[trigger] out@[y]).0 by {
                        if y < pos {
                            assert(out@[x] == before[x] && out@[y] == before[y]);
                        } else if y == pos {
                            assert(out@[x] == before[x]);
                        } else if x < pos {
                            assert(out@[x] == before[x] && out@[y] == before[y - 1]);
                        } else if x == pos {
                            assert(out@[y] == before[y - 1]);
                            assert(before[pos as int].0 >= off);
                        } else {
                            assert(out@[x] == before[x - 1] && out@[y] == before[y - 1]);
                        }
                    }
                    proof {
                        assert forall|x: int| 0 <= x < before.len() implies (#[trigger] before[x]).0 != off by {
                            if x >= pos {
                                assert(before[pos as int].0 >= off);
                                if x > pos {
                                    assert(before[pos as int].0 < before[x].0);
                                }
                            }
                        }
                        assert forall|i1: int, k1: int, i2: int, k2: int|
                            data_slot(ns, i1, k1) && slot_before(i1, k1, i as int, k + 1) && data_slot(ns, i2, k2) && slot_before(
                                i2,
                                k2,
                                i as int,
                                k + 1,
                            ) && rel_range(#[trigger] node_iv(ns, i1, k1), data_offset).0 == rel_range(
                                #[trigger] node_iv(ns, i2, k2),
                                data_offset,
                            ).0 implies rel_range(node_iv(ns, i1, k1), data_offset).1 == rel_range(
                            node_iv(ns, i2, k2),
                            data_offset,
                        ).1 by {
                            if slot_before(i1, k1, i as int, k as int) && !slot_before(i2, k2, i as int, k as int) {
                                let y = before.index_of(rel_range(node_iv(ns, i1, k1), data_offset));
                                assert(before[y].0 == off);
                            } else if !slot_before(i1, k1, i as int, k as int) && slot_before(i2, k2, i as int, k as int) {
                                let y = before.index_of(rel_range(node_iv(ns, i2, k2), data_offset));
                                assert(before[y].0 == off);
                            }
                        }
                        assert forall|x: int| 0 <= x < out@.len() implies exists|i2: int, k2: int|
                            data_slot(ns, i2, k2) && slot_before(i2, k2, i as int, k + 1) && #[trigger] out@[x] == rel_range(
                                #[trigger] node_iv(ns, i2, k2),
                                data_offset,
                            ) by {
                            if x < pos {
                                assert(out@[x] == before[x]);
                                assert(before[x] == before[x]);
                            } else if x == pos {
                                assert(out@[x] == rel_range(node_iv(ns, i as int, k as int), data_offset));
                            } else {
                                assert(out@[x] == before[x - 1]);
                                assert(before[x - 1] == before[x - 1]);
                            }
                        }
                        assert forall|i2: int, k2: int|
                            data_slot(ns, i2, k2) && slot_before(i2, k2, i as int, k + 1) implies out@.contains(
                            rel_range(#[trigger] node_iv(ns, i2, k2), data_offset),
                        ) by {
                            if !slot_before(i2, k2, i as int, k as int) {
                                assert(out@[pos as int] == rel_range(node_iv(ns, i2, k2), data_offset));
                            } else {
                                let y = before.index_of(rel_range(node_iv(ns, i2, k2), data_offset));
                                if y < pos {
                                    assert(out@[y] == before[y]);
                                } else {
                                    assert(out@[y + 1] == before[y]);
                                }
                            }
                        }
                    }
                }
            }
            proof {
                assert forall|i2: int, k2: int|
                    data_slot(ns, i2, k2) && slot_before(i2, k2, i as int, k + 1) implies iv_fits(
                    #[trigger] node_iv(ns, i2, k2),
                    data_offset,
                ) by {
                    if !slot_before(i2, k2, i as int, k as int) {
                        assert(i2 == i && k2 == k);
                    }
                }
            }
            k = k + 1;
        }
        proof {
            lemma_lists_next_node(ns, data_offset, i as int, out@);
        }
        i = i + 1;
    }
    Ok(out)
}

/// The first `n` pheaders of a file, or the error of the first one that does not parse
pub open spec fn parse_pheaders(b: Seq<u8>, n: nat) -> JifResult<Seq<JifRawPheader>>
    decreases n,
{
    if n == 0 {
        Ok(Seq::empty())
    } else {
        match parse_pheaders(b, (n - 1) as nat) {
            Err(e) => Err(e),
            Ok(ps) => match spec_parse_pheader(b, 32 + 37 * (n - 1)) {
                Err(pheader_err) => Err(JifError::BadPheader { pheader_idx: (n - 1) as usize, pheader_err }),
                Ok(p) => Ok(ps.push(p)),
            },
        }
    }
}

/// Once the pheaders fail to parse, more of them fail alike
proof fn lemma_parse_pheaders_err(b: Seq<u8>, m: nat, n: nat)
    requires
        m <= n,
        parse_pheaders(b, m) is Err,
    ensures
        parse_pheaders(b, n) == parse_pheaders(b, m),
    decreases n,
{
    if n > m {
        lemma_parse_pheaders_err(b, m, (n - 1) as nat);
    }
}

/// The first `n` interval tree nodes from `start`, or the error of the first one that does not
/// parse
pub open spec fn parse_nodes(b: Seq<u8>, start: int, n: nat) -> JifResult<Seq<Seq<RawInterval>>>
    decreases n,
{
    if n == 0 {
        Ok(Seq::empty())
    } else {
        match parse_nodes(b, start, (n - 1) as nat) {
            Err(e) => Err(e),
            Ok(ns) => match spec_parse_node(b, start + 72 * (n - 1)) {
                Err(itree_node_err) => Err(JifError::BadITreeNode { itree_node_idx: (n - 1) as usize, itree_node_err }),
                Ok(s) => Ok(ns.push(s)),
            },
        }
    }
}

/// Once the nodes fail to parse, more of them fail alike
proof fn lemma_parse_nodes_err(b: Seq<u8>, start: int, m: nat, n: nat)
    requires
        m <= n,
        parse_nodes(b, start, m) is Err,
    ensures
        parse_nodes(b, start, n) == parse_nodes(b, start, m),
    decreases n,
{
    if n > m {
        lemma_parse_nodes_err(b, start, m, (n - 1) as nat);
    }
}

/// The first `n` ordering chunks from `start`, or the error of the first one that does not parse
pub open spec fn parse_ords(b: Seq<u8>, start: int, n: nat) -> JifResult<Seq<OrdChunk>>
    decreases n,
{
    if n == 0 {
        Ok(Seq::empty())
    } else {
        match parse_ords(b, start, (n - 1) as nat) {
            Err(e) => Err(e),
            Ok(cs) => match spec_parse_ord(b, start + 24 * (n - 1)) {
                Err(ord_chunk_err) => Err(JifError::BadOrdChunk { ord_chunk_idx: (n - 1) as usize, ord_chunk_err }),
                Ok(c) => Ok(cs.push(c)),
            },
        }
    }
}

/// Once the ordering chunks fail to parse, more of them fail alike
proof fn lemma_parse_ords_err(b: Seq<u8>, start: int, m: nat, n: nat)
    requires
        m <= n,
        parse_ords(b, start, m) is Err,
    ensures
        parse_ords(b, start, n) == parse_ords(b, start, m),
    decreases n,
{
    if n > m {
        lemma_parse_ords_err(b, start, m, (n - 1) as nat);
    }
}

/// The ordering chunks that span some pages
pub open spec fn nonempty_chunks(cs: Seq<OrdChunk>) -> Seq<OrdChunk>
    decreases cs.len(),
{
    if cs.len() == 0 {
        Seq::empty()
    } else if cs.last().n_pages != 0 {
        nonempty_chunks(cs.drop_last()).push(cs.last())
    } else {
        nonempty_chunks(cs.drop_last())
    }
}

/// What the front of a JIF file parses to: the header and the pheaders (each of whose string
/// offset and tree lie within the tables); or the first error
#[verifier::opaque]
pub open spec fn parse_front(b: Seq<u8>) -> JifResult<(JifHeaderBinary, Seq<JifRawPheader>)> {
    match spec_parse_header(b) {
        Err(e) => Err(e),
        Ok(h) => match parse_pheaders(b, h.n_pheaders as nat) {
            Err(e) => Err(e),
            Ok(ps) => match first_table_error(ps, h.strings_size, total_nodes(ps) as u64, ps.len()) {
                Some(e) => Err(e),
                None => Ok((h, ps)),
            },
        },
    }
}

/// What follows the pheaders parses to: the string table (from the next page), the intervals of
/// each tree node (right after it), and where the tree table ends; or the first error
#[verifier::opaque]
pub open spec fn parse_mid(b: Seq<u8>, h: JifHeaderBinary, ps: Seq<JifRawPheader>) -> JifResult<(Seq<u8>, Seq<Seq<RawInterval>>, int)> {
    let s0 = spec_align_up((32 + 37 * ps.len()) as int, PAGE_SIZE as int);
    if s0 > usize::MAX {
        Err(JifError::UnexpectedEof)
    } else {
        let strings = b.subrange(spec_min(s0, b.len() as int), spec_min(s0 + h.strings_size, b.len() as int));
        let nodes_start = spec_max(s0, spec_min(s0 + h.strings_size, b.len() as int));
        match parse_nodes(b, nodes_start, total_nodes(ps) as nat) {
            Err(e) => Err(e),
            Ok(ns) => {
                let table_end = nodes_start + h.itrees_size;
                if table_end > usize::MAX {
                    Err(JifError::UnexpectedEof)
                } else {
                    Ok((strings, ns, table_end))
                }
            },
        }
    }
}

/// What the ordering section (from `table_end`) parses to: its chunks that span some pages, and
/// the offset of the data section (the page after it); or the first error
#[verifier::opaque]
pub open spec fn parse_tail(b: Seq<u8>, h: JifHeaderBinary, table_end: int) -> JifResult<(Seq<OrdChunk>, u64)> {
    let n_ords = (h.ord_size / 24) as nat;
    match parse_ords(b, table_end, n_ords) {
        Err(e) => Err(e),
        Ok(cs) => {
            let d = spec_align_up((table_end + 24 * n_ords) as int, PAGE_SIZE as int);
            if d > usize::MAX {
                Err(JifError::UnexpectedEof)
            } else {
                Ok((nonempty_chunks(cs), d as u64))
            }
        },
    }
}

/// What the tables of a JIF file parse to: the header, the pheaders, the string table, the
/// intervals of each interval tree node, the ordering chunks that span some pages, and the
/// offset of the data section (the page after the ordering section); or the first error
pub open spec fn parse_tables(b: Seq<u8>) -> JifResult<
    (JifHeaderBinary, Seq<JifRawPheader>, Seq<u8>, Seq<Seq<RawInterval>>, Seq<OrdChunk>, u64),
> {
    match parse_front(b) {
        Err(e) => Err(e),
        Ok(f) => match parse_mid(b, f.0, f.1) {
            Err(e) => Err(e),
            Ok(m) => match parse_tail(b, f.0, m.2) {
                Err(e) => Err(e),
                Ok(t) => Ok((f.0, f.1, m.0, m.1, t.0, t.1)),
            },
        },
    }
}

/// The ranges, in order, follow each other: each ends where the next starts
pub open spec fn ranges_contiguous(v: Seq<(u64, u64)>) -> bool {
    forall|k: int| 1 <= k < v.len() ==> #[trigger] v[k - 1].0 + v[k - 1].1 == v[k].0
}

/// The ranges are sorted by offset, with no two at the same offset
pub open spec fn ranges_sorted(v: Seq<(u64, u64)>) -> bool {
    forall|i: int, j: int| 0 <= i < j < v.len() ==> (#[trigger] v[i]).0 < (#[trigger] v[j]).0
}

/// The end of a range, wrapping around as a `u64`
pub open spec fn range_end(r: (u64, u64)) -> u64 {
    if r.0 + r.1 > u64::MAX {
        (r.0 + r.1 - 0x1_0000_0000_0000_0000) as u64
    } else {
        (r.0 + r.1) as u64
    }
}

/// Where reading the data segments of the ranges `v` one after the other, from `d`, ends
pub open spec fn segments_cursor(b: Seq<u8>, d: int, v: Seq<(u64, u64)>) -> int
    decreases v.len(),
{
    if v.len() == 0 {
        d
    } else {
        let c = segments_cursor(b, d, v.drop_last());
        spec_max(c, spec_min(c + v.last().1, b.len() as int))
    }
}

/// The data segments of the ranges `v`, read one after the other from `d` (each as many bytes as
/// its length, fewer where the file ends first)
pub open spec fn read_segments(b: Seq<u8>, d: int, v: Seq<(u64, u64)>) -> Seq<((u64, u64), Seq<u8>)>
    decreases v.len(),
{
    if v.len() == 0 {
        Seq::empty()
    } else {
        let c = segments_cursor(b, d, v.drop_last());
        read_segments(b, d, v.drop_last()).push(
            ((v.last().0, range_end(v.last())), b.subrange(spec_min(c, b.len() as int), spec_min(c + v.last().1, b.len() as int))),
        )
    }
}

/// The ranges and bytes of data segments
pub open spec fn segs_view(m: Seq<((u64, u64), Vec<u8>)>) -> Seq<((u64, u64), Seq<u8>)> {
    m.map_values(|x: ((u64, u64), Vec<u8>)| (x.0, x.1@))
}

/// The data ranges of a file, as the nodes give them: every data interval fits, the sorted list
/// `v` of their ranges is contiguous
pub open spec fn data_section_ok(ns: Seq<Seq<RawInterval>>, d: u64, v: Seq<(u64, u64)>) -> bool {
    &&& ranges_ok(ns, d)
    &&& ranges_sorted(v)
    &&& lists_ranges_upto(ns, d, ns.len() as int, 0, v)
    &&& ranges_contiguous(v)
}

/// A JIF file parses: its tables do, and the data ranges of its interval trees fit the data
/// section and follow each other
pub open spec fn jif_file_ok(b: Seq<u8>) -> bool {
    parse_tables(b) matches Ok(t) && exists|v: Seq<(u64, u64)>| data_section_ok(t.3, t.5, v)
}

/// `raw` is what the JIF file `b` parses to
pub open spec fn raw_read_from(b: Seq<u8>, raw: JifRaw) -> bool {
    parse_tables(b) matches Ok(t) && {
        &&& raw.n_prefetch == t.0.n_prefetch
        &&& raw.pheaders@ == t.1
        &&& raw.strings_backing@ == t.2
        &&& node_views(raw.itree_nodes@) == t.3
        &&& raw.ord_chunks@ == t.4
        &&& raw.data_offset == t.5
        &&& exists|v: Seq<(u64, u64)>|
            #![trigger data_section_ok(t.3, t.5, v)]
            data_section_ok(t.3, t.5, v) && segs_view(raw.data_segments@)
                == read_segments(b, t.5 as int, v)
    }
}

/// Two lists sorted by offset with the same ranges are the same list
proof fn lemma_sorted_same(a: Seq<(u64, u64)>, c: Seq<(u64, u64)>)
    requires
        ranges_sorted(a),
        ranges_sorted(c),
        forall|x: (u64, u64)| a.contains(x) <==> c.contains(x),
    ensures
        a == c,
    decreases a.len() + c.len(),
{
    if a.len() == 0 {
        if c.len() > 0 {
            assert(c.contains(c[0]));
        }
        assert(a =~= c);
    } else if c.len() == 0 {
        assert(a.contains(a[0]));
    } else {
        assert(a.contains(a[0]));
        assert(c.contains(c[0]));
        let j = choose|j: int| 0 <= j < c.len() && c[j] == a[0];
        let i = choose|i: int| 0 <= i < a.len() && a[i] == c[0];
        if i > 0 {
            assert(a[0].0 < a[i].0);
        }
        if j > 0 {
            assert(c[0].0 < c[j].0);
        }
        assert(a[0] == c[0]);
        let a1 = a.drop_first();
        let c1 = c.drop_first();
        assert forall|x: (u64, u64)| a1.contains(x) <==> c1.contains(x) by {
            if a1.contains(x) {
                let k = choose|k: int| 0 <= k < a1.len() && a1[k] == x;
                assert(a[k + 1] == x);
                assert(a[0].0 < x.0);
                assert(c.contains(x));
                let m = choose|m: int| 0 <= m < c.len() && c[m] == x;
                assert(m != 0);
                assert(c1[m - 1] == x);
            }
            if c1.contains(x) {
                let k = choose|k: int| 0 <= k < c1.len() && c1[k] == x;
                assert(c[k + 1] == x);
                assert(c[0].0 < x.0);
                assert(a.contains(x));
                let m = choose|m: int| 0 <= m < a.len() && a[m] == x;
                assert(m != 0);
                assert(a1[m - 1] == x);
            }
        }
        lemma_sorted_same(a1, c1);
        assert(a =~= seq![a[0]] + a1);
        assert(c =~= seq![c[0]] + c1);
    }
}

/// The sorted list of the data ranges of some nodes is unique
proof fn lemma_ranges_list_unique(ns: Seq<Seq<RawInterval>>, d: u64, a: Seq<(u64, u64)>, c: Seq<(u64, u64)>)
    requires
        ranges_sorted(a),
        ranges_sorted(c),
        lists_ranges_upto(ns, d, ns.len() as int, 0, a),
        lists_ranges_upto(ns, d, ns.len() as int, 0, c),
    ensures
        a == c,
{
    assert forall|x: (u64, u64)| a.contains(x) <==> c.contains(x) by {
        if a.contains(x) {
            let k = choose|k: int| 0 <= k < a.len() && a[k] == x;
            assert(range_before(ns, d, ns.len() as int, 0, a[k]));
            let (i, kk) = choose|i: int, kk: int|
                #![trigger node_iv(ns, i, kk)]
                data_slot(ns, i, kk) && slot_before(i, kk, ns.len() as int, 0) && a[k] == rel_range(node_iv(ns, i, kk), d);
            assert(c.contains(rel_range(node_iv(ns, i, kk), d)));
        }
        if c.contains(x) {
            let k = choose|k: int| 0 <= k < c.len() && c[k] == x;
            assert(range_before(ns, d, ns.len() as int, 0, c[k]));
            let (i, kk) = choose|i: int, kk: int|
                #![trigger node_iv(ns, i, kk)]
                data_slot(ns, i, kk) && slot_before(i, kk, ns.len() as int, 0) && c[k] == rel_range(node_iv(ns, i, kk), d);
            assert(a.contains(rel_range(node_iv(ns, i, kk), d)));
        }
    }
    lemma_sorted_same(a, c);
}

/// Read the pheaders that follow the header, and count the nodes of their trees
fn read_pheaders(r: &mut ByteReader, n: u32) -> (res: JifResult<(Vec<JifRawPheader>, u64)>)
    requires
        old(r).pos == 32,
    ensures
        final(r).bytes == old(r).bytes,
        match parse_pheaders(old(r).bytes@, n as nat) {
            Ok(ps) => res matches Ok(v) && v.0@ == ps && ps.len() == n && v.1 == total_nodes(ps) && final(r).pos == 32 + 37 * n
                && forall|k: int| 0 <= k < ps.len() ==> spec_parse_pheader(old(r).bytes@, 32 + 37 * k) == Ok::<JifRawPheader, PheaderError>(#[trigger] ps[k]),
            Err(e) => res == Err::<(Vec<JifRawPheader>, u64), JifError>(e),
        },
{
    let ghost b = r.bytes@;
    let mut pheaders: Vec<JifRawPheader> = Vec::new();
    let mut pheader_idx: usize = 0;
    let mut n_nodes: u64 = 0;
    while (pheader_idx as u64) < n as u64
        invariant
            r.bytes == old(r).bytes,
            b == old(r).bytes@,
            pheaders@.len() == pheader_idx,
            pheader_idx <= n,
            r.pos == 32 + 37 * pheader_idx,
            forall|k: int| 0 <= k < pheader_idx ==> spec_parse_pheader(b, 32 + 37 * k) == Ok::<JifRawPheader, PheaderError>(#[trigger] pheaders@[k]),
            parse_pheaders(b, pheader_idx as nat) == Ok::<Seq<JifRawPheader>, JifError>(pheaders@),
            n_nodes == total_nodes(pheaders@),
            n_nodes <= pheader_idx * 0x1_0000_0000,
        decreases n - pheader_idx,
    {
        let p = match JifRawPheader::from_reader(r) {
            Ok(p) => p,
            Err(pheader_err) => {
                proof {
                    lemma_parse_pheaders_err(b, (pheader_idx + 1) as nat, n as nat);
                }
                return Err(JifError::BadPheader { pheader_idx, pheader_err });
            },
        };
        let ghost before = pheaders@;
        pheaders.push(p);
        assert(pheaders@.drop_last() =~= before);
        n_nodes = n_nodes + p.itree_n_nodes as u64;
        pheader_idx = pheader_idx + 1;
    }
    Ok((pheaders, n_nodes))
}

/// Read `n` interval tree nodes
fn read_nodes(r: &mut ByteReader, n: u64) -> (res: JifResult<Vec<RawITreeNode>>)
    ensures
        final(r).bytes == old(r).bytes,
        match parse_nodes(old(r).bytes@, old(r).pos as int, n as nat) {
            Ok(ns) => res matches Ok(v) && node_views(v@) == ns && forall|k: int| 0 <= k < v@.len() ==> (#[trigger] v@[k]).wf(),
            Err(e) => res == Err::<Vec<RawITreeNode>, JifError>(e),
        },
        res matches Ok(v) ==> v@.len() == n && (n == 0 || old(r).pos + 72 * n <= old(r).bytes@.len()),
{
    let ghost b = r.bytes@;
    let nodes_start = r.pos;
    let mut itree_nodes: Vec<RawITreeNode> = Vec::new();
    let mut itree_node_idx: u64 = 0;
    assert(node_views(itree_nodes@) =~= Seq::<Seq<RawInterval>>::empty());
    while itree_node_idx < n
        invariant
            r.bytes == old(r).bytes,
            b == old(r).bytes@,
            nodes_start == old(r).pos,
            itree_nodes@.len() == itree_node_idx,
            itree_node_idx <= n,
            r.pos == nodes_start + 72 * itree_node_idx,
            r.pos <= r.bytes@.len() || itree_node_idx == 0,
            forall|k: int| 0 <= k < itree_nodes@.len() ==> (#[trigger] itree_nodes@[k]).wf(),
            parse_nodes(b, nodes_start as int, itree_node_idx as nat) == Ok::<Seq<Seq<RawInterval>>, JifError>(node_views(itree_nodes@)),
        decreases n - itree_node_idx,
    {
        match RawITreeNode::from_reader(r) {
            Ok(node) => {
                let ghost before = itree_nodes@;
                itree_nodes.push(node);
                assert(node_views(itree_nodes@) =~= node_views(before).push(node.ranges@));
            },
            Err(itree_node_err) => {
                proof {
                    lemma_parse_nodes_err(b, nodes_start as int, (itree_node_idx + 1) as nat, n as nat);
                }
                return Err(JifError::BadITreeNode { itree_node_idx: itree_node_idx as usize, itree_node_err });
            },
        }
        itree_node_idx = itree_node_idx + 1;
    }
    Ok(itree_nodes)
}

/// Read `n` ordering chunks, keeping those that span some pages
fn read_ords(r: &mut ByteReader, n: usize) -> (res: JifResult<Vec<OrdChunk>>)
    ensures
        final(r).bytes == old(r).bytes,
        match parse_ords(old(r).bytes@, old(r).pos as int, n as nat) {
            Ok(cs) => res matches Ok(v) && v@ == nonempty_chunks(cs) && final(r).pos == old(r).pos + 24 * n,
            Err(e) => res == Err::<Vec<OrdChunk>, JifError>(e),
        },
{
    let ghost b = r.bytes@;
    let start = r.pos;
    let mut ord_chunks: Vec<OrdChunk> = Vec::new();
    let mut ord_chunk_idx: usize = 0;
    let ghost mut all: Seq<OrdChunk> = Seq::empty();
    while ord_chunk_idx < n
        invariant
            r.bytes == old(r).bytes,
            b == old(r).bytes@,
            start == old(r).pos,
            ord_chunk_idx <= n,
            r.pos == start + 24 * ord_chunk_idx,
            parse_ords(b, start as int, ord_chunk_idx as nat) == Ok::<Seq<OrdChunk>, JifError>(all),
            ord_chunks@ == nonempty_chunks(all),
        decreases n - ord_chunk_idx,
    {
        match OrdChunk::from_reader(r) {
            Ok(c) => {
                proof {
                    assert(all.push(c).drop_last() =~= all);
                }
                if !c.is_empty() {
                    ord_chunks.push(c);
                }
                proof {
                    all = all.push(c);
                }
            },
            Err(ord_chunk_err) => {
                proof {
                    lemma_parse_ords_err(b, start as int, (ord_chunk_idx + 1) as nat, n as nat);
                }
                return Err(JifError::BadOrdChunk { ord_chunk_idx, ord_chunk_err });
            },
        }
        ord_chunk_idx = ord_chunk_idx + 1;
    }
    Ok(ord_chunks)
}

/// The chunks that span some pages do
proof fn lemma_nonempty_chunks(cs: Seq<OrdChunk>)
    ensures
        forall|k: int| 0 <= k < nonempty_chunks(cs).len() ==> (#[trigger] nonempty_chunks(cs)[k]).n_pages != 0,
    decreases cs.len(),
{
    if cs.len() > 0 {
        lemma_nonempty_chunks(cs.drop_last());
    }
}

/// The first position where a range does not end where the next starts
fn first_gap(ranges: &Vec<(u64, u64)>) -> (r: Option<usize>)
    ensures
        r is None <==> ranges_contiguous(ranges@),
        r matches Some(k) ==> 1 <= k < ranges@.len(),
{
    let mut k: usize = 1;
    while k < ranges.len()
        invariant
            1 <= k,
            forall|j: int| 1 <= j < k && j < ranges@.len() ==> #[trigger] ranges@[j - 1].0 + ranges@[j - 1].1 == ranges@[j].0,
        decreases ranges@.len() - k,
    {
        if ranges[k - 1].0.checked_add(ranges[k - 1].1) != Some(ranges[k].0) {
            assert(ranges@[k - 1].0 + ranges@[k - 1].1 != ranges@[k as int].0);
            return Some(k);
        }
        k = k + 1;
    }
    None
}

/// Read the data segments of the ranges, one after the other
fn read_data(r: &mut ByteReader, ranges: &Vec<(u64, u64)>) -> (res: Vec<((u64, u64), Vec<u8>)>)
    ensures
        final(r).bytes == old(r).bytes,
        segs_view(res@) == read_segments(old(r).bytes@, old(r).pos as int, ranges@),
        res@.len() == ranges@.len(),
        forall|i: int| 0 <= i < res@.len() ==> (#[trigger] res@[i]).0.0 == ranges@[i].0,
{
    let ghost b = r.bytes@;
    let ghost d = r.pos as int;
    let mut data_segments: Vec<((u64, u64), Vec<u8>)> = Vec::new();
    let mut k: usize = 0;
    assert(ranges@.take(0) =~= Seq::<(u64, u64)>::empty());
    while k < ranges.len()
        invariant
            r.bytes == old(r).bytes,
            b == old(r).bytes@,
            d == old(r).pos,
            k <= ranges@.len(),
            data_segments@.len() == k,
            forall|i: int| 0 <= i < k ==> (#[trigger] data_segments@[i]).0.0 == ranges@[i].0,
            r.pos == segments_cursor(b, d, ranges@.take(k as int)),
            segs_view(data_segments@) == read_segments(b, d, ranges@.take(k as int)),
        decreases ranges@.len() - k,
    {
        let (off, len) = ranges[k];
        let ghost before = data_segments@;
        proof {
            assert(ranges@.take(k + 1).drop_last() =~= ranges@.take(k as int));
            assert(ranges@.take(k + 1).last() == (off, len));
        }
        let data = r.read_upto(len);
        data_segments.push(((off, off.wrapping_add(len)), data));
        assert(segs_view(data_segments@) =~= segs_view(before).push(((off, range_end((off, len))), data@)));
        k = k + 1;
    }
    assert(ranges@.take(k as int) =~= ranges@);
    data_segments
}

/// Read the header and the pheaders, and check that the pheaders lie within the tables
fn read_front(r: &mut ByteReader) -> (res: JifResult<(JifHeaderBinary, Vec<JifRawPheader>, u64)>)
    requires
        old(r).pos == 0,
    ensures
        final(r).bytes == old(r).bytes,
        match parse_front(old(r).bytes@) {
            Ok(f) => res matches Ok(v) && {
                &&& v.0 == f.0
                &&& v.1@ == f.1
                &&& v.2 == total_nodes(f.1)
                &&& final(r).pos == 32 + 37 * f.1.len()
                &&& f.1.len() == f.0.n_pheaders
                &&& spec_parse_header(old(r).bytes@) == Ok::<JifHeaderBinary, JifError>(f.0)
                &&& forall|k: int| 0 <= k < f.1.len() ==> spec_parse_pheader(old(r).bytes@, 32 + 37 * k) == Ok::<JifRawPheader, PheaderError>(#[trigger] f.1[k])
                &&& forall|k: int| 0 <= k < f.1.len() ==> pheader_in_tables(#[trigger] f.1[k], f.0.strings_size, v.2 as int)
            },
            Err(e) => res == Err::<(JifHeaderBinary, Vec<JifRawPheader>, u64), JifError>(e),
        },
        spec_parse_header(old(r).bytes@) matches Err(e) ==> parse_front(old(r).bytes@) == Err::<(JifHeaderBinary, Seq<JifRawPheader>), JifError>(e),
{
    reveal(parse_front);
    let header = JifHeaderBinary::from_reader(r)?;
    let (pheaders, n_nodes) = read_pheaders(r, header.n_pheaders)?;
    match check_pheaders(&pheaders, header.strings_size, n_nodes) {
        Some(e) => {
            return Err(e);
        },
        None => {},
    }
    Ok((header, pheaders, n_nodes))
}

/// Read the string table and the tree nodes, and move to the end of the tree table
fn read_mid(r: &mut ByteReader, h: JifHeaderBinary, ps: &Vec<JifRawPheader>, n_nodes: u64) -> (res: JifResult<(Vec<u8>, Vec<RawITreeNode>)>)
    requires
        old(r).pos == 32 + 37 * ps@.len(),
        ps@.len() <= u32::MAX,
        n_nodes == total_nodes(ps@),
    ensures
        final(r).bytes == old(r).bytes,
        match parse_mid(old(r).bytes@, h, ps@) {
            Ok(m) => res matches Ok(v) && {
                &&& v.0@ == m.0
                &&& node_views(v.1@) == m.1
                &&& final(r).pos == m.2
                &&& v.1@.len() == n_nodes
                &&& forall|k: int| 0 <= k < v.1@.len() ==> (#[trigger] v.1@[k]).wf()
                &&& v.1@.len() <= usize::MAX / 16
            },
            Err(e) => res == Err::<(Vec<u8>, Vec<RawITreeNode>), JifError>(e),
        },
{
    reveal(parse_mid);
    proof {
        crate::utils::lemma_align_up((32 + 37 * ps@.len()) as int, PAGE_SIZE as int);
    }
    if r.seek_to_page().is_none() {
        return Err(JifError::UnexpectedEof);
    }
    let strings_backing = r.read_upto(h.strings_size as u64);
    let nodes_start = r.pos;
    let itree_nodes = read_nodes(r, n_nodes)?;
    let table_end = nodes_start as u64 + h.itrees_size as u64;
    if table_end > usize::MAX as u64 {
        return Err(JifError::UnexpectedEof);
    }
    r.pos = table_end as usize;
    assert(itree_nodes@.len() == node_views(itree_nodes@).len());
    let blen = r.bytes.len();
    assert(itree_nodes@.len() <= usize::MAX / 16) by (nonlinear_arith)
        requires
            itree_nodes@.len() == 0 || nodes_start + 72 * itree_nodes@.len() <= blen,
    ;
    Ok((strings_backing, itree_nodes))
}

/// Read the ordering section, and move to the data section
fn read_tail(r: &mut ByteReader, h: JifHeaderBinary) -> (res: JifResult<(Vec<OrdChunk>, u64)>)
    ensures
        final(r).bytes == old(r).bytes,
        match parse_tail(old(r).bytes@, h, old(r).pos as int) {
            Ok(t) => res matches Ok(v) && {
                &&& v.0@ == t.0
                &&& v.1 == t.1
                &&& final(r).pos == t.1
                &&& forall|k: int| 0 <= k < v.0@.len() ==> (#[trigger] v.0@[k]).n_pages != 0
                &&& spec_page_aligned(v.1 as int)
            },
            Err(e) => res == Err::<(Vec<OrdChunk>, u64), JifError>(e),
        },
{
    reveal(parse_tail);
    let ghost b = r.bytes@;
    let start = r.pos;
    let n_ords = h.ord_size as usize / OrdChunk::serialized_size();
    let ord_chunks = read_ords(r, n_ords)?;
    let data_offset = match r.seek_to_page() {
        Some(p) => p,
        None => {
            return Err(JifError::UnexpectedEof);
        },
    };
    proof {
        crate::utils::lemma_align_up((start + 24 * n_ords) as int, PAGE_SIZE as int);
        lemma_nonempty_chunks(parse_ords(b, start as int, n_ords as nat)->Ok_0);
    }
    Ok((ord_chunks, data_offset))
}

impl JifRaw {
    /// Read and parse a JIF, from the start of the buffer: it succeeds exactly where the file
    /// parses ([`jif_file_ok`]), and gives what the file parses to ([`raw_read_from`])
    pub fn from_reader(r: &mut ByteReader) -> (res: JifResult<Self>)
        requires
            old(r).pos == 0,
        ensures
            final(r).bytes == old(r).bytes,
            res is Ok <==> jif_file_ok(old(r).bytes@),
            res matches Ok(raw) ==> raw_read_from(old(r).bytes@, raw),
            parse_tables(old(r).bytes@) matches Err(e) ==> res == Err::<JifRaw, JifError>(e),
            parse_tables(old(r).bytes@) is Ok && res is Err ==> res->Err_0 is DataSegmentNotFound,
            spec_parse_header(old(r).bytes@) matches Err(e) ==> res == Err::<JifRaw, JifError>(e),
            res matches Ok(raw) ==> {
                let b = old(r).bytes@;
                let h = spec_parse_header(b)->Ok_0;
                &&& spec_parse_header(b) is Ok
                &&& raw.n_prefetch == h.n_prefetch
                &&& raw.pheaders@.len() == h.n_pheaders
                &&& forall|k: int| 0 <= k < raw.pheaders@.len() ==> spec_parse_pheader(b, 32 + 37 * k) == Ok::<JifRawPheader, PheaderError>(#[trigger] raw.pheaders@[k])
                &&& raw.itree_nodes@.len() == total_nodes(raw.pheaders@)
                &&& forall|k: int| 0 <= k < raw.pheaders@.len() ==> pheader_in_tables(#[trigger] raw.pheaders@[k], h.strings_size, raw.itree_nodes@.len() as int)
                &&& raw.wf()
                &&& forall|k: int| 0 <= k < raw.ord_chunks@.len() ==> (#[trigger] raw.ord_chunks@[k]).n_pages != 0
                &&& spec_page_aligned(raw.data_offset as int)
                &&& forall|i: int, j: int| 0 <= i < j < raw.data_segments@.len() ==> (#[trigger] raw.data_segments@[i]).0.0 < (#[trigger] raw.data_segments@[j]).0.0
            },
    {
        let ghost b = r.bytes@;
        let (header, pheaders, n_nodes) = read_front(r)?;
        let (strings_backing, itree_nodes) = read_mid(r, header, &pheaders, n_nodes)?;
        let (ord_chunks, data_offset) = read_tail(r, header)?;
        let ghost t = parse_tables(b)->Ok_0;
        let ranges = match data_ranges(&itree_nodes, data_offset) {
            Ok(v) => v,
            Err(e) => {
                return Err(e);
            },
        };
        if let Some(k) = first_gap(&ranges) {
            proof {
                assert forall|v: Seq<(u64, u64)>| !data_section_ok(t.3, t.5, v) by {
                    if data_section_ok(t.3, t.5, v) {
                        lemma_ranges_list_unique(t.3, t.5, v, ranges@);
                    }
                }
            }
            return Err(JifError::DataSegmentNotFound { data_range: ranges[k - 1], virtual_range: ranges[k], found_len: 0 });
        }
        assert(data_section_ok(t.3, t.5, ranges@));
        let data_segments = read_data(r, &ranges);
        proof {
            assert forall|i: int, j: int| 0 <= i < j < data_segments@.len() implies (#[trigger] data_segments@[i]).0.0 < (#[trigger] data_segments@[j]).0.0 by {
                assert(ranges@[i].0 < ranges@[j].0);
            }
        }
        let raw = JifRaw { pheaders, strings_backing, itree_nodes, ord_chunks, data_offset, data_segments, n_prefetch: header.n_prefetch };
        assert(raw_read_from(b, raw));
        Ok(raw)
    }
}

/// The deduper made of data segments depends only on their ranges and bytes
proof fn lemma_dedup_of_views(m1: Seq<((u64, u64), Vec<u8>)>, m2: Seq<((u64, u64), Vec<u8>)>)
    requires
        segs_view(m1) == segs_view(m2),
    ensures
        crate::deduper::dedup_of(m1) == crate::deduper::dedup_of(m2),
    decreases m1.len(),
{
    assert(m1.len() == m2.len()) by {
        assert(segs_view(m1).len() == m1.len());
        assert(segs_view(m2).len() == m2.len());
    }
    if m1.len() > 0 {
        assert(segs_view(m1.drop_last()) =~= segs_view(m2.drop_last())) by {
            assert forall|i: int| 0 <= i < m1.len() - 1 implies segs_view(m1.drop_last())[i] == segs_view(m2.drop_last())[i] by {
                assert(segs_view(m1)[i] == segs_view(m2)[i]);
            }
        }
        lemma_dedup_of_views(m1.drop_last(), m2.drop_last());
        assert(segs_view(m1)[m1.len() - 1] == segs_view(m2)[m1.len() - 1]);
    }
}

/// Two raw JIFs read from the same file materialize alike
proof fn lemma_read_materializes(b: Seq<u8>, x: JifRaw, y: JifRaw)
    requires
        raw_read_from(b, x),
        raw_read_from(b, y),
    ensures
        materializes(x) == materializes(y),
{
    let t = parse_tables(b)->Ok_0;
    let vx = choose|v: Seq<(u64, u64)>|
        #![trigger data_section_ok(t.3, t.5, v)]
        data_section_ok(t.3, t.5, v) && segs_view(x.data_segments@) == read_segments(b, t.5 as int, v);
    let vy = choose|v: Seq<(u64, u64)>|
        #![trigger data_section_ok(t.3, t.5, v)]
        data_section_ok(t.3, t.5, v) && segs_view(y.data_segments@) == read_segments(b, t.5 as int, v);
    lemma_ranges_list_unique(t.3, t.5, vx, vy);
    lemma_dedup_of_views(x.data_segments@, y.data_segments@);
    let dv = crate::deduper::dedup_of(x.data_segments@).0;
    let idx = crate::deduper::dedup_of(x.data_segments@).1;
    assert(x.itree_nodes@.len() == y.itree_nodes@.len()) by {
        assert(node_views(x.itree_nodes@).len() == node_views(y.itree_nodes@).len());
    }
    assert forall|j: int| 0 <= j < x.itree_nodes@.len() implies (#[trigger] x.itree_nodes@[j]).ranges@ == y.itree_nodes@[j].ranges@ by {
        assert(node_views(x.itree_nodes@)[j] == node_views(y.itree_nodes@)[j]);
    }
    assert forall|k: int| 0 <= k < x.pheaders@.len() implies pheader_materializes(x, #[trigger] x.pheaders@[k], dv, idx)
        == pheader_materializes(y, x.pheaders@[k], dv, idx) by {
        if pheader_materializes(x, x.pheaders@[k], dv, idx) {
            lemma_materializes_same(x, y, x.pheaders@[k], dv, idx);
        }
        if pheader_materializes(y, x.pheaders@[k], dv, idx) {
            lemma_materializes_same(y, x, x.pheaders@[k], dv, idx);
        }
    }
}

/// A raw pheader materializes alike in two raw JIFs with the same string table, tree node
/// intervals and data offset
proof fn lemma_materializes_same(
    x: JifRaw,
    y: JifRaw,
    p: JifRawPheader,
    dv: Seq<Option<Seq<u8>>>,
    idx: Seq<((u64, u64), DedupToken)>,
)
    requires
        x.strings_backing@ == y.strings_backing@,
        x.data_offset == y.data_offset,
        x.itree_nodes@.len() == y.itree_nodes@.len(),
        forall|j: int| 0 <= j < x.itree_nodes@.len() ==> (#[trigger] x.itree_nodes@[j]).ranges@ == y.itree_nodes@[j].ranges@,
        pheader_materializes(x, p, dv, idx),
    ensures
        pheader_materializes(y, p, dv, idx),
{
    let index = p.itree_idx as int;
    let n = p.itree_n_nodes as int;
    let vr = (p.vbegin, p.vend);
    assert forall|j: int, kk: int| index <= j < index + n && 0 <= kk < 3 implies crate::jif::slot_resolvable(
        #[trigger] y.itree_nodes@[j].ranges@[kk],
        y.data_offset,
        dv,
        idx,
    ) by {
        assert(x.itree_nodes@[j].ranges@ == y.itree_nodes@[j].ranges@);
        assert(crate::jif::slot_resolvable(x.itree_nodes@[j].ranges@[kk], x.data_offset, dv, idx));
    }
    if crate::jif::string_at(x.strings_backing@, p.pathname_offset as int) is Some {
        let tt = choose|tt: crate::itree::ITree<crate::itree::interval::RefIntervalData>| ref_tree_from(x, index, n, vr, idx, tt);
        assert forall|i: int, kk: int| 0 <= i < n && 0 <= kk < 3 implies #[trigger] tt.nodes@[i].ranges@[kk] == crate::itree::itree_node::spec_ref_from_raw(
            y.itree_nodes@[index + i].ranges@[kk],
            y.data_offset,
            idx,
        ) by {
            assert(x.itree_nodes@[index + i].ranges@ == y.itree_nodes@[index + i].ranges@);
            assert(tt.nodes@[i].ranges@[kk] == crate::itree::itree_node::spec_ref_from_raw(x.itree_nodes@[index + i].ranges@[kk], x.data_offset, idx));
        }
        assert(ref_tree_from(y, index, n, vr, idx, tt));
    } else {
        let tt = choose|tt: crate::itree::ITree<crate::itree::interval::AnonIntervalData>| anon_tree_from(x, index, n, vr, idx, tt);
        assert forall|i: int, kk: int| 0 <= i < n && 0 <= kk < 3 implies crate::itree::itree_node::spec_anon_from_raw(
            y.itree_nodes@[index + i].ranges@[kk],
            y.data_offset,
            idx,
        ) == Ok::<crate::itree::interval::Interval<crate::itree::interval::AnonIntervalData>, IntervalError>(#[trigger] tt.nodes@[i].ranges@[kk]) by {
            assert(x.itree_nodes@[index + i].ranges@ == y.itree_nodes@[index + i].ranges@);
            assert(crate::itree::itree_node::spec_anon_from_raw(x.itree_nodes@[index + i].ranges@[kk], x.data_offset, idx)
                == Ok::<crate::itree::interval::Interval<crate::itree::interval::AnonIntervalData>, IntervalError>(tt.nodes@[i].ranges@[kk]));
        }
        assert(anon_tree_from(y, index, n, vr, idx, tt));
    }
}

impl Jif {
    /// Read a [`Jif`] from the bytes of a file: parse the raw JIF, then materialize it; it succeeds
    /// exactly where the file parses and what it parses to materializes
    pub fn from_reader(r: &mut ByteReader) -> (res: JifResult<Self>)
        requires
            old(r).pos == 0,
        ensures
            final(r).bytes == old(r).bytes,
            res is Ok <==> jif_file_ok(old(r).bytes@) && exists|raw: JifRaw| raw_read_from(old(r).bytes@, raw) && materializes(raw),
            parse_tables(old(r).bytes@) matches Err(e) ==> res == Err::<Jif, JifError>(e),
            res matches Ok(j) ==> exists|raw: JifRaw, idx: Seq<((u64, u64), DedupToken)>|
                raw_read_from(old(r).bytes@, raw) && #[trigger] materialized_from(raw, j, idx) && j.ord_chunks == raw.ord_chunks,
            spec_parse_header(old(r).bytes@) matches Err(e) ==> res == Err::<Jif, JifError>(e),
            res matches Ok(j) ==> {
                let b = old(r).bytes@;
                let h = spec_parse_header(b)->Ok_0;
                &&& spec_parse_header(b) is Ok
                &&& j.pheaders@.len() == h.n_pheaders
                &&& exists|raw: JifRaw, idx: Seq<((u64, u64), DedupToken)>| {
                    &&& #[trigger] materialized_from(raw, j, idx)
                    &&& raw.pheaders@.len() == h.n_pheaders
                    &&& j.ord_chunks == raw.ord_chunks
                    &&& forall|k: int| 0 <= k < raw.pheaders@.len() ==> spec_parse_pheader(b, 32 + 37 * k) == Ok::<JifRawPheader, PheaderError>(#[trigger] raw.pheaders@[k])
                }
            },
    {
        let ghost b = r.bytes@;
        let raw = JifRaw::from_reader(r)?;
        let ghost g = raw;
        let j = match Jif::from_raw(raw) {
            Ok(j) => j,
            Err(e) => {
                proof {
                    assert forall|x: JifRaw| raw_read_from(b, x) implies !materializes(x) by {
                        lemma_read_materializes(b, g, x);
                    }
                }
                return Err(e);
            },
        };
        proof {
            let idx = choose|idx: Seq<((u64, u64), DedupToken)>| #[trigger] materialized_from(g, j, idx);
            assert(materialized_from(g, j, idx));
        }
        Ok(j)
    }
}

} // verus!
