//! Dumping a materialized JIF: laying it out and writing the result

use vstd::prelude::*;
use vstd::bytes::*;
use crate::deduper::{lemma_find_holds, lemma_token_at_index, spec_insert};
use crate::itree::interval::{RawInterval, DataKind, Interval, IntervalData, IntermediateInterval, IntermediateIntervalData};
use crate::itree::itree_node::{lower_iv, lower_seq};
use crate::itree::tree::flat;
use crate::jif::{JIF_VERSION, Jif, JifHeaderBinary, JifRaw, distinct_paths, spec_data_offset, strings_size};
use crate::layout::{can_lay_out, data_len, iv_len, layout, lays_out, lower_pheaders, pheader_lowered, sort_chunks, chunks_of_kind, sort_pheaders, string_table, lemma_sort_pheaders, node_count};
use crate::ord::{OrdChunk, ORD_FLAG_MASK};
use crate::pheader::{JifPheader, JifRawPheader};
use crate::error::{ITreeNodeError, JifError, OrdChunkError, PheaderError};
use crate::read::{data_section_ok, jif_file_ok, parse_tables, raw_read_from, range_end, read_segments, segments_cursor, segs_view, nonempty_chunks, node_views, parse_mid, parse_nodes, parse_ords, parse_tail, spec_parse_node, spec_parse_ord, first_table_error, jif_magic, parse_front, parse_pheaders, pheader_in_tables, spec_parse_header, spec_parse_pheader, table_error, total_nodes};
use crate::itree::itree_node::RawITreeNode;
use crate::utils::{PAGE_SIZE, spec_align_up, lemma_align_up};
use crate::write::{interval_valid, law_node_roundtrip, law_ord_roundtrip, ord_valid, pheader_valid, fill, gap_to_data, header_bytes, jif_bytes, node_bytes, nodes_bytes, ord_bytes, ords_bytes, pad, pheader_bytes, pheaders_bytes, segments_bytes, tables_bytes};

verus! {

/// Every data interval has ordered bounds and holds as many bytes as it spans: its own, or
/// those of a segment of the deduper `d`
pub open spec fn ivs_sized<Data: IntervalData>(s: Seq<Interval<Data>>, d: Seq<Option<Seq<u8>>>) -> bool {
    forall|k: int|
        0 <= k < s.len() && ((#[trigger] s[k]).data.kind() == DataKind::Owned || s[k].data.kind() == DataKind::Ref)
            ==> {
            &&& s[k].start <= s[k].end
            &&& s[k].data.kind() == DataKind::Owned ==> s[k].data.owned_bytes().len() == s[k].spec_len()
            &&& s[k].data.kind() == DataKind::Ref ==> {
                let i = s[k].data.token().index();
                &&& 0 <= i < d.len()
                &&& d[i] is Some
                &&& d[i]->Some_0.len() == s[k].spec_len()
            }
        }
}

/// Every data interval of the pheader holds as many bytes as it spans
pub open spec fn ph_sized(p: JifPheader, d: Seq<Option<Seq<u8>>>) -> bool {
    match p {
        JifPheader::Anonymous { itree, .. } => ivs_sized(flat(itree.nodes@), d),
        JifPheader::Reference { itree, .. } => ivs_sized(flat(itree.nodes@), d),
    }
}

/// The deduper contents `d2` keep the segments of `d`
pub open spec fn extends(d: Seq<Option<Seq<u8>>>, d2: Seq<Option<Seq<u8>>>) -> bool {
    &&& d.len() <= d2.len()
    &&& forall|i: int| 0 <= i < d.len() ==> #[trigger] d2[i] == d[i]
}

/// Every lowered data interval names a segment of `d` as long as it is
pub open spec fn lowered_sized(ls: Seq<IntermediateInterval>, d: Seq<Option<Seq<u8>>>) -> bool {
    forall|k: int|
        0 <= k < ls.len() && (#[trigger] ls[k]).data is Ref ==> {
            let i = ls[k].data->Ref_0.index();
            &&& 0 <= i < d.len()
            &&& d[i] is Some
            &&& d[i]->Some_0.len() == iv_len(ls[k])
        }
}

/// Lowering intervals whose data is sized names segments as long as the intervals
proof fn lemma_lower_seq_sized<Data: IntervalData>(s: Seq<Interval<Data>>, d0: Seq<Option<Seq<u8>>>, d: Seq<Option<Seq<u8>>>)
    requires
        ivs_sized(s, d0),
        extends(d0, d),
        d.len() + s.len() <= usize::MAX,
    ensures
        extends(d, lower_seq(s, d).1),
        lowered_sized(lower_seq(s, d).0, lower_seq(s, d).1),
        lower_seq(s, d).1.len() <= d.len() + s.len(),
    decreases s.len(),
{
    if s.len() > 0 {
        let t = s.drop_last();
        assert(ivs_sized(t, d0)) by {
            assert forall|k: int| 0 <= k < t.len() implies #[trigger] t[k] == s[k] by {}
        }
        lemma_lower_seq_sized(t, d0, d);
        let p = lower_seq(t, d);
        let iv = s.last();
        assert(s[s.len() - 1] == iv);
        let l = lower_iv(iv, p.1);
        assert(extends(d0, p.1)) by {
            assert forall|i: int| 0 <= i < d0.len() implies #[trigger] p.1[i] == d0[i] by {
                assert(p.1[i] == d[i]);
            }
        }
        // the segments laid out so far stay as they were
        assert(extends(p.1, l.1) && (iv.data.kind() == DataKind::Owned ==> l.0.data is Ref && ({
            let i = l.0.data->Ref_0.index();
            0 <= i < l.1.len() && l.1[i] == Some(iv.data.owned_bytes())
        }))) by {
            if iv.data.kind() == DataKind::Owned {
                let ins = spec_insert(p.1, iv.data.owned_bytes());
                lemma_find_holds(p.1, iv.data.owned_bytes(), 0);
                lemma_token_at_index(ins.1);
            }
        }
        let r = lower_seq(s, d);
        assert(r.0 == p.0.push(l.0));
        assert forall|k: int| 0 <= k < r.0.len() && (#[trigger] r.0[k]).data is Ref implies {
            let i = r.0[k].data->Ref_0.index();
            &&& 0 <= i < r.1.len()
            &&& r.1[i] is Some
            &&& r.1[i]->Some_0.len() == iv_len(r.0[k])
        } by {
            if k < p.0.len() {
                assert(r.0[k] == p.0[k]);
            } else {
                assert(r.0[k] == l.0);
                if iv.data.kind() == DataKind::Ref {
                    assert(p.1[iv.data.token().index()] == d0[iv.data.token().index()]);
                }
            }
        }
    }
}

/// Lowering pheaders whose data is sized names segments as long as the intervals
proof fn lemma_lower_pheaders_sized(ps: Seq<JifPheader>, d0: Seq<Option<Seq<u8>>>)
    requires
        forall|i: int| 0 <= i < ps.len() ==> (#[trigger] ps[i]).wf() && ph_sized(ps[i], d0),
        d0.len() + 3 * node_count(ps) <= usize::MAX,
    ensures
        extends(d0, lower_pheaders(ps, d0).1),
        lowered_sized(lower_pheaders(ps, d0).0, lower_pheaders(ps, d0).1),
        lower_pheaders(ps, d0).1.len() <= d0.len() + 3 * node_count(ps),
    decreases ps.len(),
{
    if ps.len() > 0 {
        let t = ps.drop_last();
        let last = ps.last();
        assert(ps[ps.len() - 1] == last);
        assert(last.wf() && ph_sized(last, d0));
        assert(node_count(ps) == node_count(t) + crate::jif::pheader_nodes(last));
        assert(crate::jif::pheader_nodes(last) >= 0);
        assert forall|i: int| 0 <= i < t.len() implies (#[trigger] t[i]).wf() && ph_sized(t[i], d0) by {
            assert(t[i] == ps[i]);
        }
        lemma_lower_pheaders_sized(t, d0);
        let p = lower_pheaders(t, d0);
        match last {
            JifPheader::Anonymous { itree, .. } => {
                crate::fragment::lemma_flat_len(itree.nodes@);
                lemma_lower_seq_sized(flat(itree.nodes@), d0, p.1);
            },
            JifPheader::Reference { itree, .. } => {
                crate::fragment::lemma_flat_len(itree.nodes@);
                lemma_lower_seq_sized(flat(itree.nodes@), d0, p.1);
            },
        }
        let l = pheader_lowered(last, p.1);
        let r = lower_pheaders(ps, d0);
        assert(r.0 == p.0 + l.0);
        assert(r.1 == l.1);
        assert forall|k: int| 0 <= k < r.0.len() && (#[trigger] r.0[k]).data is Ref implies {
            let i = r.0[k].data->Ref_0.index();
            &&& 0 <= i < r.1.len()
            &&& r.1[i] is Some
            &&& r.1[i]->Some_0.len() == iv_len(r.0[k])
        } by {
            if k < p.0.len() {
                assert(r.0[k] == p.0[k]);
            } else {
                assert(r.0[k] == l.0[k - p.0.len()]);
            }
        }
    }
}

/// The string table holds each string's bytes and a NUL byte
proof fn lemma_string_table_len(s: Seq<Seq<char>>)
    ensures
        string_table(s).len() == strings_size(s),
    decreases s.len(),
{
    if s.len() > 0 {
        lemma_string_table_len(s.drop_last());
    }
}

/// Each pheader takes 37 bytes
proof fn lemma_pheaders_bytes_len(ps: Seq<JifRawPheader>)
    ensures
        pheaders_bytes(ps).len() == 37 * ps.len(),
    decreases ps.len(),
{
    if ps.len() > 0 {
        lemma_pheaders_bytes_len(ps.drop_last());
        lemma_auto_spec_u64_to_from_le_bytes();
        lemma_auto_spec_u32_to_from_le_bytes();
        let p = ps.last();
        assert(pheader_bytes(p).len() == 37);
    }
}

/// Each node takes 72 bytes
proof fn lemma_nodes_bytes_len(ns: Seq<RawITreeNode>)
    ensures
        nodes_bytes(ns).len() == 72 * ns.len(),
    decreases ns.len(),
{
    if ns.len() > 0 {
        lemma_nodes_bytes_len(ns.drop_last());
        lemma_auto_spec_u64_to_from_le_bytes();
        assert(node_bytes(ns.last()).len() == 72);
    }
}

/// Each ordering chunk takes 24 bytes
proof fn lemma_ords_bytes_len(cs: Seq<OrdChunk>)
    ensures
        ords_bytes(cs).len() == 24 * cs.len(),
    decreases cs.len(),
{
    if cs.len() > 0 {
        lemma_ords_bytes_len(cs.drop_last());
        lemma_auto_spec_u64_to_from_le_bytes();
        assert(ord_bytes(cs.last()).len() == 24);
    }
}

/// Aligning after an aligned prefix aligns what follows it
proof fn lemma_align_add(a: int, x: int)
    requires
        a >= 0,
        x >= 0,
        a % 4096 == 0,
    ensures
        spec_align_up(a + x, 4096) == a + spec_align_up(x, 4096),
{
    assert((a + x) % 4096 == x % 4096) by (nonlinear_arith)
        requires
            a >= 0,
            x >= 0,
            a % 4096 == 0,
    ;
}

/// Padding reaches the next page boundary
proof fn lemma_pad_len(cursor: int, byte: u8)
    requires
        cursor >= 0,
    ensures
        pad(cursor, byte).len() == spec_align_up(cursor, 4096) - cursor,
{
    lemma_align_up(cursor, 4096);
}

/// The chunks of one kind come from the list, and the three kinds share the list out
proof fn lemma_chunks_of_kind(s: Seq<OrdChunk>)
    ensures
        chunks_of_kind(s, crate::itree::interval::DataSource::Private).len() + chunks_of_kind(s, crate::itree::interval::DataSource::Zero).len()
            + chunks_of_kind(s, crate::itree::interval::DataSource::Shared).len() == s.len(),
        forall|k: crate::itree::interval::DataSource, i: int| 0 <= i < chunks_of_kind(s, k).len() ==> exists|j: int|
            0 <= j < s.len() && #[trigger] chunks_of_kind(s, k)[i] == s[j],
    decreases s.len(),
{
    if s.len() > 0 {
        let t = s.drop_last();
        lemma_chunks_of_kind(t);
        assert forall|k: crate::itree::interval::DataSource, i: int| 0 <= i < chunks_of_kind(s, k).len() implies exists|j: int|
            0 <= j < s.len() && #[trigger] chunks_of_kind(s, k)[i] == s[j] by {
            if i < chunks_of_kind(t, k).len() {
                assert(chunks_of_kind(s, k)[i] == chunks_of_kind(t, k)[i]);
                let j = choose|j: int| 0 <= j < t.len() && chunks_of_kind(t, k)[i] == t[j];
                assert(t[j] == s[j]);
            } else {
                assert(chunks_of_kind(s, k)[i] == s[s.len() - 1]);
            }
        }
    }
}

/// Segments laid one after the other from `cursor`, each holding as many bytes as its range,
/// take the bytes up to the end of the last one
proof fn lemma_segments_len(segs: Seq<((u64, u64), Vec<u8>)>, cursor: int, end: int)
    requires
        segs.len() == 0 ==> cursor == end,
        segs.len() > 0 ==> segs[0].0.0 == cursor && segs.last().0.1 == end,
        forall|k: int, l: int| 0 <= k && l == k + 1 && l < segs.len() ==> (#[trigger] segs[k]).0.1 == (#[trigger] segs[l]).0.0,
        forall|k: int| 0 <= k < segs.len() ==> (#[trigger] segs[k]).0.0 <= segs[k].0.1 && segs[k].1@.len() == segs[k].0.1
            - segs[k].0.0,
    ensures
        segments_bytes(segs, cursor).len() == end - cursor,
    decreases segs.len(),
{
    if segs.len() > 0 {
        let rest = segs.drop_first();
        assert forall|k: int, l: int| 0 <= k && l == k + 1 && l < rest.len() implies (#[trigger] rest[k]).0.1 == (#[trigger] rest[l]).0.0 by {
            assert(rest[k] == segs[k + 1] && rest[l] == segs[l + 1]);
        }
        assert forall|k: int| 0 <= k < rest.len() implies (#[trigger] rest[k]).0.0 <= rest[k].0.1 && rest[k].1@.len() == rest[k].0.1
            - rest[k].0.0 by {
            assert(rest[k] == segs[k + 1]);
        }
        if rest.len() > 0 {
            assert(rest[0] == segs[1]);
            assert(rest.last() == segs.last());
        }
        lemma_segments_len(rest, segs[0].0.1 as int, end);
    }
}

/// The sum of aligned values is aligned
proof fn lemma_aligned_sum(a: int, b: int)
    requires
        a >= 0,
        b >= 0,
        a % 4096 == 0,
        b % 4096 == 0,
    ensures
        (a + b) % 4096 == 0,
{
    assert((a + b) % 4096 == 0) by (nonlinear_arith)
        requires
            a >= 0,
            b >= 0,
            a % 4096 == 0,
            b % 4096 == 0,
    ;
}

/// The raw JIF that lays out a JIF whose data is sized can be written, and its bytes run up to
/// the end of its data section
#[verifier::spinoff_prover]
#[verifier::rlimit(40)]
proof fn lemma_writable(j: Jif, raw: JifRaw)
    requires
        can_lay_out(j),
        lays_out(j, raw),
        lowered_sized(
            lower_pheaders(sort_pheaders(j.pheaders@), j.deduper@).0,
            lower_pheaders(sort_pheaders(j.pheaders@), j.deduper@).1,
        ),
        forall|i: int| 0 <= i < j.ord_chunks@.len() ==> (#[trigger] j.ord_chunks@[i]).vaddr & !ORD_FLAG_MASK == 0,
        spec_data_offset(sort_pheaders(j.pheaders@), j.ord_chunks@.len() as int) + data_len(
            lower_pheaders(sort_pheaders(j.pheaders@), j.deduper@).0,
        ) + 2 * PAGE_SIZE <= usize::MAX,
    ensures
        raw.writable(),
        jif_bytes(raw).len() <= spec_data_offset(sort_pheaders(j.pheaders@), j.ord_chunks@.len() as int) + data_len(
            lower_pheaders(sort_pheaders(j.pheaders@), j.deduper@).0,
        ),
{
    let ps = sort_pheaders(j.pheaders@);
    let paths = distinct_paths(ps);
    let low = lower_pheaders(ps, j.deduper@);
    let chunks = sort_chunks(j.ord_chunks@);
    let n_ords = j.ord_chunks@.len() as int;
    let off = spec_data_offset(ps, n_ords);
    let lay = layout(low.0, chunks, off as u64);
    lemma_sort_pheaders(j.pheaders@);
    // the ordering chunks come from the JIF's
    lemma_chunks_of_kind(j.ord_chunks@);
    let cp = chunks_of_kind(j.ord_chunks@, crate::itree::interval::DataSource::Private);
    let cz = chunks_of_kind(j.ord_chunks@, crate::itree::interval::DataSource::Zero);
    let cs = chunks_of_kind(j.ord_chunks@, crate::itree::interval::DataSource::Shared);
    assert(chunks.len() == n_ords);
    assert forall|i: int| 0 <= i < raw.ord_chunks@.len() implies (#[trigger] raw.ord_chunks@[i]).vaddr & !ORD_FLAG_MASK == 0 by {
        let c = raw.ord_chunks@[i];
        if i < cp.len() {
            assert(c == cp[i]);
        } else if i < cp.len() + cz.len() {
            assert(c == cz[i - cp.len()]);
        } else {
            assert(c == cs[i - cp.len() - cz.len()]);
        }
        let k = choose|k: int| 0 <= k < j.ord_chunks@.len() && c == j.ord_chunks@[k];
    }
    // each segment holds as many bytes as its range
    assert forall|k: int| 0 <= k < raw.data_segments@.len() implies (#[trigger] raw.data_segments@[k]).1@.len()
        == raw.data_segments@[k].0.1 - raw.data_segments@[k].0.0 by {
        let jj = choose|jj: int|
            0 <= jj < low.0.len() && (#[trigger] low.0[jj]).data == IntermediateIntervalData::Ref(lay.0[k].0)
                && lay.0[k].1.1 - lay.0[k].1.0 == iv_len(low.0[jj]);
        assert(low.0[jj].data is Ref);
    }
    // the tables take the bytes up to the data offset
    lemma_string_table_len(paths);
    lemma_pheaders_bytes_len(raw.pheaders@);
    lemma_nodes_bytes_len(raw.itree_nodes@);
    lemma_ords_bytes_len(raw.ord_chunks@);
    lemma_auto_spec_u64_to_from_le_bytes();
    lemma_auto_spec_u32_to_from_le_bytes();
    assert(header_bytes(raw).len() == 32);
    let s1 = header_bytes(raw) + pheaders_bytes(raw.pheaders@);
    let s2 = s1 + pad(s1.len() as int, 0) + raw.strings_backing@;
    let s3 = s2 + pad(s2.len() as int, 0) + nodes_bytes(raw.itree_nodes@);
    let s4 = s3 + pad(s3.len() as int, 0xff) + ords_bytes(raw.ord_chunks@);
    let ssz = strings_size(paths);
    let nn = node_count(ps);
    lemma_pad_len(s1.len() as int, 0);
    lemma_pad_len(s2.len() as int, 0);
    lemma_pad_len(s3.len() as int, 0xff);
    lemma_pad_len(s4.len() as int, 0);
    let a1 = spec_align_up(s1.len() as int, 4096);
    lemma_align_up(s1.len() as int, 4096);
    lemma_align_up(ssz, 4096);
    lemma_align_up(72 * nn, 4096);
    lemma_align_up(24 * n_ords, 4096);
    assert(s2.len() == a1 + ssz);
    lemma_align_add(a1, ssz);
    let a2 = a1 + spec_align_up(ssz, 4096);
    lemma_aligned_sum(a1, spec_align_up(ssz, 4096));
    assert(s3.len() == a2 + 72 * nn);
    lemma_align_add(a2, 72 * nn);
    let a3 = a2 + spec_align_up(72 * nn, 4096);
    lemma_aligned_sum(a2, spec_align_up(72 * nn, 4096));
    assert(s4.len() == a3 + 24 * n_ords);
    lemma_align_add(a3, 24 * n_ords);
    assert(tables_bytes(raw) == s4 + pad(s4.len() as int, 0));
    assert(tables_bytes(raw).len() == off);
    // then the data section, segment after segment
    assert(gap_to_data(off, off) == 0);
    assert forall|k: int, l: int| 0 <= k && l == k + 1 && l < raw.data_segments@.len() implies (#[trigger] raw.data_segments@[k]).0.1
        == (#[trigger] raw.data_segments@[l]).0.0 by {
        assert(raw.data_segments@[k].0 == lay.0[k].1);
        assert(raw.data_segments@[l].0 == lay.0[l].1);
    }
    assert forall|k: int| 0 <= k < raw.data_segments@.len() implies (#[trigger] raw.data_segments@[k]).0.0
        <= raw.data_segments@[k].0.1 && raw.data_segments@[k].1@.len() == raw.data_segments@[k].0.1
        - raw.data_segments@[k].0.0 by {
        assert(raw.data_segments@[k].0 == lay.0[k].1);
    }
    if raw.data_segments@.len() > 0 {
        assert(raw.data_segments@[0].0 == lay.0[0].1);
        assert(raw.data_segments@.last().0 == lay.0.last().1);
    }
    lemma_segments_len(raw.data_segments@, off, lay.1);
    assert(fill(0, 0).len() == 0);
}

/// Pheader `k` takes the bytes from `37 * k` on
proof fn lemma_pheaders_bytes_at(ps: Seq<JifRawPheader>, k: int)
    requires
        0 <= k < ps.len(),
    ensures
        pheaders_bytes(ps).subrange(37 * k, 37 * k + 37) == pheader_bytes(ps[k]),
    decreases ps.len(),
{
    let t = ps.drop_last();
    lemma_pheaders_bytes_len(t);
    lemma_pheaders_bytes_len(ps);
    lemma_auto_spec_u64_to_from_le_bytes();
    lemma_auto_spec_u32_to_from_le_bytes();
    assert(pheader_bytes(ps.last()).len() == 37);
    if k < ps.len() - 1 {
        lemma_pheaders_bytes_at(t, k);
        assert(pheaders_bytes(ps).subrange(37 * k, 37 * k + 37) =~= pheaders_bytes(t).subrange(37 * k, 37 * k + 37));
        assert(t[k] == ps[k]);
    } else {
        assert(pheaders_bytes(ps).subrange(37 * k, 37 * k + 37) =~= pheader_bytes(ps.last()));
    }
}

/// A written JIF starts with its header and its pheaders
proof fn lemma_jif_prefix(raw: JifRaw)
    ensures
        jif_bytes(raw).subrange(0, (header_bytes(raw).len() + pheaders_bytes(raw.pheaders@).len()) as int)
            == header_bytes(raw) + pheaders_bytes(raw.pheaders@),
{
    let s1 = header_bytes(raw) + pheaders_bytes(raw.pheaders@);
    let s2 = s1 + pad(s1.len() as int, 0) + raw.strings_backing@;
    let s3 = s2 + pad(s2.len() as int, 0) + nodes_bytes(raw.itree_nodes@);
    let s4 = s3 + pad(s3.len() as int, 0xff) + ords_bytes(raw.ord_chunks@);
    let t = tables_bytes(raw);
    assert(t == s4 + pad(s4.len() as int, 0));
    let l = s1.len() as int;
    assert(s2.subrange(0, l) =~= s1);
    assert(s3.subrange(0, l) =~= s2.subrange(0, l));
    assert(s4.subrange(0, l) =~= s3.subrange(0, l));
    assert(t.subrange(0, l) =~= s4.subrange(0, l));
    let b = jif_bytes(raw);
    assert(b.subrange(0, l) =~= t.subrange(0, l));
}

/// Bytes that start with a written header parse back to it
#[verifier::rlimit(50)]
proof fn lemma_header_parse(b: Seq<u8>, h: Seq<u8>, n: u32, ss: u32, its: u32, os: u32, n_prefetch: u64)
    requires
        b.len() >= 32,
        b.subrange(0, 32) == h,
        h == jif_magic() + spec_u32_to_le_bytes(n) + spec_u32_to_le_bytes(ss) + spec_u32_to_le_bytes(its)
            + spec_u32_to_le_bytes(os) + spec_u32_to_le_bytes(JIF_VERSION) + spec_u64_to_le_bytes(n_prefetch),
        ss % 4096 == 0,
        its % 4096 == 0,
        os % 4096 == 0,
    ensures
        spec_parse_header(b) == Ok::<JifHeaderBinary, JifError>(
            JifHeaderBinary { n_pheaders: n, strings_size: ss, itrees_size: its, ord_size: os, version: JIF_VERSION, n_prefetch },
        ),
{
    lemma_auto_spec_u64_to_from_le_bytes();
    lemma_auto_spec_u32_to_from_le_bytes();
    assert(b.subrange(0, 4) =~= h.subrange(0, 4));
    assert(h.subrange(0, 4) =~= jif_magic());
    let x1 = jif_magic() + spec_u32_to_le_bytes(n);
    let x2 = x1 + spec_u32_to_le_bytes(ss);
    assert(x1.subrange(4, 8) =~= spec_u32_to_le_bytes(n));
    assert(x2.subrange(8, 12) =~= spec_u32_to_le_bytes(ss));
    assert(h.subrange(4, 8) =~= x1.subrange(4, 8));
    assert(h.subrange(8, 12) =~= x2.subrange(8, 12));
    assert(b.subrange(4, 8) =~= h.subrange(4, 8));
    assert(b.subrange(8, 12) =~= h.subrange(8, 12));
    let x3 = x2 + spec_u32_to_le_bytes(its);
    let x4 = x3 + spec_u32_to_le_bytes(os);
    let x5 = x4 + spec_u32_to_le_bytes(JIF_VERSION);
    assert(h == x5 + spec_u64_to_le_bytes(n_prefetch));
    assert(x3.subrange(12, 16) =~= spec_u32_to_le_bytes(its));
    assert(x4.subrange(16, 20) =~= spec_u32_to_le_bytes(os));
    assert(x5.subrange(20, 24) =~= spec_u32_to_le_bytes(JIF_VERSION));
    assert(h.subrange(12, 16) =~= x3.subrange(12, 16));
    assert(h.subrange(16, 20) =~= x4.subrange(16, 20));
    assert(h.subrange(20, 24) =~= x5.subrange(20, 24));
    assert(h.subrange(24, 32) =~= spec_u64_to_le_bytes(n_prefetch));
    assert(b.subrange(12, 16) =~= h.subrange(12, 16));
    assert(b.subrange(16, 20) =~= h.subrange(16, 20));
    assert(b.subrange(20, 24) =~= h.subrange(20, 24));
    assert(b.subrange(24, 32) =~= h.subrange(24, 32));
}

/// Reading back the header of a written JIF gives back its counts, each section's size
/// rounded up to a page
pub proof fn law_header_roundtrip(raw: JifRaw)
    requires
        raw.pheaders@.len() <= u32::MAX,
        spec_align_up(raw.strings_backing@.len() as int, PAGE_SIZE as int) <= u32::MAX,
        spec_align_up((raw.itree_nodes@.len() * 72) as int, PAGE_SIZE as int) <= u32::MAX,
        spec_align_up((raw.ord_chunks@.len() * 24) as int, PAGE_SIZE as int) <= u32::MAX,
    ensures
        spec_parse_header(jif_bytes(raw)) == Ok::<JifHeaderBinary, JifError>(
            JifHeaderBinary {
                n_pheaders: raw.pheaders@.len() as u32,
                strings_size: spec_align_up(raw.strings_backing@.len() as int, PAGE_SIZE as int) as u32,
                itrees_size: spec_align_up((raw.itree_nodes@.len() * 72) as int, PAGE_SIZE as int) as u32,
                ord_size: spec_align_up((raw.ord_chunks@.len() * 24) as int, PAGE_SIZE as int) as u32,
                version: JIF_VERSION,
                n_prefetch: raw.n_prefetch,
            },
        ),
{
    let b = jif_bytes(raw);
    let h = header_bytes(raw);
    let ph = pheaders_bytes(raw.pheaders@);
    lemma_auto_spec_u64_to_from_le_bytes();
    lemma_auto_spec_u32_to_from_le_bytes();
    lemma_align_up(raw.strings_backing@.len() as int, 4096);
    lemma_align_up((raw.itree_nodes@.len() * 72) as int, 4096);
    lemma_align_up((raw.ord_chunks@.len() * 24) as int, 4096);
    assert(h.len() == 32);
    lemma_jif_prefix(raw);
    let pre = b.subrange(0, 32 + ph.len() as int);
    assert(b.subrange(0, 32) =~= pre.subrange(0, 32));
    assert(pre.subrange(0, 32) =~= h);
    lemma_header_parse(
        b,
        h,
        raw.pheaders@.len() as u32,
        spec_align_up(raw.strings_backing@.len() as int, PAGE_SIZE as int) as u32,
        spec_align_up((raw.itree_nodes@.len() * 72) as int, PAGE_SIZE as int) as u32,
        spec_align_up((raw.ord_chunks@.len() * 24) as int, PAGE_SIZE as int) as u32,
        raw.n_prefetch,
    );
}

/// Reading back the pheaders of a written JIF gives them back
pub proof fn law_pheaders_roundtrip(raw: JifRaw)
    requires
        forall|k: int| 0 <= k < raw.pheaders@.len() ==> pheader_valid(#[trigger] raw.pheaders@[k]),
    ensures
        forall|k: int| 0 <= k < raw.pheaders@.len() ==> spec_parse_pheader(jif_bytes(raw), 32 + 37 * k)
            == Ok::<JifRawPheader, PheaderError>(#[trigger] raw.pheaders@[k]),
{
    let b = jif_bytes(raw);
    let h = header_bytes(raw);
    let ph = pheaders_bytes(raw.pheaders@);
    lemma_auto_spec_u64_to_from_le_bytes();
    lemma_auto_spec_u32_to_from_le_bytes();
    lemma_pheaders_bytes_len(raw.pheaders@);
    assert(h.len() == 32);
    lemma_jif_prefix(raw);
    let pre = b.subrange(0, 32 + ph.len() as int);
    assert forall|k: int| 0 <= k < raw.pheaders@.len() implies spec_parse_pheader(b, 32 + 37 * k)
        == Ok::<JifRawPheader, PheaderError>(#[trigger] raw.pheaders@[k]) by {
        lemma_pheaders_bytes_at(raw.pheaders@, k);
        assert(b.subrange(32 + 37 * k, 32 + 37 * k + 37) =~= pre.subrange(32 + 37 * k, 32 + 37 * k + 37));
        assert(pre.subrange(32 + 37 * k, 32 + 37 * k + 37) =~= ph.subrange(37 * k, 37 * k + 37));
        crate::write::law_pheader_roundtrip(raw.pheaders@[k], b, 32 + 37 * k);
    }
}

impl Jif {
    /// Write the JIF: it is laid out as [`JifRaw::from_materialized`] does, then written as
    /// [`JifRaw::to_writer`] does. Gives the number of bytes written.
    ///
    /// Every data interval must hold as many bytes as it spans, and the ordering chunks' addresses
    /// must carry no flag bits.
    pub fn to_writer(self, w: &mut Vec<u8>) -> (r: usize)
        requires
            can_lay_out(self),
            forall|i: int| 0 <= i < self.pheaders@.len() ==> ph_sized(#[trigger] self.pheaders@[i], self.deduper@),
            forall|i: int| 0 <= i < self.ord_chunks@.len() ==> (#[trigger] self.ord_chunks@[i]).vaddr & !ORD_FLAG_MASK == 0,
            self.deduper@.len() + 3 * node_count(sort_pheaders(self.pheaders@)) <= usize::MAX,
            old(w)@.len() + spec_data_offset(sort_pheaders(self.pheaders@), self.ord_chunks@.len() as int) + data_len(
                lower_pheaders(sort_pheaders(self.pheaders@), self.deduper@).0,
            ) + 2 * PAGE_SIZE <= usize::MAX,
        ensures
            exists|raw: JifRaw| lays_out(self, raw) && final(w)@ == old(w)@ + jif_bytes(raw) && r == jif_bytes(raw).len(),
    {
        let ghost j = self;
        let ghost ps = sort_pheaders(j.pheaders@);
        let ghost d0 = j.deduper@;
        let ghost low = lower_pheaders(ps, d0);
        let raw = JifRaw::from_materialized(self);
        proof {
            lemma_sort_pheaders(j.pheaders@);
            assert forall|i: int| 0 <= i < ps.len() implies (#[trigger] ps[i]).wf() && ph_sized(ps[i], d0) by {
                let k = choose|k: int| 0 <= k < j.pheaders@.len() && ps[i] == j.pheaders@[k];
                assert(j.pheaders@[k].wf());
            }
            lemma_lower_pheaders_sized(ps, d0);
            lemma_writable(j, raw);
        }
        raw.to_writer(w)
    }
}

/// The header a JIF is written with: its counts, each section's size rounded up to a page
pub open spec fn written_header(raw: JifRaw) -> JifHeaderBinary {
    JifHeaderBinary {
        n_pheaders: raw.pheaders@.len() as u32,
        strings_size: spec_align_up(raw.strings_backing@.len() as int, PAGE_SIZE as int) as u32,
        itrees_size: spec_align_up((raw.itree_nodes@.len() * 72) as int, PAGE_SIZE as int) as u32,
        ord_size: spec_align_up((raw.ord_chunks@.len() * 24) as int, PAGE_SIZE as int) as u32,
        version: JIF_VERSION,
        n_prefetch: raw.n_prefetch,
    }
}

/// Pheaders that each parse at their place parse as a list
proof fn lemma_parse_pheaders_all(b: Seq<u8>, ps: Seq<JifRawPheader>, n: nat)
    requires
        n <= ps.len(),
        forall|k: int| 0 <= k < ps.len() ==> spec_parse_pheader(b, 32 + 37 * k) == Ok::<JifRawPheader, PheaderError>(#[trigger] ps[k]),
    ensures
        parse_pheaders(b, n) == Ok::<Seq<JifRawPheader>, JifError>(ps.take(n as int)),
    decreases n,
{
    if n == 0 {
        assert(ps.take(0) =~= Seq::<JifRawPheader>::empty());
    } else {
        lemma_parse_pheaders_all(b, ps, (n - 1) as nat);
        assert(ps.take(n as int) =~= ps.take(n - 1).push(ps[n - 1]));
    }
}

/// Pheaders that lie within the tables give no table error
proof fn lemma_no_table_error(ps: Seq<JifRawPheader>, ss: u32, nn: u64, n: nat)
    requires
        n <= ps.len(),
        forall|k: int| 0 <= k < ps.len() ==> pheader_in_tables(#[trigger] ps[k], ss, nn as int),
    ensures
        first_table_error(ps, ss, nn, n) is None,
    decreases n,
{
    if n > 0 {
        lemma_no_table_error(ps, ss, nn, (n - 1) as nat);
        assert(pheader_in_tables(ps[n - 1], ss, nn as int));
        assert(table_error(ps[n - 1], n - 1, ss, nn) is None);
    }
}

/// The front of a written JIF (header and pheaders) reads back
proof fn lemma_front_roundtrip(raw: JifRaw)
    requires
        raw.pheaders@.len() <= u32::MAX,
        spec_align_up(raw.strings_backing@.len() as int, PAGE_SIZE as int) <= u32::MAX,
        spec_align_up((raw.itree_nodes@.len() * 72) as int, PAGE_SIZE as int) <= u32::MAX,
        spec_align_up((raw.ord_chunks@.len() * 24) as int, PAGE_SIZE as int) <= u32::MAX,
        forall|k: int| 0 <= k < raw.pheaders@.len() ==> pheader_valid(#[trigger] raw.pheaders@[k]),
        total_nodes(raw.pheaders@) == raw.itree_nodes@.len(),
        forall|k: int| 0 <= k < raw.pheaders@.len() ==> pheader_in_tables(
            #[trigger] raw.pheaders@[k],
            written_header(raw).strings_size,
            raw.itree_nodes@.len() as int,
        ),
    ensures
        parse_front(jif_bytes(raw)) == Ok::<(JifHeaderBinary, Seq<JifRawPheader>), JifError>((written_header(raw), raw.pheaders@)),
{
    reveal(parse_front);
    let b = jif_bytes(raw);
    law_header_roundtrip(raw);
    law_pheaders_roundtrip(raw);
    lemma_parse_pheaders_all(b, raw.pheaders@, raw.pheaders@.len());
    assert(raw.pheaders@.take(raw.pheaders@.len() as int) =~= raw.pheaders@);
    let nn = total_nodes(raw.pheaders@) as u64;
    assert(nn as int == raw.itree_nodes@.len());
    lemma_no_table_error(raw.pheaders@, written_header(raw).strings_size, nn, raw.pheaders@.len());
}

/// Each node's bytes lie at its place among the nodes' bytes
proof fn lemma_nodes_bytes_at(ns: Seq<RawITreeNode>, k: int)
    requires
        0 <= k < ns.len(),
    ensures
        nodes_bytes(ns).subrange(72 * k, 72 * k + 72) == node_bytes(ns[k]),
    decreases ns.len(),
{
    let t = ns.drop_last();
    lemma_nodes_bytes_len(t);
    lemma_nodes_bytes_len(ns);
    lemma_auto_spec_u64_to_from_le_bytes();
    assert(node_bytes(ns.last()).len() == 72);
    if k < ns.len() - 1 {
        lemma_nodes_bytes_at(t, k);
        assert(nodes_bytes(ns).subrange(72 * k, 72 * k + 72) =~= nodes_bytes(t).subrange(72 * k, 72 * k + 72));
        assert(t[k] == ns[k]);
    } else {
        assert(nodes_bytes(ns).subrange(72 * k, 72 * k + 72) =~= node_bytes(ns.last()));
    }
}

/// Each chunk's bytes lie at its place among the chunks' bytes
proof fn lemma_ords_bytes_at(cs: Seq<OrdChunk>, k: int)
    requires
        0 <= k < cs.len(),
    ensures
        ords_bytes(cs).subrange(24 * k, 24 * k + 24) == ord_bytes(cs[k]),
    decreases cs.len(),
{
    let t = cs.drop_last();
    lemma_ords_bytes_len(t);
    lemma_ords_bytes_len(cs);
    lemma_auto_spec_u64_to_from_le_bytes();
    assert(ord_bytes(cs.last()).len() == 24);
    if k < cs.len() - 1 {
        lemma_ords_bytes_at(t, k);
        assert(ords_bytes(cs).subrange(24 * k, 24 * k + 24) =~= ords_bytes(t).subrange(24 * k, 24 * k + 24));
        assert(t[k] == cs[k]);
    } else {
        assert(ords_bytes(cs).subrange(24 * k, 24 * k + 24) =~= ord_bytes(cs.last()));
    }
}

/// Where the sections of a written JIF lie, when its string table fills whole pages: the
/// strings from the page after the pheaders, then the nodes, the ordering chunks from the page
/// after the nodes, and zeros up to the end of the tables
#[verifier::rlimit(50)]
proof fn lemma_tables_layout(raw: JifRaw)
    requires
        raw.strings_backing@.len() % 4096 == 0,
    ensures
        ({
            let b = jif_bytes(raw);
            let s0 = spec_align_up((32 + 37 * raw.pheaders@.len()) as int, 4096);
            let l = raw.strings_backing@.len() as int;
            let ns = s0 + l;
            let te = ns + spec_align_up((72 * raw.itree_nodes@.len()) as int, 4096);
            let oe = te + 24 * raw.ord_chunks@.len();
            let tl = te + spec_align_up((24 * raw.ord_chunks@.len()) as int, 4096);
            &&& s0 % 4096 == 0 && s0 >= 32 + 37 * raw.pheaders@.len()
            &&& te % 4096 == 0
            &&& tables_bytes(raw).len() == tl
            &&& b.len() >= tl
            &&& b.subrange(s0, ns) == raw.strings_backing@
            &&& forall|k: int| 0 <= k < raw.itree_nodes@.len() ==> b.subrange(ns + 72 * k, ns + 72 * k + 72) == node_bytes(
                #[trigger] raw.itree_nodes@[k],
            )
            &&& forall|k: int| 0 <= k < raw.ord_chunks@.len() ==> b.subrange(te + 24 * k, te + 24 * k + 24) == ord_bytes(
                #[trigger] raw.ord_chunks@[k],
            )
            &&& forall|i: int| oe <= i < tl ==> #[trigger] b[i] == 0u8
        }),
{
    let b = jif_bytes(raw);
    let s1 = header_bytes(raw) + pheaders_bytes(raw.pheaders@);
    let s2 = s1 + pad(s1.len() as int, 0) + raw.strings_backing@;
    let s3 = s2 + pad(s2.len() as int, 0) + nodes_bytes(raw.itree_nodes@);
    let s4 = s3 + pad(s3.len() as int, 0xff) + ords_bytes(raw.ord_chunks@);
    let t = tables_bytes(raw);
    assert(t == s4 + pad(s4.len() as int, 0));
    lemma_auto_spec_u64_to_from_le_bytes();
    lemma_auto_spec_u32_to_from_le_bytes();
    lemma_pheaders_bytes_len(raw.pheaders@);
    lemma_nodes_bytes_len(raw.itree_nodes@);
    lemma_ords_bytes_len(raw.ord_chunks@);
    assert(header_bytes(raw).len() == 32);
    let n1 = s1.len() as int;
    assert(n1 == 32 + 37 * raw.pheaders@.len());
    lemma_align_up(n1, 4096);
    let s0 = spec_align_up(n1, 4096);
    let l = raw.strings_backing@.len() as int;
    let ns = s0 + l;
    assert(s2.len() == ns);
    lemma_aligned_sum(s0, l);
    lemma_align_up(ns, 4096);
    assert(pad(s2.len() as int, 0).len() == 0);
    let nn = (72 * raw.itree_nodes@.len()) as int;
    assert(s3.len() == ns + nn);
    lemma_align_add(ns, nn);
    lemma_align_up(nn, 4096);
    let te = ns + spec_align_up(nn, 4096);
    lemma_aligned_sum(ns, spec_align_up(nn, 4096));
    let om = (24 * raw.ord_chunks@.len()) as int;
    assert(s4.len() == te + om);
    lemma_align_add(te, om);
    lemma_align_up(om, 4096);
    let tl = te + spec_align_up(om, 4096);
    assert(t.len() == tl);
    assert(b.subrange(0, t.len() as int) =~= t);
    assert(b.subrange(s0, ns) =~= raw.strings_backing@) by {
        assert(b.subrange(s0, ns) =~= t.subrange(s0, ns));
        assert(t.subrange(s0, ns) =~= s2.subrange(s0, ns));
    }
    assert forall|k: int| 0 <= k < raw.itree_nodes@.len() implies b.subrange(ns + 72 * k, ns + 72 * k + 72) == node_bytes(
        #[trigger] raw.itree_nodes@[k],
    ) by {
        lemma_nodes_bytes_at(raw.itree_nodes@, k);
        assert(b.subrange(ns + 72 * k, ns + 72 * k + 72) =~= t.subrange(ns + 72 * k, ns + 72 * k + 72));
        assert(t.subrange(ns + 72 * k, ns + 72 * k + 72) =~= s3.subrange(ns + 72 * k, ns + 72 * k + 72));
        assert(s3.subrange(ns + 72 * k, ns + 72 * k + 72) =~= nodes_bytes(raw.itree_nodes@).subrange(72 * k, 72 * k + 72));
    }
    assert forall|k: int| 0 <= k < raw.ord_chunks@.len() implies b.subrange(te + 24 * k, te + 24 * k + 24) == ord_bytes(
        #[trigger] raw.ord_chunks@[k],
    ) by {
        lemma_ords_bytes_at(raw.ord_chunks@, k);
        assert(b.subrange(te + 24 * k, te + 24 * k + 24) =~= t.subrange(te + 24 * k, te + 24 * k + 24));
        assert(t.subrange(te + 24 * k, te + 24 * k + 24) =~= s4.subrange(te + 24 * k, te + 24 * k + 24));
        assert(s4.subrange(te + 24 * k, te + 24 * k + 24) =~= ords_bytes(raw.ord_chunks@).subrange(24 * k, 24 * k + 24));
    }
    assert forall|i: int| te + om <= i < tl implies #[trigger] b[i] == 0u8 by {
        assert(b[i] == t[i]);
        assert(t[i] == pad(s4.len() as int, 0)[i - s4.len()]);
    }
}

/// Eight zero bytes read as zero
proof fn lemma_zero_u64(b: Seq<u8>, p: int)
    requires
        0 <= p,
        p + 8 <= b.len(),
        forall|i: int| p <= i < p + 8 ==> #[trigger] b[i] == 0u8,
    ensures
        crate::utils::le64_at(b, p) == 0,
{
    lemma_auto_spec_u64_to_from_le_bytes();
    spec_u64_to_le_bytes_to_open(0u64);
    let z: u64 = 0;
    assert((z & 0xff) as u8 == 0 && ((z >> 8) & 0xff) as u8 == 0 && ((z >> 16) & 0xff) as u8 == 0 && ((z >> 24) & 0xff) as u8 == 0
        && ((z >> 32) & 0xff) as u8 == 0 && ((z >> 40) & 0xff) as u8 == 0 && ((z >> 48) & 0xff) as u8 == 0
        && ((z >> 56) & 0xff) as u8 == 0) by (bit_vector)
        requires
            z == 0,
    ;
    assert(b.subrange(p, p + 8) =~= spec_u64_to_le_bytes(0u64));
}

/// The least page multiple at or after `x` is `y` when `y` is a page multiple less than a
/// page after `x`
proof fn lemma_align_up_is(x: int, y: int)
    requires
        0 <= x <= y,
        y < x + 4096,
        y % 4096 == 0,
    ensures
        spec_align_up(x, 4096) == y,
{
    lemma_align_up(x, 4096);
    let a = spec_align_up(x, 4096);
    assert(a == y) by (nonlinear_arith)
        requires
            a % 4096 == 0,
            y % 4096 == 0,
            x <= a < x + 4096,
            x <= y < x + 4096,
    ;
}

/// Nodes that each parse at their place parse as a list
proof fn lemma_parse_nodes_all(b: Seq<u8>, start: int, nv: Seq<Seq<RawInterval>>, n: nat)
    requires
        n <= nv.len(),
        forall|k: int| 0 <= k < nv.len() ==> spec_parse_node(b, start + 72 * k) == Ok::<Seq<RawInterval>, ITreeNodeError>(#[trigger] nv[k]),
    ensures
        parse_nodes(b, start, n) == Ok::<Seq<Seq<RawInterval>>, JifError>(nv.take(n as int)),
    decreases n,
{
    if n == 0 {
        assert(nv.take(0) =~= Seq::<Seq<RawInterval>>::empty());
    } else {
        lemma_parse_nodes_all(b, start, nv, (n - 1) as nat);
        assert(nv.take(n as int) =~= nv.take(n - 1).push(nv[n - 1]));
    }
}

/// Chunks that each parse at their place parse as a list
proof fn lemma_parse_ords_all(b: Seq<u8>, start: int, cs: Seq<OrdChunk>, n: nat)
    requires
        n <= cs.len(),
        forall|k: int| 0 <= k < cs.len() ==> spec_parse_ord(b, start + 24 * k) == Ok::<OrdChunk, OrdChunkError>(#[trigger] cs[k]),
    ensures
        parse_ords(b, start, n) == Ok::<Seq<OrdChunk>, JifError>(cs.take(n as int)),
    decreases n,
{
    if n == 0 {
        assert(cs.take(0) =~= Seq::<OrdChunk>::empty());
    } else {
        lemma_parse_ords_all(b, start, cs, (n - 1) as nat);
        assert(cs.take(n as int) =~= cs.take(n - 1).push(cs[n - 1]));
    }
}

/// Chunks that all span pages are all kept, and empty chunks after them are left out
proof fn lemma_nonempty_prefix(cs: Seq<OrdChunk>, m: int)
    requires
        0 <= m <= cs.len(),
        forall|k: int| 0 <= k < m ==> (#[trigger] cs[k]).n_pages != 0,
        forall|k: int| m <= k < cs.len() ==> (#[trigger] cs[k]).n_pages == 0,
    ensures
        nonempty_chunks(cs) == cs.take(m),
    decreases cs.len(),
{
    if cs.len() > 0 {
        if cs.len() > m {
            lemma_nonempty_prefix(cs.drop_last(), m);
            assert(cs.drop_last().take(m) =~= cs.take(m));
        } else {
            lemma_nonempty_prefix(cs.drop_last(), m - 1);
            assert(cs.take(m) =~= cs.drop_last().take(m - 1).push(cs.last()));
        }
    } else {
        assert(cs.take(m) =~= cs);
    }
}

/// The string table and the nodes of a written JIF read back, when its string table fills whole
/// pages
#[verifier::rlimit(50)]
proof fn lemma_mid_roundtrip(raw: JifRaw)
    requires
        raw.strings_backing@.len() % 4096 == 0,
        raw.strings_backing@.len() <= u32::MAX,
        spec_align_up((raw.itree_nodes@.len() * 72) as int, PAGE_SIZE as int) <= u32::MAX,
        tables_bytes(raw).len() <= usize::MAX,
        total_nodes(raw.pheaders@) == raw.itree_nodes@.len(),
        forall|i: int| 0 <= i < raw.itree_nodes@.len() ==> (#[trigger] raw.itree_nodes@[i]).wf(),
        forall|i: int, k: int| 0 <= i < raw.itree_nodes@.len() && 0 <= k < 3 ==> interval_valid(#[trigger] raw.itree_nodes@[i].ranges@[k]),
    ensures
        parse_mid(jif_bytes(raw), written_header(raw), raw.pheaders@) == Ok::<(Seq<u8>, Seq<Seq<RawInterval>>, int), JifError>(
            (
                raw.strings_backing@,
                node_views(raw.itree_nodes@),
                spec_align_up((32 + 37 * raw.pheaders@.len()) as int, 4096) + raw.strings_backing@.len()
                    + spec_align_up((72 * raw.itree_nodes@.len()) as int, 4096),
            ),
        ),
{
    reveal(parse_mid);
    let b = jif_bytes(raw);
    lemma_tables_layout(raw);
    let h = written_header(raw);
    let l = raw.strings_backing@.len() as int;
    lemma_align_up(l, 4096);
    assert(h.strings_size == l);
    lemma_align_up((72 * raw.itree_nodes@.len()) as int, 4096);
    let s0 = spec_align_up((32 + 37 * raw.pheaders@.len()) as int, 4096);
    let ns = s0 + l;
    let nv = node_views(raw.itree_nodes@);
    assert forall|k: int| 0 <= k < nv.len() implies spec_parse_node(b, ns + 72 * k) == Ok::<Seq<RawInterval>, ITreeNodeError>(#[trigger] nv[k]) by {
        let n = raw.itree_nodes@[k];
        assert(forall|j: int| 0 <= j < 3 ==> interval_valid(#[trigger] n.ranges@[j]));
        assert(ns + 72 * k + 72 <= ns + 72 * raw.itree_nodes@.len()) by (nonlinear_arith)
            requires
                0 <= k < raw.itree_nodes@.len(),
        ;
        law_node_roundtrip(n, b, ns + 72 * k);
    }
    lemma_parse_nodes_all(b, ns, nv, raw.itree_nodes@.len());
    assert(nv.take(nv.len() as int) =~= nv);
}

/// The chunks, then empty chunks up to `n` in all
pub open spec fn padded_chunks(cs: Seq<OrdChunk>, n: nat) -> Seq<OrdChunk> {
    Seq::new(
        n,
        |k: int|
            if k < cs.len() {
                cs[k]
            } else {
                OrdChunk { timestamp_us: 0, vaddr: 0, n_pages: 0, kind: crate::itree::interval::DataSource::Zero, is_written_to: false }
            },
    )
}

/// Each chunk of the padded ordering section parses at its place
proof fn lemma_tail_chunk(raw: JifRaw, b: Seq<u8>, te: int, os: int, n_ords: int, k: int)
    requires
        b == jif_bytes(raw),
        0 <= k < n_ords,
        te >= 0,
        24 * n_ords <= os,
        24 * raw.ord_chunks@.len() <= os,
        b.len() >= te + os,
        forall|j: int| 0 <= j < raw.ord_chunks@.len() ==> b.subrange(te + 24 * j, te + 24 * j + 24) == ord_bytes(
            #[trigger] raw.ord_chunks@[j],
        ),
        forall|i: int| te + 24 * raw.ord_chunks@.len() <= i < te + os ==> #[trigger] b[i] == 0u8,
        forall|j: int| 0 <= j < raw.ord_chunks@.len() ==> ord_valid(#[trigger] raw.ord_chunks@[j]),
    ensures
        spec_parse_ord(b, te + 24 * k) == Ok::<OrdChunk, OrdChunkError>(padded_chunks(raw.ord_chunks@, n_ords as nat)[k]),
{
    let m = raw.ord_chunks@.len() as int;
    if k < m {
        assert(te + 24 * k + 24 <= te + os);
        law_ord_roundtrip(raw.ord_chunks@[k], b, te + 24 * k);
    } else {
        assert(te + 24 * k + 24 <= te + os);
        lemma_zero_u64(b, te + 24 * k);
        lemma_zero_u64(b, te + 24 * k + 8);
        lemma_zero_u64(b, te + 24 * k + 16);
        assert(crate::utils::spec_page_aligned(0int));
        let z: u64 = 0;
        assert(z & 0x0fff_ffff_ffff_ffffu64 == 0 && z & !0x1fff_ffff_ffff_ffffu64 == 0 && z & 0x1000_0000_0000_0000u64 == 0) by (bit_vector)
            requires
                z == 0,
        ;
    }
}

/// The ordering section of a written JIF reads back, when every chunk spans some pages
#[verifier::rlimit(50)]
#[verifier::spinoff_prover]
proof fn lemma_tail_roundtrip(raw: JifRaw)
    requires
        raw.strings_backing@.len() % 4096 == 0,
        spec_align_up((raw.ord_chunks@.len() * 24) as int, PAGE_SIZE as int) <= u32::MAX,
        tables_bytes(raw).len() <= usize::MAX,
        forall|k: int| 0 <= k < raw.ord_chunks@.len() ==> ord_valid(#[trigger] raw.ord_chunks@[k]) && raw.ord_chunks@[k].n_pages != 0,
    ensures
        ({
            let te = spec_align_up((32 + 37 * raw.pheaders@.len()) as int, 4096) + raw.strings_backing@.len()
                + spec_align_up((72 * raw.itree_nodes@.len()) as int, 4096);
            parse_tail(jif_bytes(raw), written_header(raw), te) == Ok::<(Seq<OrdChunk>, u64), JifError>(
                (raw.ord_chunks@, tables_bytes(raw).len() as u64),
            )
        }),
{
    reveal(parse_tail);
    let b = jif_bytes(raw);
    lemma_tables_layout(raw);
    let h = written_header(raw);
    let m = raw.ord_chunks@.len() as int;
    let om = (24 * m) as int;
    lemma_align_up(om, 4096);
    let te = spec_align_up((32 + 37 * raw.pheaders@.len()) as int, 4096) + raw.strings_backing@.len()
        + spec_align_up((72 * raw.itree_nodes@.len()) as int, 4096);
    let os = spec_align_up(om, 4096);
    assert(h.ord_size == os);
    let n_ords = (h.ord_size / 24) as int;
    assert(m <= n_ords && 24 * n_ords <= os && os < 24 * n_ords + 4096) by (nonlinear_arith)
        requires
            n_ords == os / 24,
            om == 24 * m,
            om <= os < om + 4096,
            m >= 0,
    ;
    let cs = padded_chunks(raw.ord_chunks@, n_ords as nat);
    assert forall|k: int| 0 <= k < cs.len() implies spec_parse_ord(b, te + 24 * k) == Ok::<OrdChunk, OrdChunkError>(#[trigger] cs[k]) by {
        lemma_tail_chunk(raw, b, te, os, n_ords, k);
    }
    lemma_parse_ords_all(b, te, cs, n_ords as nat);
    assert(cs.take(n_ords) =~= cs);
    lemma_nonempty_prefix(cs, m);
    assert(cs.take(m) =~= raw.ord_chunks@);
    lemma_align_up_is(te + 24 * n_ords, te + os);
}

/// The (offset, length) ranges of data segments
pub open spec fn seg_ranges(segs: Seq<((u64, u64), Vec<u8>)>) -> Seq<(u64, u64)> {
    segs.map_values(|x: ((u64, u64), Vec<u8>)| (x.0.0, (x.0.1 - x.0.0) as u64))
}

/// Data segments that follow each other from offset `start`, each as long as its range
pub open spec fn segs_contiguous_from(segs: Seq<((u64, u64), Vec<u8>)>, start: int) -> bool {
    &&& segs.len() > 0 ==> segs[0].0.0 == start
    &&& forall|k: int| 0 <= k < segs.len() ==> (#[trigger] segs[k]).0.0 <= segs[k].0.1 && segs[k].1@.len() == segs[k].0.1 - segs[k].0.0
    &&& forall|k: int| 0 <= k < segs.len() - 1 ==> (#[trigger] segs[k]).0.1 == segs[k + 1].0.0
}

/// The segments after the first follow each other from where the first ends
proof fn lemma_rest_contiguous(segs: Seq<((u64, u64), Vec<u8>)>, start: int)
    requires
        segs_contiguous_from(segs, start),
        segs.len() > 1,
    ensures
        segs_contiguous_from(segs.drop_first(), segs[0].0.1 as int),
{
    let rest = segs.drop_first();
    assert(rest[0] == segs[1]);
    assert forall|j: int| 0 <= j < rest.len() implies (#[trigger] rest[j]).0.0 <= rest[j].0.1 && rest[j].1@.len() == rest[j].0.1 - rest[j].0.0 by {
        assert(rest[j] == segs[j + 1]);
    }
    assert forall|j: int| 0 <= j < rest.len() - 1 implies (#[trigger] rest[j]).0.1 == rest[j + 1].0.0 by {
        assert(rest[j] == segs[j + 1]);
        assert(rest[j + 1] == segs[j + 2]);
    }
}

/// Written from a cursor at or past their first offset, contiguous segments take as many bytes
/// as they span
proof fn lemma_segments_bytes_span(segs: Seq<((u64, u64), Vec<u8>)>, start: int, cursor: int)
    requires
        segs_contiguous_from(segs, start),
        cursor >= start,
        segs.len() > 0,
    ensures
        segments_bytes(segs, cursor).len() == segs.last().0.1 - start,
    decreases segs.len(),
{
    let rest = segs.drop_first();
    let first = segs[0];
    assert(first.0.0 <= first.0.1 && first.1@.len() == first.0.1 - first.0.0);
    let after = cursor + first.1@.len();
    assert(crate::utils::spec_max(cursor, first.0.0 as int) + first.1@.len() == after);
    assert(fill(first.0.0 - cursor, 0) =~= Seq::<u8>::empty());
    assert(segments_bytes(segs, cursor) =~= first.1@ + segments_bytes(rest, after));
    if segs.len() > 1 {
        lemma_rest_contiguous(segs, start);
        lemma_segments_bytes_span(rest, first.0.1 as int, after);
        assert(rest.last() == segs.last());
    }
}

/// Written from a cursor at or past their first offset, contiguous segments are their bytes one
/// after the other
#[verifier::rlimit(60)]
#[verifier::spinoff_prover]
proof fn lemma_segments_bytes_at(segs: Seq<((u64, u64), Vec<u8>)>, start: int, cursor: int, k: int)
    requires
        segs_contiguous_from(segs, start),
        cursor >= start,
        0 <= k < segs.len(),
    ensures
        segments_bytes(segs, cursor).subrange(segs[k].0.0 - start, segs[k].0.1 - start) == segs[k].1@,
    decreases segs.len(),
{
    let rest = segs.drop_first();
    let first = segs[0];
    assert(first.0.0 <= first.0.1 && first.1@.len() == first.0.1 - first.0.0);
    let after = cursor + first.1@.len();
    assert(crate::utils::spec_max(cursor, first.0.0 as int) + first.1@.len() == after);
    assert(fill(first.0.0 - cursor, 0) =~= Seq::<u8>::empty());
    let sb = segments_bytes(segs, cursor);
    assert(sb =~= first.1@ + segments_bytes(rest, after));
    if k > 0 {
        lemma_rest_contiguous(segs, start);
        assert(rest[k - 1] == segs[k]);
        lemma_segments_bytes_at(rest, first.0.1 as int, after, k - 1);
        lemma_segments_bytes_span(rest, first.0.1 as int, after);
        assert(rest.last() == segs.last());
        lemma_contiguous_ends_from(segs, start, k);
        lemma_contiguous_starts(rest, first.0.1 as int, k - 1);
        assert(sb.subrange(segs[k].0.0 - start, segs[k].0.1 - start) =~= segments_bytes(rest, after).subrange(
            segs[k].0.0 - first.0.1,
            segs[k].0.1 - first.0.1,
        ));
    } else {
        assert(sb.subrange(segs[k].0.0 - start, segs[k].0.1 - start) =~= first.1@);
    }
}

/// Reading contiguous segments back one after the other, from where the first was written,
/// gives them back
#[verifier::rlimit(60)]
#[verifier::spinoff_prover]
proof fn lemma_read_segments_back(b: Seq<u8>, d: int, segs: Seq<((u64, u64), Vec<u8>)>, n: int)
    requires
        segs_contiguous_from(segs, 0),
        0 <= n <= segs.len(),
        d >= 0,
        segs.len() > 0 ==> b.len() >= d + segs.last().0.1,
        forall|k: int| 0 <= k < segs.len() ==> #[trigger] b.subrange(d + segs[k].0.0, d + segs[k].0.1) == segs[k].1@,
    ensures
        segments_cursor(b, d, seg_ranges(segs).take(n)) == if n == 0 { d } else { d + segs[n - 1].0.1 },
        read_segments(b, d, seg_ranges(segs).take(n)) == segs_view(segs).take(n),
    decreases n,
{
    let v = seg_ranges(segs);
    if n == 0 {
        assert(v.take(0) =~= Seq::<(u64, u64)>::empty());
        assert(segs_view(segs).take(0) =~= Seq::<((u64, u64), Seq<u8>)>::empty());
    } else {
        lemma_read_segments_back(b, d, segs, n - 1);
        assert(v.take(n).drop_last() =~= v.take(n - 1));
        let s = segs[n - 1];
        assert(v.take(n).last() == (s.0.0, (s.0.1 - s.0.0) as u64));
        if n > 1 {
            assert(segs[n - 2].0.1 == s.0.0);
        }
        let c = d + s.0.0;
        assert(segments_cursor(b, d, v.take(n - 1)) == c);
        // every segment ends within the file
        assert(s.0.1 <= segs.last().0.1) by {
            lemma_contiguous_ends(segs, n - 1);
        }
        assert(range_end((s.0.0, (s.0.1 - s.0.0) as u64)) == s.0.1);
        assert(b.subrange(d + segs[n - 1].0.0, d + segs[n - 1].0.1) == segs[n - 1].1@);
        assert(c + (s.0.1 - s.0.0) == d + s.0.1);
        assert(segs_view(segs).take(n) =~= segs_view(segs).take(n - 1).push((s.0, s.1@)));
    }
}

/// In contiguous segments, each starts at or after the first
proof fn lemma_contiguous_starts(segs: Seq<((u64, u64), Vec<u8>)>, start: int, k: int)
    requires
        segs_contiguous_from(segs, start),
        0 <= k < segs.len(),
    ensures
        segs[k].0.0 >= start,
    decreases k,
{
    if k > 0 {
        lemma_contiguous_starts(segs, start, k - 1);
        assert(segs[k - 1].0.1 == segs[k].0.0);
        assert(segs[k - 1].0.0 <= segs[k - 1].0.1);
    }
}

/// In contiguous segments, each ends no later than the last
proof fn lemma_contiguous_ends_from(segs: Seq<((u64, u64), Vec<u8>)>, start: int, k: int)
    requires
        segs_contiguous_from(segs, start),
        0 <= k < segs.len(),
    ensures
        segs[k].0.1 <= segs.last().0.1,
    decreases segs.len() - k,
{
    if k < segs.len() - 1 {
        lemma_contiguous_ends_from(segs, start, k + 1);
        assert(segs[k].0.1 == segs[k + 1].0.0);
        assert(segs[k + 1].0.0 <= segs[k + 1].0.1);
    }
}

/// In contiguous segments, each ends no later than the last
proof fn lemma_contiguous_ends(segs: Seq<((u64, u64), Vec<u8>)>, k: int)
    requires
        segs_contiguous_from(segs, 0),
        0 <= k < segs.len(),
    ensures
        segs[k].0.1 <= segs.last().0.1,
    decreases segs.len() - k,
{
    if k < segs.len() - 1 {
        lemma_contiguous_ends(segs, k + 1);
        assert(segs[k].0.1 == segs[k + 1].0.0);
        assert(segs[k + 1].0.0 <= segs[k + 1].0.1);
    }
}

/// A raw JIF that writing and reading back keeps as it is: it can be written, its string table
/// fills whole pages, its data section starts right after its tables, every count and section
/// size fits the header, its pheaders, intervals and ordering chunks are well formed (and each
/// chunk spans some pages), its pheaders' strings and trees lie within the tables, and its data
/// segments follow each other from offset 0 and are exactly the data ranges its trees name
pub open spec fn jif_readable(raw: JifRaw) -> bool {
    &&& raw.writable()
    &&& raw.strings_backing@.len() % 4096 == 0
    &&& raw.strings_backing@.len() <= u32::MAX
    &&& raw.pheaders@.len() <= u32::MAX
    &&& spec_align_up((raw.itree_nodes@.len() * 72) as int, PAGE_SIZE as int) <= u32::MAX
    &&& spec_align_up((raw.ord_chunks@.len() * 24) as int, PAGE_SIZE as int) <= u32::MAX
    &&& raw.data_offset == tables_bytes(raw).len()
    &&& forall|k: int| 0 <= k < raw.pheaders@.len() ==> pheader_valid(#[trigger] raw.pheaders@[k])
    &&& total_nodes(raw.pheaders@) == raw.itree_nodes@.len()
    &&& forall|k: int| 0 <= k < raw.pheaders@.len() ==> pheader_in_tables(
        #[trigger] raw.pheaders@[k],
        raw.strings_backing@.len() as u32,
        raw.itree_nodes@.len() as int,
    )
    &&& forall|i: int, k: int| 0 <= i < raw.itree_nodes@.len() && 0 <= k < 3 ==> interval_valid(#[trigger] raw.itree_nodes@[i].ranges@[k])
    &&& forall|k: int| 0 <= k < raw.ord_chunks@.len() ==> ord_valid(#[trigger] raw.ord_chunks@[k]) && raw.ord_chunks@[k].n_pages != 0
    &&& segs_contiguous_from(raw.data_segments@, 0)
    &&& data_section_ok(node_views(raw.itree_nodes@), raw.data_offset, seg_ranges(raw.data_segments@))
}

/// Reading back a written JIF gives it back: the file parses, and what it parses to is the JIF
/// that was written (for a JIF that writing keeps as it is, see [`jif_readable`])
#[verifier::rlimit(50)]
pub proof fn law_jif_roundtrip(raw: JifRaw)
    requires
        jif_readable(raw),
    ensures
        jif_file_ok(jif_bytes(raw)),
        raw_read_from(jif_bytes(raw), raw),
{
    let b = jif_bytes(raw);
    let l = raw.strings_backing@.len() as int;
    lemma_align_up(l, 4096);
    assert(written_header(raw).strings_size == l);
    lemma_front_roundtrip(raw);
    lemma_mid_roundtrip(raw);
    lemma_tail_roundtrip(raw);
    let t = tables_bytes(raw);
    let d = raw.data_offset as int;
    assert(gap_to_data(t.len() as int, d) == 0);
    assert(fill(0, 0u8) =~= Seq::<u8>::empty());
    let sb = segments_bytes(raw.data_segments@, d);
    assert(b =~= t + sb);
    let segs = raw.data_segments@;
    assert forall|k: int| 0 <= k < segs.len() implies #[trigger] b.subrange(d + segs[k].0.0, d + segs[k].0.1) == segs[k].1@ by {
        lemma_segments_bytes_at(segs, 0, d, k);
        lemma_segments_bytes_span(segs, 0, d);
        lemma_contiguous_ends_from(segs, 0, k);
        lemma_contiguous_starts(segs, 0, k);
        assert(b.subrange(d + segs[k].0.0, d + segs[k].0.1) =~= sb.subrange(segs[k].0.0 as int, segs[k].0.1 as int));
    }
    if segs.len() > 0 {
        lemma_segments_bytes_span(segs, 0, d);
    }
    lemma_read_segments_back(b, d, segs, segs.len() as int);
    assert(seg_ranges(segs).take(segs.len() as int) =~= seg_ranges(segs));
    assert(segs_view(segs).take(segs.len() as int) =~= segs_view(segs));
    let tt = parse_tables(b)->Ok_0;
    assert(data_section_ok(tt.3, tt.5, seg_ranges(segs)));
}

} // verus!
