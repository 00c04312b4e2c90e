//! Laying out the data section of a JIF
//!
//! Before a JIF is written, the data of its intervals is given a place in the data section. The
//! data that the ordering chunks name comes first, in the order of the chunks, so that the pages
//! that are touched first can be prefetched together; the rest of the data follows, in the order
//! of the intervals' start addresses. Data shared by several intervals (the same deduplication
//! token) is laid out once.

use vstd::prelude::*;
use crate::deduper::{DedupToken, Deduper};
use crate::itree::interval::{IntermediateInterval, IntermediateIntervalData, IntervalData, RawInterval};
use crate::itree::itree_node::{ITreeNode, IntermediateITreeNode, RawITreeNode, lemma_lower_seq_concat, lower_seq};
use crate::itree::tree::{flat, nodes_wf};
use crate::jif::{Jif, JifRaw, distinct_paths, lemma_strings_size_prefix, lemma_sum_pheaders_prefix, lemma_sum_pheaders_step, pheader_nodes, spec_data_offset, strings_size, sum_pheaders};
use crate::itree::interval::DataSource;
use crate::ord::OrdChunk;
use crate::pheader::{JifPheader, JifRawPheader, str_eq};
use crate::utils::PAGE_SIZE;

verus! {

/// The intervals of intermediate nodes, node after node
pub open spec fn inter_flat(nodes: Seq<IntermediateITreeNode>) -> Seq<IntermediateInterval>
    decreases nodes.len(),
{
    if nodes.len() == 0 {
        seq![]
    } else {
        inter_flat(nodes.drop_last()) + nodes.last().ranges@
    }
}

/// The length of an intermediate interval (an interval that maps nothing has none)
pub open spec fn iv_len(iv: IntermediateInterval) -> int {
    if iv.spec_is_none() {
        0
    } else {
        iv.end - iv.start
    }
}

/// The length an interval contributes to the data section
pub open spec fn iv_data_len(iv: IntermediateInterval) -> int {
    if iv.data is Ref {
        iv_len(iv)
    } else {
        0
    }
}

/// Total length of the data intervals
pub open spec fn data_len(ivs: Seq<IntermediateInterval>) -> int
    decreases ivs.len(),
{
    if ivs.len() == 0 {
        0
    } else {
        data_len(ivs.drop_last()) + iv_data_len(ivs.last())
    }
}

/// The range recorded for a token, if any
pub open spec fn token_range(map: Seq<(DedupToken, (u64, u64))>, t: DedupToken) -> Option<(u64, u64)>
    decreases map.len(),
{
    if map.len() == 0 {
        None
    } else if map[0].0 == t {
        Some(map[0].1)
    } else {
        token_range(map.drop_first(), t)
    }
}

/// The raw interval an intermediate interval becomes, its data placed by the token map
pub open spec fn raw_of(iv: IntermediateInterval, map: Seq<(DedupToken, (u64, u64))>) -> RawInterval {
    if iv.spec_is_none() {
        RawInterval::spec_default()
    } else {
        match iv.data {
            IntermediateIntervalData::Ref(t) => RawInterval {
                start: iv.start,
                end: iv.end,
                offset: match token_range(map, t) {
                    Some(r) => r.0,
                    None => u64::MAX,
                },
            },
            _ => RawInterval { start: iv.start, end: iv.end, offset: u64::MAX },
        }
    }
}

/// The data intervals have their bounds in order, and those of one token have one length
pub open spec fn tokens_consistent(ivs: Seq<IntermediateInterval>) -> bool {
    &&& forall|i: int|
        0 <= i < ivs.len() && (#[trigger] ivs[i]).data is Ref && !ivs[i].spec_is_none() ==> ivs[i].start
            <= ivs[i].end
    &&& forall|i: int, j: int|
        0 <= i < ivs.len() && 0 <= j < ivs.len() && (#[trigger] ivs[i]).data is Ref && (#[trigger] ivs[j]).data
            == ivs[i].data ==> iv_len(ivs[i]) == iv_len(ivs[j])
}

/// No interval that maps something shares its bounds with another interval
pub open spec fn bounds_distinct(ivs: Seq<IntermediateInterval>) -> bool {
    forall|i: int, j: int|
        0 <= i < ivs.len() && 0 <= j < ivs.len() && i != j && !(#[trigger] ivs[i]).spec_is_none() ==> ivs[i].start
            != (#[trigger] ivs[j]).start || ivs[i].end != ivs[j].end
}

/// The token map lays the segments one after the other from `start` to `end`, each token once
pub open spec fn map_contiguous(map: Seq<(DedupToken, (u64, u64))>, start: u64, end: int) -> bool {
    &&& map.len() == 0 ==> start == end
    &&& map.len() > 0 ==> map[0].1.0 == start && map.last().1.1 == end
    &&& forall|k: int| 0 <= k < map.len() - 1 ==> (#[trigger] map[k]).1.1 == map[k + 1].1.0
    &&& forall|k: int| 0 <= k < map.len() ==> (#[trigger] map[k]).1.0 <= map[k].1.1
    &&& forall|k: int, l: int| 0 <= k < l < map.len() ==> (#[trigger] map[k]).0 != (#[trigger] map[l]).0
}

/// The first interval, from `from` on, that holds `vaddr`
pub open spec fn chunk_match(ivs: Seq<IntermediateInterval>, vaddr: u64, from: int) -> Option<int>
    decreases ivs.len() - from,
{
    if from < 0 || from >= ivs.len() {
        None
    } else if ivs[from].start <= vaddr && vaddr < ivs[from].end {
        Some(from)
    } else {
        chunk_match(ivs, vaddr, from + 1)
    }
}

/// Where an interval goes in a list sorted by start: after all intervals that start at or
/// before it
pub open spec fn inter_insert_pos(s: Seq<IntermediateInterval>, x: u64) -> int
    decreases s.len(),
{
    if s.len() == 0 {
        0
    } else if s.last().start <= x {
        s.len() as int
    } else {
        inter_insert_pos(s.drop_last(), x)
    }
}

/// The stable sort of intervals by start
pub open spec fn sort_inter(s: Seq<IntermediateInterval>) -> Seq<IntermediateInterval>
    decreases s.len(),
{
    if s.len() == 0 {
        seq![]
    } else {
        let r = sort_inter(s.drop_last());
        let p = inter_insert_pos(r, s.last().start);
        r.take(p) + seq![s.last()] + r.skip(p)
    }
}

/// Data length counted only at the marked positions
pub open spec fn marked_len(s: Seq<IntermediateInterval>, mark: Seq<bool>) -> int
    decreases s.len(),
{
    if s.len() == 0 {
        0
    } else {
        marked_len(s.drop_last(), mark) + if (s.len() - 1) < mark.len() && mark[s.len() - 1] {
            iv_data_len(s.last())
        } else {
            0
        }
    }
}

/// The token map and the next free offset once an interval's data is placed: the data of a
/// token not laid out yet goes at the free offset
pub open spec fn placed(iv: IntermediateInterval, map: Seq<(DedupToken, (u64, u64))>, off: int) -> (
    Seq<(DedupToken, (u64, u64))>,
    int,
) {
    match iv.data {
        IntermediateIntervalData::Ref(t) => if token_range(map, t) is None {
            (map.push((t, (off as u64, (off + iv_len(iv)) as u64))), off + iv_len(iv))
        } else {
            (map, off)
        },
        _ => (map, off),
    }
}

/// The pass over the ordering chunks: each chunk places the data of the (first) interval that
/// holds its address, unless that interval was placed already. Gives the intervals placed, the
/// token map, the next free offset and the number of pages placed.
pub open spec fn chunk_pass(ivs: Seq<IntermediateInterval>, chunks: Seq<OrdChunk>, off: int) -> (
    Seq<bool>,
    Seq<(DedupToken, (u64, u64))>,
    int,
    int,
)
    decreases chunks.len(),
{
    if chunks.len() == 0 {
        (Seq::new(ivs.len(), |_i: int| false), seq![], off, 0)
    } else {
        let st = chunk_pass(ivs, chunks.drop_last(), off);
        match chunk_match(ivs, chunks.last().vaddr, 0) {
            Some(i) => if !st.0[i] {
                let pl = placed(ivs[i], st.1, st.2);
                (st.0.update(i, true), pl.0, pl.1, st.3 + (ivs[i].end - ivs[i].start) / (PAGE_SIZE as int))
            } else {
                st
            },
            None => st,
        }
    }
}

/// The pass over the first `upto` intervals that the chunks did not place
pub open spec fn rest_pass(
    ivs: Seq<IntermediateInterval>,
    mark: Seq<bool>,
    map: Seq<(DedupToken, (u64, u64))>,
    off: int,
    upto: int,
) -> (Seq<(DedupToken, (u64, u64))>, int)
    decreases upto,
{
    if upto <= 0 {
        (map, off)
    } else {
        let st = rest_pass(ivs, mark, map, off, upto - 1);
        if !mark[upto - 1] {
            placed(ivs[upto - 1], st.0, st.1)
        } else {
            st
        }
    }
}

/// The layout of the data of the intervals from `off` on, given the ordering chunks: the token
/// map, the end of the data and the number of pages the chunks placed
pub open spec fn layout(flat_ivs: Seq<IntermediateInterval>, chunks: Seq<OrdChunk>, off: u64) -> (
    Seq<(DedupToken, (u64, u64))>,
    int,
    int,
) {
    let ivs = sort_inter(flat_ivs);
    let p1 = chunk_pass(ivs, chunks, off as int);
    let p2 = rest_pass(ivs, p1.0, p1.1, p1.2, ivs.len() as int);
    (p2.0, p2.1, p1.3)
}

/// The raw node an intermediate node becomes, its data placed by the token map
pub open spec fn raw_node_of(node: IntermediateITreeNode, map: Seq<(DedupToken, (u64, u64))>, k: int) -> RawInterval {
    if k < node.ranges@.len() {
        raw_of(node.ranges@[k], map)
    } else {
        RawInterval::spec_default()
    }
}

/// What a layout keeps as it goes: the map lays contiguous segments from `start` to `off`, each
/// the data of an interval of its token; every placed data interval has its token laid out;
/// no more is laid out than the placed intervals hold
pub open spec fn layout_inv(
    ivs: Seq<IntermediateInterval>,
    mark: Seq<bool>,
    map: Seq<(DedupToken, (u64, u64))>,
    start: u64,
    off: int,
) -> bool {
    &&& mark.len() == ivs.len()
    &&& start <= off
    &&& map_contiguous(map, start, off)
    &&& forall|k: int|
        0 <= k < map.len() ==> exists|j: int|
            0 <= j < ivs.len() && (#[trigger] ivs[j]).data == IntermediateIntervalData::Ref((#[trigger] map[k]).0)
                && map[k].1.1 - map[k].1.0 == iv_len(ivs[j])
    &&& forall|j: int|
        0 <= j < ivs.len() && mark[j] && (#[trigger] ivs[j]).data is Ref ==> token_range(map, ivs[j].data->Ref_0) is Some
    &&& off - start <= marked_len(ivs, mark)
}

/// A token that is absent from the map has no range
pub proof fn lemma_token_range_absent(map: Seq<(DedupToken, (u64, u64))>, t: DedupToken)
    requires
        forall|k: int| 0 <= k < map.len() ==> (#[trigger] map[k]).0 != t,
    ensures
        token_range(map, t) is None,
    decreases map.len(),
{
    if map.len() > 0 {
        assert(map[0].0 != t);
        assert forall|k: int| 0 <= k < map.drop_first().len() implies (#[trigger] map.drop_first()[k]).0 != t by {
            assert(map.drop_first()[k] == map[k + 1]);
        }
        lemma_token_range_absent(map.drop_first(), t);
    }
}

/// A token with a range is in the map, with that range
pub proof fn lemma_token_range_some(map: Seq<(DedupToken, (u64, u64))>, t: DedupToken)
    ensures
        token_range(map, t) is None ==> forall|k: int| 0 <= k < map.len() ==> (#[trigger] map[k]).0 != t,
        token_range(map, t) matches Some(r) ==> exists|k: int| 0 <= k < map.len() && #[trigger] map[k] == (t, r),
    decreases map.len(),
{
    if map.len() > 0 {
        lemma_token_range_some(map.drop_first(), t);
        if map[0].0 != t {
            assert forall|k: int| 0 <= k < map.len() && token_range(map, t) is None implies (#[trigger] map[k]).0 != t by {
                if k > 0 {
                    assert(map.drop_first()[k - 1] == map[k]);
                }
            }
            if let Some(r) = token_range(map, t) {
                let k = choose|k: int| 0 <= k < map.drop_first().len() && #[trigger] map.drop_first()[k] == (t, r);
                assert(map[k + 1] == (t, r));
            }
        }
    }
}

/// The first entry of a token gives its range
pub proof fn lemma_token_range_at(map: Seq<(DedupToken, (u64, u64))>, t: DedupToken, k: int)
    requires
        0 <= k < map.len(),
        map[k].0 == t,
        forall|l: int| 0 <= l < k ==> (#[trigger] map[l]).0 != t,
    ensures
        token_range(map, t) == Some(map[k].1),
    decreases k,
{
    if k > 0 {
        assert(map[0].0 != t);
        assert forall|l: int| 0 <= l < k - 1 implies (#[trigger] map.drop_first()[l]).0 != t by {
            assert(map.drop_first()[l] == map[l + 1]);
        }
        assert(map.drop_first()[k - 1] == map[k]);
        lemma_token_range_at(map.drop_first(), t, k - 1);
    }
}

/// In a map of distinct tokens, an entry gives its token's range
pub proof fn lemma_token_range_distinct(map: Seq<(DedupToken, (u64, u64))>, k: int)
    requires
        0 <= k < map.len(),
        forall|a: int, b: int| 0 <= a < b < map.len() ==> (#[trigger] map[a]).0 != (#[trigger] map[b]).0,
    ensures
        token_range(map, map[k].0) == Some(map[k].1),
{
    assert forall|l: int| 0 <= l < k implies (#[trigger] map[l]).0 != map[k].0 by {
        assert(map[l].0 != map[k].0);
    }
    lemma_token_range_at(map, map[k].0, k);
}

/// Data length of a concatenation
pub proof fn lemma_data_len_concat(a: Seq<IntermediateInterval>, b: Seq<IntermediateInterval>)
    ensures
        data_len(a + b) == data_len(a) + data_len(b),
    decreases b.len(),
{
    if b.len() == 0 {
        assert(a + b =~= a);
    } else {
        assert((a + b).drop_last() =~= a + b.drop_last());
        lemma_data_len_concat(a, b.drop_last());
    }
}

/// The insertion position lies within the list
pub proof fn lemma_inter_insert_pos_bounds(s: Seq<IntermediateInterval>, x: u64)
    ensures
        0 <= inter_insert_pos(s, x) <= s.len(),
    decreases s.len(),
{
    if s.len() > 0 {
        lemma_inter_insert_pos_bounds(s.drop_last(), x);
    }
}

/// The insertion position is the one after the last interval that starts at or before `x`
pub proof fn lemma_inter_insert_pos_at(s: Seq<IntermediateInterval>, x: u64, j: int)
    requires
        0 <= j <= s.len(),
        forall|k: int| j <= k < s.len() ==> (#[trigger] s[k]).start > x,
        j == 0 || s[j - 1].start <= x,
    ensures
        inter_insert_pos(s, x) == j,
    decreases s.len(),
{
    if s.len() > j {
        assert(s[s.len() - 1].start > x);
        assert forall|k: int| j <= k < s.drop_last().len() implies (#[trigger] s.drop_last()[k]).start > x by {
            assert(s.drop_last()[k] == s[k]);
        }
        if j > 0 {
            assert(s.drop_last()[j - 1] == s[j - 1]);
        }
        lemma_inter_insert_pos_at(s.drop_last(), x, j);
    }
}

/// Sorting keeps the data length, the count, and each interval comes from the input
pub proof fn lemma_sort_inter(s: Seq<IntermediateInterval>)
    ensures
        data_len(sort_inter(s)) == data_len(s),
        sort_inter(s).len() == s.len(),
        forall|k: int| 0 <= k < s.len() ==> exists|j: int| 0 <= j < s.len() && #[trigger] sort_inter(s)[k] == s[j],
    decreases s.len(),
{
    if s.len() > 0 {
        let t = s.drop_last();
        lemma_sort_inter(t);
        let r = sort_inter(t);
        let x = s.last();
        let p = inter_insert_pos(r, x.start);
        lemma_inter_insert_pos_bounds(r, x.start);
        assert(r =~= r.take(p) + r.skip(p));
        lemma_data_len_concat(r.take(p), r.skip(p));
        lemma_data_len_concat(r.take(p), seq![x]);
        lemma_data_len_concat(r.take(p) + seq![x], r.skip(p));
        lemma_data_len_concat(t, seq![x]);
        assert(t + seq![x] =~= s);
        assert(data_len(seq![x]) == iv_data_len(x)) by {
            assert(seq![x].drop_last() =~= Seq::<IntermediateInterval>::empty());
        }
        let res = r.take(p) + seq![x] + r.skip(p);
        assert forall|k: int| 0 <= k < s.len() implies exists|j: int| 0 <= j < s.len() && #[trigger] sort_inter(s)[k] == s[j] by {
            if k < p {
                assert(res[k] == r[k]);
                let j = choose|j: int| 0 <= j < t.len() && r[k] == t[j];
                assert(t[j] == s[j]);
            } else if k == p {
                assert(res[k] == s[s.len() - 1]);
            } else {
                assert(res[k] == r[k - 1]);
                let j = choose|j: int| 0 <= j < t.len() && r[k - 1] == t[j];
                assert(t[j] == s[j]);
            }
        }
    }
}

/// Counting only marked positions counts no more than the whole
pub proof fn lemma_marked_len_le(s: Seq<IntermediateInterval>, mark: Seq<bool>)
    requires
        forall|i: int| 0 <= i < s.len() ==> iv_data_len(#[trigger] s[i]) >= 0,
    ensures
        0 <= marked_len(s, mark) <= data_len(s),
    decreases s.len(),
{
    if s.len() > 0 {
        assert forall|i: int| 0 <= i < s.drop_last().len() implies iv_data_len(#[trigger] s.drop_last()[i]) >= 0 by {
            assert(s.drop_last()[i] == s[i]);
        }
        lemma_marked_len_le(s.drop_last(), mark);
        assert(iv_data_len(s[s.len() - 1]) >= 0);
    }
}

/// Marking one more position adds its data length
pub proof fn lemma_marked_len_set(s: Seq<IntermediateInterval>, mark: Seq<bool>, i: int)
    requires
        0 <= i < s.len(),
        s.len() <= mark.len(),
        !mark[i],
    ensures
        marked_len(s, mark.update(i, true)) == marked_len(s, mark) + iv_data_len(s[i]),
    decreases s.len(),
{
    if s.len() - 1 == i {
        lemma_marked_len_same(s.drop_last(), mark, mark.update(i, true));
    } else {
        lemma_marked_len_set(s.drop_last(), mark, i);
    }
}

/// Marks beyond the sequence do not matter
pub proof fn lemma_marked_len_same(s: Seq<IntermediateInterval>, m1: Seq<bool>, m2: Seq<bool>)
    requires
        s.len() <= m1.len(),
        s.len() <= m2.len(),
        forall|j: int| 0 <= j < s.len() ==> m1[j] == m2[j],
    ensures
        marked_len(s, m1) == marked_len(s, m2),
    decreases s.len(),
{
    if s.len() > 0 {
        lemma_marked_len_same(s.drop_last(), m1, m2);
    }
}

/// Nothing marked counts nothing
pub proof fn lemma_marked_len_none(s: Seq<IntermediateInterval>, mark: Seq<bool>)
    requires
        forall|j: int| 0 <= j < mark.len() ==> !mark[j],
    ensures
        marked_len(s, mark) == 0,
    decreases s.len(),
{
    if s.len() > 0 {
        lemma_marked_len_none(s.drop_last(), mark);
    }
}

/// A first match holds the address
pub proof fn lemma_chunk_match(ivs: Seq<IntermediateInterval>, vaddr: u64, from: int)
    ensures
        chunk_match(ivs, vaddr, from) matches Some(i) ==> from <= i < ivs.len() && ivs[i].start <= vaddr < ivs[i].end,
    decreases ivs.len() - from,
{
    if 0 <= from < ivs.len() && !(ivs[from].start <= vaddr && vaddr < ivs[from].end) {
        lemma_chunk_match(ivs, vaddr, from + 1);
    }
}

/// Placing the data of an interval that was not placed yet keeps the layout invariant
pub proof fn lemma_place_keeps(
    ivs: Seq<IntermediateInterval>,
    mark: Seq<bool>,
    map: Seq<(DedupToken, (u64, u64))>,
    start: u64,
    off: int,
    i: int,
)
    requires
        layout_inv(ivs, mark, map, start, off),
        0 <= i < ivs.len(),
        !mark[i],
        tokens_consistent(ivs),
        start + data_len(ivs) <= u64::MAX,
    ensures
        off + iv_data_len(ivs[i]) <= u64::MAX,
        layout_inv(ivs, mark.update(i, true), placed(ivs[i], map, off).0, start, placed(ivs[i], map, off).1),
{
    let iv = ivs[i];
    let m2 = mark.update(i, true);
    assert forall|k: int| 0 <= k < ivs.len() implies iv_data_len(#[trigger] ivs[k]) >= 0 by {
        if ivs[k].data is Ref && !ivs[k].spec_is_none() {
            assert(ivs[k].start <= ivs[k].end);
        }
    }
    lemma_marked_len_set(ivs, mark, i);
    lemma_marked_len_le(ivs, m2);
    assert(iv_data_len(ivs[i]) >= 0);
    let pl = placed(iv, map, off);
    match iv.data {
        IntermediateIntervalData::Ref(t) => {
            if token_range(map, t) is None {
                lemma_token_range_some(map, t);
                let e = (t, (off as u64, (off + iv_len(iv)) as u64));
                let nm = map.push(e);
                assert(pl.0 == nm);
                assert(nm[map.len() as int] == e);
                assert forall|k: int| 0 <= k < nm.len() - 1 implies (#[trigger] nm[k]).1.1 == nm[k + 1].1.0 by {
                    if k < map.len() - 1 {
                        assert(nm[k] == map[k] && nm[k + 1] == map[k + 1]);
                    } else {
                        assert(nm[k] == map[k]);
                    }
                }
                assert forall|k: int| 0 <= k < nm.len() implies (#[trigger] nm[k]).1.0 <= nm[k].1.1 by {
                    if k < map.len() {
                        assert(nm[k] == map[k]);
                    }
                }
                assert forall|k: int, l: int| 0 <= k < l < nm.len() implies (#[trigger] nm[k]).0 != (#[trigger] nm[l]).0 by {
                    assert(nm[k] == map[k]);
                    if l < map.len() {
                        assert(nm[l] == map[l]);
                    }
                }
                assert forall|k: int| 0 <= k < nm.len() implies exists|j: int|
                    0 <= j < ivs.len() && (#[trigger] ivs[j]).data == IntermediateIntervalData::Ref((#[trigger] nm[k]).0)
                        && nm[k].1.1 - nm[k].1.0 == iv_len(ivs[j]) by {
                    if k < map.len() {
                        assert(nm[k] == map[k]);
                        let j = choose|j: int|
                            0 <= j < ivs.len() && (#[trigger] ivs[j]).data == IntermediateIntervalData::Ref(map[k].0)
                                && map[k].1.1 - map[k].1.0 == iv_len(ivs[j]);
                        assert(ivs[j].data == IntermediateIntervalData::Ref(nm[k].0));
                    } else {
                        assert(ivs[i].data == IntermediateIntervalData::Ref(nm[k].0));
                    }
                }
                assert forall|j: int|
                    0 <= j < ivs.len() && m2[j] && (#[trigger] ivs[j]).data is Ref implies token_range(nm, ivs[j].data->Ref_0) is Some by {
                    let tj = ivs[j].data->Ref_0;
                    if j == i {
                        lemma_token_range_distinct(nm, map.len() as int);
                    } else {
                        lemma_token_range_some(map, tj);
                        let r = token_range(map, tj)->0;
                        let k = choose|k: int| 0 <= k < map.len() && #[trigger] map[k] == (tj, r);
                        assert(nm[k] == map[k]);
                        lemma_token_range_distinct(nm, k);
                    }
                }
            } else {
                assert forall|j: int|
                    0 <= j < ivs.len() && m2[j] && (#[trigger] ivs[j]).data is Ref implies token_range(map, ivs[j].data->Ref_0) is Some by {
                }
            }
        },
        _ => {
            assert forall|j: int|
                0 <= j < ivs.len() && m2[j] && (#[trigger] ivs[j]).data is Ref implies token_range(map, ivs[j].data->Ref_0) is Some by {
            }
        },
    }
}

/// The intervals of all the nodes, node after node
fn flatten(nodes: &Vec<IntermediateITreeNode>) -> (r: Vec<IntermediateInterval>)
    ensures
        r@ == inter_flat(nodes@),
{
    let mut out: Vec<IntermediateInterval> = Vec::new();
    let mut i: usize = 0;
    while i < nodes.len()
        invariant
            i <= nodes@.len(),
            out@ == inter_flat(nodes@.take(i as int)),
        decreases nodes@.len() - i,
    {
        let rs = &nodes[i].ranges;
        let mut k: usize = 0;
        while k < rs.len()
            invariant
                i < nodes@.len(),
                *rs == nodes@[i as int].ranges,
                k <= rs@.len(),
                out@ == inter_flat(nodes@.take(i as int)) + rs@.take(k as int),
            decreases rs@.len() - k,
        {
            out.push(rs[k]);
            k = k + 1;
            proof {
                assert(rs@.take(k as int) =~= rs@.take(k - 1).push(rs@[k - 1]));
            }
        }
        proof {
            assert(nodes@.take(i + 1).drop_last() =~= nodes@.take(i as int));
            assert(rs@.take(k as int) =~= rs@);
        }
        i = i + 1;
    }
    assert(nodes@.take(i as int) =~= nodes@);
    out
}

/// Sort intervals by start, keeping the order of intervals with the same start
fn sort_by_start(ivs: &Vec<IntermediateInterval>) -> (r: Vec<IntermediateInterval>)
    ensures
        r@ == sort_inter(ivs@),
{
    let mut out: Vec<IntermediateInterval> = Vec::new();
    let mut i: usize = 0;
    while i < ivs.len()
        invariant
            i <= ivs@.len(),
            out@ == sort_inter(ivs@.take(i as int)),
        decreases ivs@.len() - i,
    {
        let x = ivs[i];
        proof {
            lemma_sort_inter(ivs@.take(i as int));
        }
        let mut j: usize = out.len();
        while j > 0 && out[j - 1].start > x.start
            invariant
                j <= out@.len(),
                forall|k: int| j <= k < out@.len() ==> (#[trigger] out@[k]).start > x.start,
            decreases j,
        {
            j = j - 1;
        }
        let ghost before = out@;
        proof {
            lemma_inter_insert_pos_at(before, x.start, j as int);
            assert(ivs@.take(i + 1).drop_last() =~= ivs@.take(i as int));
            assert(ivs@.take(i + 1).last() == x);
        }
        out.insert(j, x);
        proof {
            assert(out@ =~= before.take(j as int) + seq![x] + before.skip(j as int));
        }
        i = i + 1;
    }
    assert(ivs@.take(i as int) =~= ivs@);
    out
}

/// Find the first interval holding `vaddr`
fn find_chunk_match(ivs: &Vec<IntermediateInterval>, vaddr: u64) -> (r: Option<usize>)
    ensures
        match r {
            Some(i) => chunk_match(ivs@, vaddr, 0) == Some(i as int) && i < ivs@.len() && ivs@[i as int].start
                <= vaddr < ivs@[i as int].end,
            None => chunk_match(ivs@, vaddr, 0) is None,
        },
{
    let mut i: usize = 0;
    while i < ivs.len()
        invariant
            i <= ivs@.len(),
            chunk_match(ivs@, vaddr, 0) == chunk_match(ivs@, vaddr, i as int),
        decreases ivs@.len() - i,
    {
        if ivs[i].start <= vaddr && vaddr < ivs[i].end {
            return Some(i);
        }
        i = i + 1;
    }
    None
}

/// Look up the range of a token
fn lookup_range(map: &Vec<(DedupToken, (u64, u64))>, t: DedupToken) -> (r: Option<(u64, u64)>)
    ensures
        r == token_range(map@, t),
{
    let mut i: usize = 0;
    assert(map@.skip(0) =~= map@);
    while i < map.len()
        invariant
            i <= map@.len(),
            token_range(map@, t) == token_range(map@.skip(i as int), t),
        decreases map@.len() - i,
    {
        assert(map@.skip(i as int)[0] == map@[i as int]);
        assert(map@.skip(i as int).drop_first() =~= map@.skip(i + 1));
        if map[i].0 == t {
            return Some(map[i].1);
        }
        i = i + 1;
    }
    None
}

/// Place the data of an interval: a token not laid out yet gets the range at the free offset
fn place_segment(iv: IntermediateInterval, map: &mut Vec<(DedupToken, (u64, u64))>, off: &mut u64)
    requires
        iv.data is Ref && !iv.spec_is_none() ==> iv.start <= iv.end,
        *old(off) + iv_data_len(iv) <= u64::MAX,
    ensures
        (final(map)@, *final(off) as int) == placed(iv, old(map)@, *old(off) as int),
{
    match iv.data {
        IntermediateIntervalData::Ref(t) => {
            if lookup_range(map, t).is_none() {
                let len = iv.len();
                map.push((t, (*off, *off + len)));
                *off = *off + len;
            }
        },
        _ => {},
    }
}

/// The raw interval an intermediate interval becomes
fn raw_interval_of(iv: IntermediateInterval, map: &Vec<(DedupToken, (u64, u64))>) -> (r: RawInterval)
    ensures
        r == raw_of(iv, map@),
{
    if iv.is_none() {
        RawInterval::default()
    } else {
        match iv.data {
            IntermediateIntervalData::Ref(t) => {
                let offset = match lookup_range(map, t) {
                    Some(range) => range.0,
                    None => u64::MAX,
                };
                RawInterval { start: iv.start, end: iv.end, offset }
            },
            _ => RawInterval { start: iv.start, end: iv.end, offset: u64::MAX },
        }
    }
}

/// The raw nodes the intermediate nodes become
fn raw_nodes_of(nodes: &Vec<IntermediateITreeNode>, map: &Vec<(DedupToken, (u64, u64))>) -> (r: Vec<RawITreeNode>)
    ensures
        r@.len() == nodes@.len(),
        forall|i: int| 0 <= i < nodes@.len() ==> (#[trigger] r@[i]).wf(),
        forall|i: int, k: int|
            0 <= i < nodes@.len() && 0 <= k < 3 ==> (#[trigger] r@[i].ranges@[k]) == raw_node_of(nodes@[i], map@, k),
{
    let mut out: Vec<RawITreeNode> = Vec::new();
    let mut i: usize = 0;
    while i < nodes.len()
        invariant
            i <= nodes@.len(),
            out@.len() == i,
            forall|j: int| 0 <= j < i ==> (#[trigger] out@[j]).wf(),
            forall|j: int, k: int| 0 <= j < i && 0 <= k < 3 ==> (#[trigger] out@[j].ranges@[k]) == raw_node_of(nodes@[j], map@, k),
        decreases nodes@.len() - i,
    {
        let rs = &nodes[i].ranges;
        let mut ranges: Vec<RawInterval> = Vec::new();
        let mut k: usize = 0;
        while k < 3
            invariant
                i < nodes@.len(),
                *rs == nodes@[i as int].ranges,
                k <= 3,
                ranges@.len() == k,
                forall|l: int| 0 <= l < k ==> (#[trigger] ranges@[l]) == raw_node_of(nodes@[i as int], map@, l),
            decreases 3 - k,
        {
            if k < rs.len() {
                ranges.push(raw_interval_of(rs[k], map));
            } else {
                ranges.push(RawInterval::default());
            }
            k = k + 1;
        }
        out.push(RawITreeNode::new(ranges));
        i = i + 1;
    }
    out
}

/// Lay out the data of the nodes' intervals from `data_offset` on, the data that the ordering
/// chunks name first. Gives the token map (in the order of the data), the raw nodes, and the
/// number of pages that the chunks placed (saturated at `u64::MAX`).
///
/// The data of the intervals must fit below `u64::MAX`; the data intervals of one token must
/// have one length; and no interval that maps something may share its bounds with another.
pub fn order_data_segments(
    itree_nodes: Vec<IntermediateITreeNode>,
    ord_chunks: &[OrdChunk],
    data_offset: u64,
) -> (r: (Vec<(DedupToken, (u64, u64))>, Vec<RawITreeNode>, u64))
    requires
        tokens_consistent(inter_flat(itree_nodes@)),
        bounds_distinct(inter_flat(itree_nodes@)),
        data_offset + data_len(inter_flat(itree_nodes@)) <= u64::MAX,
    ensures
        r.0@ == layout(inter_flat(itree_nodes@), ord_chunks@, data_offset).0,
        r.2 == if layout(inter_flat(itree_nodes@), ord_chunks@, data_offset).2 > u64::MAX {
            u64::MAX as int
        } else {
            layout(inter_flat(itree_nodes@), ord_chunks@, data_offset).2
        },
        map_contiguous(r.0@, data_offset, layout(inter_flat(itree_nodes@), ord_chunks@, data_offset).1),
        layout(inter_flat(itree_nodes@), ord_chunks@, data_offset).1 <= u64::MAX,
        layout(inter_flat(itree_nodes@), ord_chunks@, data_offset).1 <= data_offset + data_len(inter_flat(itree_nodes@)),
        forall|k: int|
            0 <= k < r.0@.len() ==> exists|j: int|
                0 <= j < inter_flat(itree_nodes@).len() && (#[trigger] inter_flat(itree_nodes@)[j]).data
                    == IntermediateIntervalData::Ref((#[trigger] r.0@[k]).0) && r.0@[k].1.1 - r.0@[k].1.0 == iv_len(
                    inter_flat(itree_nodes@)[j],
                ),
        forall|j: int|
            0 <= j < inter_flat(itree_nodes@).len() && (#[trigger] inter_flat(itree_nodes@)[j]).data is Ref
                ==> (token_range(r.0@, inter_flat(itree_nodes@)[j].data->Ref_0) matches Some(x) && x.1 - x.0
                == iv_len(inter_flat(itree_nodes@)[j])),
        r.1@.len() == itree_nodes@.len(),
        forall|i: int| 0 <= i < itree_nodes@.len() ==> (#[trigger] r.1@[i]).wf(),
        forall|i: int, k: int|
            0 <= i < itree_nodes@.len() && 0 <= k < 3 ==> (#[trigger] r.1@[i].ranges@[k]) == raw_node_of(
                itree_nodes@[i],
                r.0@,
                k,
            ),
{
    let flat = flatten(&itree_nodes);
    let sorted = sort_by_start(&flat);
    let ghost ivs = sorted@;
    let n = sorted.len();
    proof {
        lemma_sort_inter(flat@);
        assert forall|i: int|
            0 <= i < ivs.len() && (#[trigger] ivs[i]).data is Ref && !ivs[i].spec_is_none() implies ivs[i].start
                <= ivs[i].end by {
            let a = choose|a: int| 0 <= a < flat@.len() && ivs[i] == flat@[a];
            assert(flat@[a].data is Ref);
        }
        assert forall|i: int, j: int|
            0 <= i < ivs.len() && 0 <= j < ivs.len() && (#[trigger] ivs[i]).data is Ref && (#[trigger] ivs[j]).data
                == ivs[i].data implies iv_len(ivs[i]) == iv_len(ivs[j]) by {
            let a = choose|a: int| 0 <= a < flat@.len() && ivs[i] == flat@[a];
            let b = choose|b: int| 0 <= b < flat@.len() && ivs[j] == flat@[b];
            assert(flat@[a].data is Ref && flat@[b].data == flat@[a].data);
        }
    }
    let mut mark: Vec<bool> = Vec::new();
    let mut i: usize = 0;
    while i < n
        invariant
            n == ivs.len(),
            i <= n,
            mark@ == Seq::new(i as nat, |_i: int| false),
        decreases n - i,
    {
        mark.push(false);
        i = i + 1;
    }
    let mut map: Vec<(DedupToken, (u64, u64))> = Vec::new();
    let mut off: u64 = data_offset;
    let mut pages: u64 = 0;
    let ghost mut spec_pages: int = 0;
    proof {
        assert(chunk_pass(ivs, ord_chunks@.take(0), data_offset as int) == (mark@, map@, off as int, spec_pages)) by {
            assert(ord_chunks@.take(0).len() == 0);
            assert(mark@ =~= Seq::new(ivs.len(), |_i: int| false));
        }
        lemma_marked_len_none(ivs, mark@);
    }
    let mut c: usize = 0;
    while c < ord_chunks.len()
        invariant
            n == ivs.len(),
            sorted@ == ivs,
            tokens_consistent(ivs),
            data_offset + data_len(ivs) <= u64::MAX,
            c <= ord_chunks@.len(),
            chunk_pass(ivs, ord_chunks@.take(c as int), data_offset as int) == (mark@, map@, off as int, spec_pages),
            layout_inv(ivs, mark@, map@, data_offset, off as int),
            spec_pages >= 0,
            pages == if spec_pages > u64::MAX { u64::MAX as int } else { spec_pages },
        decreases ord_chunks@.len() - c,
    {
        let chunk = ord_chunks[c];
        let found = find_chunk_match(&sorted, chunk.vaddr);
        proof {
            assert(ord_chunks@.take(c + 1).drop_last() =~= ord_chunks@.take(c as int));
            assert(ord_chunks@.take(c + 1).last() == chunk);
        }
        if let Some(idx) = found {
            if !mark[idx] {
                let iv = sorted[idx];
                proof {
                    lemma_place_keeps(ivs, mark@, map@, data_offset, off as int, idx as int);
                }
                place_segment(iv, &mut map, &mut off);
                mark.set(idx, true);
                let npages = (iv.end - iv.start) / (PAGE_SIZE as u64);
                pages = pages.saturating_add(npages);
                proof {
                    spec_pages = spec_pages + (iv.end - iv.start) / (PAGE_SIZE as int);
                }
            }
        }
        c = c + 1;
    }
    proof {
        assert(ord_chunks@.take(c as int) =~= ord_chunks@);
    }
    let ghost mark1 = mark@;
    let ghost map1 = map@;
    let ghost off1 = off as int;
    let mut k: usize = 0;
    while k < n
        invariant
            n == ivs.len(),
            sorted@ == ivs,
            tokens_consistent(ivs),
            data_offset + data_len(ivs) <= u64::MAX,
            k <= n,
            mark1.len() == n,
            rest_pass(ivs, mark1, map1, off1, k as int) == (map@, off as int),
            forall|j: int| 0 <= j < n ==> #[trigger] mark@[j] == (mark1[j] || j < k),
            layout_inv(ivs, mark@, map@, data_offset, off as int),
        decreases n - k,
    {
        if !mark[k] {
            let iv = sorted[k];
            proof {
                lemma_place_keeps(ivs, mark@, map@, data_offset, off as int, k as int);
            }
            place_segment(iv, &mut map, &mut off);
            mark.set(k, true);
        }
        k = k + 1;
    }
    let raw_nodes = raw_nodes_of(&itree_nodes, &map);
    proof {
        let fl = inter_flat(itree_nodes@);
        assert forall|k: int| 0 <= k < map@.len() implies exists|j: int|
            0 <= j < fl.len() && (#[trigger] fl[j]).data == IntermediateIntervalData::Ref((#[trigger] map@[k]).0)
                && map@[k].1.1 - map@[k].1.0 == iv_len(fl[j]) by {
            let j = choose|j: int|
                0 <= j < ivs.len() && (#[trigger] ivs[j]).data == IntermediateIntervalData::Ref(map@[k].0)
                    && map@[k].1.1 - map@[k].1.0 == iv_len(ivs[j]);
            let a = choose|a: int| 0 <= a < fl.len() && ivs[j] == fl[a];
            assert(fl[a].data == IntermediateIntervalData::Ref(map@[k].0));
        }
        assert forall|i: int| 0 <= i < ivs.len() implies iv_data_len(#[trigger] ivs[i]) >= 0 by {}
        lemma_marked_len_le(ivs, mark@);
        assert forall|j: int| 0 <= j < fl.len() && (#[trigger] fl[j]).data is Ref implies token_range(
            map@,
            fl[j].data->Ref_0,
        ) matches Some(x) && x.1 - x.0 == iv_len(fl[j]) by {
            let t = fl[j].data->Ref_0;
            // every interval of the flat list is among the sorted ones
            assert(exists|a: int| 0 <= a < ivs.len() && ivs[a] == fl[j]) by {
                lemma_sort_perm_back(fl, j);
            }
            let a = choose|a: int| 0 <= a < ivs.len() && ivs[a] == fl[j];
            assert(mark@[a]);
            assert(token_range(map@, t) is Some);
            let x = token_range(map@, t)->0;
            lemma_token_range_some(map@, t);
            let kk = choose|kk: int| 0 <= kk < map@.len() && #[trigger] map@[kk] == (t, x);
            let b = choose|b: int|
                0 <= b < ivs.len() && (#[trigger] ivs[b]).data == IntermediateIntervalData::Ref(map@[kk].0)
                    && map@[kk].1.1 - map@[kk].1.0 == iv_len(ivs[b]);
            assert(ivs[a].data is Ref && ivs[b].data == ivs[a].data);
        }
    }
    (map, raw_nodes, pages)
}

/// Every interval of a list is among its sorted intervals
pub proof fn lemma_sort_perm_back(s: Seq<IntermediateInterval>, j: int)
    requires
        0 <= j < s.len(),
    ensures
        exists|a: int| 0 <= a < sort_inter(s).len() && #[trigger] sort_inter(s)[a] == s[j],
    decreases s.len(),
{
    let t = s.drop_last();
    let r = sort_inter(t);
    let x = s.last();
    let p = inter_insert_pos(r, x.start);
    lemma_inter_insert_pos_bounds(r, x.start);
    lemma_sort_inter(t);
    let res = r.take(p) + seq![x] + r.skip(p);
    assert(sort_inter(s) == res);
    if j == s.len() - 1 {
        assert(res[p] == x);
    } else {
        lemma_sort_perm_back(t, j);
        let a = choose|a: int| 0 <= a < r.len() && #[trigger] r[a] == t[j];
        assert(t[j] == s[j]);
        if a < p {
            assert(res[a] == r[a]);
        } else {
            assert(res[a + 1] == r[a]);
        }
    }
}

/// What lowering the intervals of a pheader's tree gives: the intermediate intervals, and the
/// deduper's slots once the owned data moved in
pub open spec fn pheader_lowered(p: JifPheader, d: Seq<Option<Seq<u8>>>) -> (
    Seq<IntermediateInterval>,
    Seq<Option<Seq<u8>>>,
) {
    match p {
        JifPheader::Anonymous { itree, .. } => lower_seq(flat(itree.nodes@), d),
        JifPheader::Reference { itree, .. } => lower_seq(flat(itree.nodes@), d),
    }
}

/// The offset recorded for `path` (its first entry), or `u32::MAX` if there is none
pub open spec fn lookup_offset(m: Seq<(&str, u32)>, path: Seq<char>) -> u32
    decreases m.len(),
{
    if m.len() == 0 {
        u32::MAX
    } else if m[0].0@ == path {
        m[0].1
    } else {
        lookup_offset(m.drop_first(), path)
    }
}

/// The intervals of a node list after one more node
pub proof fn lemma_inter_flat_push(v: Seq<IntermediateITreeNode>, n: IntermediateITreeNode)
    ensures
        inter_flat(v.push(n)) == inter_flat(v) + n.ranges@,
{
    assert(v.push(n).drop_last() =~= v);
}

/// Lower the nodes of a tree, appending them to `itree_nodes`
fn lower_nodes<Data: IntervalData>(
    nodes: Vec<ITreeNode<Data>>,
    itree_nodes: &mut Vec<IntermediateITreeNode>,
    deduper: &mut Deduper,
)
    requires
        nodes_wf(nodes@),
    ensures
        final(itree_nodes)@.len() == old(itree_nodes)@.len() + nodes@.len(),
        forall|i: int| 0 <= i < old(itree_nodes)@.len() ==> #[trigger] final(itree_nodes)@[i] == old(itree_nodes)@[i],
        forall|i: int|
            old(itree_nodes)@.len() <= i < final(itree_nodes)@.len() ==> (#[trigger] final(itree_nodes)@[i]).wf(),
        inter_flat(final(itree_nodes)@) == inter_flat(old(itree_nodes)@) + lower_seq(flat(nodes@), old(deduper)@).0,
        final(deduper)@ == lower_seq(flat(nodes@), old(deduper)@).1,
{
    let ghost orig = nodes@;
    let ghost v0 = itree_nodes@;
    let ghost d0 = deduper@;
    let n = nodes.len();
    let mut nodes = nodes;
    let mut rev: Vec<ITreeNode<Data>> = Vec::new();
    while nodes.len() > 0
        invariant
            rev@.len() + nodes@.len() == orig.len(),
            nodes@ == orig.subrange(0, nodes@.len() as int),
            forall|k: int| 0 <= k < rev@.len() ==> #[trigger] rev@[k] == orig[orig.len() - 1 - k],
        decreases nodes@.len(),
    {
        let e = nodes.pop().unwrap();
        rev.push(e);
    }
    let mut i: usize = 0;
    assert(orig.take(0) =~= Seq::<ITreeNode<Data>>::empty());
    assert(inter_flat(v0) + Seq::<IntermediateInterval>::empty() =~= inter_flat(v0));
    while rev.len() > 0
        invariant
            i + rev@.len() == orig.len(),
            n == orig.len(),
            nodes_wf(orig),
            forall|k: int| 0 <= k < rev@.len() ==> #[trigger] rev@[k] == orig[orig.len() - 1 - k],
            itree_nodes@.len() == v0.len() + i,
            forall|k: int| 0 <= k < v0.len() ==> #[trigger] itree_nodes@[k] == v0[k],
            forall|k: int| v0.len() <= k < itree_nodes@.len() ==> (#[trigger] itree_nodes@[k]).wf(),
            inter_flat(itree_nodes@) == inter_flat(v0) + lower_seq(flat(orig.take(i as int)), d0).0,
            deduper@ == lower_seq(flat(orig.take(i as int)), d0).1,
        decreases rev@.len(),
    {
        let node = rev.pop().unwrap();
        assert(node == orig[i as int]);
        let ghost before = deduper@;
        let ghost vb = itree_nodes@;
        let new_node = IntermediateITreeNode::from_materialized(node, deduper);
        proof {
            assert(orig.take(i + 1).drop_last() =~= orig.take(i as int));
            assert(orig.take(i + 1).last() == node);
            lemma_lower_seq_concat(flat(orig.take(i as int)), node.ranges@, d0);
            lemma_inter_flat_push(vb, new_node);
        }
        itree_nodes.push(new_node);
        proof {
            assert(inter_flat(itree_nodes@) =~= inter_flat(v0) + lower_seq(flat(orig.take(i + 1)), d0).0);
        }
        i = i + 1;
    }
    assert(orig.take(i as int) =~= orig);
}

impl JifRawPheader {
    /// The raw pheader standing for a materialized one: its tree's nodes are lowered and
    /// appended to `itree_nodes`, and its path is found in `string_map` (`u32::MAX` if it is not
    /// there)
    pub fn from_materialized(
        jif: JifPheader,
        string_map: &Vec<(&str, u32)>,
        itree_nodes: &mut Vec<IntermediateITreeNode>,
        deduper: &mut Deduper,
    ) -> (r: JifRawPheader)
        requires
            jif.wf(),
            old(itree_nodes)@.len() + pheader_nodes(jif) <= u32::MAX,
        ensures
            r.vbegin == jif.spec_range().0,
            r.vend == jif.spec_range().1,
            r.prot == jif.spec_prot(),
            r.itree_idx == old(itree_nodes)@.len(),
            r.itree_n_nodes == pheader_nodes(jif),
            match jif {
                JifPheader::Anonymous { .. } => r.ref_offset == u64::MAX && r.pathname_offset == u32::MAX,
                JifPheader::Reference { ref_path, ref_offset, .. } => r.ref_offset == ref_offset
                    && r.pathname_offset == lookup_offset(string_map@, ref_path@),
            },
            final(itree_nodes)@.len() == old(itree_nodes)@.len() + pheader_nodes(jif),
            forall|i: int| 0 <= i < old(itree_nodes)@.len() ==> #[trigger] final(itree_nodes)@[i] == old(itree_nodes)@[i],
            forall|i: int|
                old(itree_nodes)@.len() <= i < final(itree_nodes)@.len() ==> (#[trigger] final(itree_nodes)@[i]).wf(),
            inter_flat(final(itree_nodes)@) == inter_flat(old(itree_nodes)@) + pheader_lowered(jif, old(deduper)@).0,
            final(deduper)@ == pheader_lowered(jif, old(deduper)@).1,
    {
        match jif {
            JifPheader::Anonymous { vaddr_range, itree, prot } => {
                let itree_idx = itree_nodes.len() as u32;
                let itree_n_nodes = itree.nodes.len() as u32;
                lower_nodes(itree.nodes, itree_nodes, deduper);
                JifRawPheader {
                    vbegin: vaddr_range.0,
                    vend: vaddr_range.1,
                    ref_offset: u64::MAX,
                    itree_idx,
                    itree_n_nodes,
                    pathname_offset: u32::MAX,
                    prot,
                }
            },
            JifPheader::Reference { vaddr_range, itree, prot, ref_path, ref_offset } => {
                let itree_idx = itree_nodes.len() as u32;
                let itree_n_nodes = itree.nodes.len() as u32;
                lower_nodes(itree.nodes, itree_nodes, deduper);
                let pathname_offset = find_offset(string_map, ref_path.as_str());
                JifRawPheader {
                    vbegin: vaddr_range.0,
                    vend: vaddr_range.1,
                    ref_offset,
                    itree_idx,
                    itree_n_nodes,
                    pathname_offset,
                    prot,
                }
            },
        }
    }
}

/// The offset recorded for `path` (its first entry), or `u32::MAX`
fn find_offset(m: &Vec<(&str, u32)>, path: &str) -> (r: u32)
    ensures
        r == lookup_offset(m@, path@),
{
    let mut i: usize = 0;
    assert(m@.skip(0) =~= m@);
    while i < m.len()
        invariant
            i <= m@.len(),
            lookup_offset(m@, path@) == lookup_offset(m@.skip(i as int), path@),
        decreases m@.len() - i,
    {
        assert(m@.skip(i as int)[0] == m@[i as int]);
        assert(m@.skip(i as int).drop_first() =~= m@.skip(i + 1));
        if str_eq(m[i].0, path) {
            return m[i].1;
        }
        i = i + 1;
    }
    u32::MAX
}

/// Where a pheader goes in a list sorted by start address: after all that start at or before it
pub open spec fn phdr_insert_pos(s: Seq<JifPheader>, x: u64) -> int
    decreases s.len(),
{
    if s.len() == 0 {
        0
    } else if s.last().spec_range().0 <= x {
        s.len() as int
    } else {
        phdr_insert_pos(s.drop_last(), x)
    }
}

/// The stable sort of pheaders by start address
pub open spec fn sort_pheaders(s: Seq<JifPheader>) -> Seq<JifPheader>
    decreases s.len(),
{
    if s.len() == 0 {
        seq![]
    } else {
        let r = sort_pheaders(s.drop_last());
        let p = phdr_insert_pos(r, s.last().spec_range().0);
        r.take(p) + seq![s.last()] + r.skip(p)
    }
}

/// Lowering the intervals of the pheaders, one pheader after the other
pub open spec fn lower_pheaders(ps: Seq<JifPheader>, d: Seq<Option<Seq<u8>>>) -> (
    Seq<IntermediateInterval>,
    Seq<Option<Seq<u8>>>,
)
    decreases ps.len(),
{
    if ps.len() == 0 {
        (seq![], d)
    } else {
        let p = lower_pheaders(ps.drop_last(), d);
        let l = pheader_lowered(ps.last(), p.1);
        (p.0 + l.0, l.1)
    }
}

/// Whether the slots hold a segment for `t`
pub open spec fn slot_held(d: Seq<Option<Seq<u8>>>, t: DedupToken) -> bool {
    0 <= t.index() < d.len() && d[t.index()] is Some
}

/// The string table: each string's UTF-8 bytes, followed by a NUL byte
pub open spec fn string_table(s: Seq<Seq<char>>) -> Seq<u8>
    decreases s.len(),
{
    if s.len() == 0 {
        seq![]
    } else {
        string_table(s.drop_last()) + vstd::utf8::encode_utf8(s.last()) + seq![0u8]
    }
}

/// The first position of `p` in `s`, from `j` on
pub open spec fn first_from(s: Seq<Seq<char>>, p: Seq<char>, j: int) -> Option<int>
    decreases s.len() - j,
{
    if j < 0 || j >= s.len() {
        None
    } else if s[j] == p {
        Some(j)
    } else {
        first_from(s, p, j + 1)
    }
}

/// Where the string table of `s` holds `p`, as a raw pheader records it (`u32::MAX`: nowhere)
pub open spec fn path_offset(s: Seq<Seq<char>>, p: Seq<char>) -> u32 {
    match first_from(s, p, 0) {
        Some(k) => strings_size(s.take(k)) as u32,
        None => u32::MAX,
    }
}

/// The ordering chunks of one kind, in order
pub open spec fn chunks_of_kind(s: Seq<OrdChunk>, k: DataSource) -> Seq<OrdChunk>
    decreases s.len(),
{
    if s.len() == 0 {
        seq![]
    } else if s.last().kind == k {
        chunks_of_kind(s.drop_last(), k).push(s.last())
    } else {
        chunks_of_kind(s.drop_last(), k)
    }
}

/// The ordering chunks sorted by kind: private ones first, then zero ones, then shared ones,
/// each kind in its order
pub open spec fn sort_chunks(s: Seq<OrdChunk>) -> Seq<OrdChunk> {
    chunks_of_kind(s, DataSource::Private) + chunks_of_kind(s, DataSource::Zero) + chunks_of_kind(s, DataSource::Shared)
}

/// Number of itree nodes of the pheaders
pub open spec fn node_count(ps: Seq<JifPheader>) -> int {
    sum_pheaders(ps, |p: JifPheader| pheader_nodes(p))
}

/// The raw pheader standing for a pheader whose nodes start at `idx`, given the string table's
/// strings
pub open spec fn raw_pheader_of(p: JifPheader, paths: Seq<Seq<char>>, idx: int) -> JifRawPheader {
    match p {
        JifPheader::Anonymous { vaddr_range, prot, .. } => JifRawPheader {
            vbegin: vaddr_range.0,
            vend: vaddr_range.1,
            ref_offset: u64::MAX,
            itree_idx: idx as u32,
            itree_n_nodes: pheader_nodes(p) as u32,
            pathname_offset: u32::MAX,
            prot,
        },
        JifPheader::Reference { vaddr_range, prot, ref_path, ref_offset, .. } => JifRawPheader {
            vbegin: vaddr_range.0,
            vend: vaddr_range.1,
            ref_offset,
            itree_idx: idx as u32,
            itree_n_nodes: pheader_nodes(p) as u32,
            pathname_offset: path_offset(paths, ref_path@),
            prot,
        },
    }
}

/// What writing out a JIF needs of it, its pheaders sorted: well formed trees; tables that fit
/// their `u32` offsets; data intervals of one segment that have one length; no two intervals
/// that share bounds; every segment they name held; and data that ends below `u64::MAX`
pub open spec fn can_lay_out(j: Jif) -> bool {
    let ps = sort_pheaders(j.pheaders@);
    let low = lower_pheaders(ps, j.deduper@);
    &&& j.wf()
    &&& ps.len() <= 0x1_0000_0000
    &&& j.ord_chunks@.len() <= 0x1_0000_0000
    &&& strings_size(distinct_paths(ps)) <= 0x1_0000_0000
    &&& node_count(ps) <= u32::MAX
    &&& tokens_consistent(low.0)
    &&& bounds_distinct(low.0)
    &&& forall|k: int| 0 <= k < low.0.len() && (#[trigger] low.0[k]).data is Ref ==> slot_held(low.1, low.0[k].data->Ref_0)
    &&& spec_data_offset(ps, j.ord_chunks@.len() as int) + data_len(low.0) <= u64::MAX
}

/// The insertion position lies within the list
pub proof fn lemma_phdr_insert_pos_bounds(s: Seq<JifPheader>, x: u64)
    ensures
        0 <= phdr_insert_pos(s, x) <= s.len(),
    decreases s.len(),
{
    if s.len() > 0 {
        lemma_phdr_insert_pos_bounds(s.drop_last(), x);
    }
}

/// The insertion position is the one after the last pheader that starts at or before `x`
pub proof fn lemma_phdr_insert_pos_at(s: Seq<JifPheader>, x: u64, j: int)
    requires
        0 <= j <= s.len(),
        forall|k: int| j <= k < s.len() ==> (#[trigger] s[k]).spec_range().0 > x,
        j == 0 || s[j - 1].spec_range().0 <= x,
    ensures
        phdr_insert_pos(s, x) == j,
    decreases s.len(),
{
    if s.len() > j {
        assert(s[s.len() - 1].spec_range().0 > x);
        assert forall|k: int| j <= k < s.drop_last().len() implies (#[trigger] s.drop_last()[k]).spec_range().0 > x by {
            assert(s.drop_last()[k] == s[k]);
        }
        if j > 0 {
            assert(s.drop_last()[j - 1] == s[j - 1]);
        }
        lemma_phdr_insert_pos_at(s.drop_last(), x, j);
    }
}

/// Sorting keeps the count, and each pheader comes from the input
pub proof fn lemma_sort_pheaders(s: Seq<JifPheader>)
    ensures
        sort_pheaders(s).len() == s.len(),
        forall|k: int| 0 <= k < s.len() ==> exists|j: int| 0 <= j < s.len() && #[trigger] sort_pheaders(s)[k] == s[j],
    decreases s.len(),
{
    if s.len() > 0 {
        let t = s.drop_last();
        lemma_sort_pheaders(t);
        let r = sort_pheaders(t);
        let x = s.last();
        let p = phdr_insert_pos(r, x.spec_range().0);
        lemma_phdr_insert_pos_bounds(r, x.spec_range().0);
        let res = r.take(p) + seq![x] + r.skip(p);
        assert forall|k: int| 0 <= k < s.len() implies exists|j: int| 0 <= j < s.len() && #[trigger] sort_pheaders(s)[k] == s[j] by {
            if k < p {
                assert(res[k] == r[k]);
                let j = choose|j: int| 0 <= j < t.len() && r[k] == t[j];
                assert(t[j] == s[j]);
            } else if k == p {
                assert(res[k] == s[s.len() - 1]);
            } else {
                assert(res[k] == r[k - 1]);
                let j = choose|j: int| 0 <= j < t.len() && r[k - 1] == t[j];
                assert(t[j] == s[j]);
            }
        }
    }
}

/// Sort pheaders by start address, keeping the order of those with the same start
fn sort_pheaders_by_start(v: Vec<JifPheader>) -> (r: Vec<JifPheader>)
    ensures
        r@ == sort_pheaders(v@),
{
    let ghost orig = v@;
    let n = v.len();
    let mut v = v;
    let mut rev: Vec<JifPheader> = Vec::new();
    while v.len() > 0
        invariant
            rev@.len() + v@.len() == orig.len(),
            v@ == orig.subrange(0, v@.len() as int),
            forall|k: int| 0 <= k < rev@.len() ==> #[trigger] rev@[k] == orig[orig.len() - 1 - k],
        decreases v@.len(),
    {
        let e = v.pop().unwrap();
        rev.push(e);
    }
    let mut out: Vec<JifPheader> = Vec::new();
    let mut i: usize = 0;
    assert(orig.take(0) =~= Seq::<JifPheader>::empty());
    while rev.len() > 0
        invariant
            i + rev@.len() == orig.len(),
            n == orig.len(),
            forall|k: int| 0 <= k < rev@.len() ==> #[trigger] rev@[k] == orig[orig.len() - 1 - k],
            out@ == sort_pheaders(orig.take(i as int)),
        decreases rev@.len(),
    {
        let x = rev.pop().unwrap();
        assert(x == orig[i as int]);
        proof {
            lemma_sort_pheaders(orig.take(i as int));
        }
        let start = x.virtual_range().0;
        let mut j: usize = out.len();
        while j > 0 && out[j - 1].virtual_range().0 > start
            invariant
                j <= out@.len(),
                start == x.spec_range().0,
                forall|k: int| j <= k < out@.len() ==> (#[trigger] out@[k]).spec_range().0 > start,
            decreases j,
        {
            j = j - 1;
        }
        let ghost before = out@;
        proof {
            lemma_phdr_insert_pos_at(before, start, j as int);
            assert(orig.take(i + 1).drop_last() =~= orig.take(i as int));
            assert(orig.take(i + 1).last() == x);
        }
        out.insert(j, x);
        proof {
            assert(out@ =~= before.take(j as int) + seq![x] + before.skip(j as int));
        }
        i = i + 1;
    }
    assert(orig.take(i as int) =~= orig);
    out
}

/// The chunks of one kind, in order
fn of_kind(v: &Vec<OrdChunk>, k: DataSource, out: &mut Vec<OrdChunk>)
    ensures
        final(out)@ == old(out)@ + chunks_of_kind(v@, k),
{
    let mut i: usize = 0;
    assert(v@.take(0) =~= Seq::<OrdChunk>::empty());
    assert(old(out)@ + Seq::<OrdChunk>::empty() =~= old(out)@);
    while i < v.len()
        invariant
            i <= v@.len(),
            out@ == old(out)@ + chunks_of_kind(v@.take(i as int), k),
        decreases v@.len() - i,
    {
        proof {
            assert(v@.take(i + 1).drop_last() =~= v@.take(i as int));
            assert(v@.take(i + 1).last() == v@[i as int]);
        }
        if v[i].kind == k {
            out.push(v[i]);
            proof {
                assert(out@ =~= old(out)@ + chunks_of_kind(v@.take(i + 1), k));
            }
        }
        i = i + 1;
    }
    assert(v@.take(i as int) =~= v@);
}

/// The chunks sorted by kind
fn sort_chunks_by_kind(v: &Vec<OrdChunk>) -> (r: Vec<OrdChunk>)
    ensures
        r@ == sort_chunks(v@),
{
    let mut out: Vec<OrdChunk> = Vec::new();
    of_kind(v, DataSource::Private, &mut out);
    of_kind(v, DataSource::Zero, &mut out);
    of_kind(v, DataSource::Shared, &mut out);
    assert(out@ =~= sort_chunks(v@));
    out
}

/// The string table of the strings, and the offset of each string in it
fn build_string_table(paths: &Vec<String>) -> (r: (Vec<u8>, Vec<(&str, u32)>))
    requires
        strings_size(paths@.map_values(|s: String| s@)) <= 0x1_0000_0000,
    ensures
        r.0@ == string_table(paths@.map_values(|s: String| s@)),
        r.1@.len() == paths@.len(),
        forall|k: int|
            0 <= k < paths@.len() ==> (#[trigger] r.1@[k]).0@ == paths@[k]@ && r.1@[k].1 == strings_size(
                paths@.map_values(|s: String| s@).take(k),
            ),
{
    let ghost sv = paths@.map_values(|s: String| s@);
    let mut backing: Vec<u8> = Vec::new();
    let mut offsets: Vec<(&str, u32)> = Vec::new();
    let mut i: usize = 0;
    assert(sv.take(0) =~= Seq::<Seq<char>>::empty());
    while i < paths.len()
        invariant
            i <= paths@.len(),
            sv == paths@.map_values(|s: String| s@),
            strings_size(sv) <= 0x1_0000_0000,
            backing@ == string_table(sv.take(i as int)),
            backing@.len() == strings_size(sv.take(i as int)),
            offsets@.len() == i,
            forall|k: int| 0 <= k < i ==> (#[trigger] offsets@[k]).0@ == paths@[k]@ && offsets@[k].1 == strings_size(sv.take(k)),
        decreases paths@.len() - i,
    {
        let s = paths[i].as_str();
        proof {
            lemma_strings_size_prefix(sv, i + 1);
            assert(sv.take(i + 1).drop_last() =~= sv.take(i as int));
            assert(sv.take(i + 1).last() == s@);
        }
        offsets.push((s, backing.len() as u32));
        let bytes = s.as_bytes();
        let ghost b0 = backing@;
        let mut k: usize = 0;
        while k < bytes.len()
            invariant
                k <= bytes@.len(),
                backing@ == b0 + bytes@.take(k as int),
            decreases bytes@.len() - k,
        {
            backing.push(bytes[k]);
            k = k + 1;
            assert(bytes@.take(k as int) =~= bytes@.take(k - 1).push(bytes@[k - 1]));
        }
        backing.push(0u8);
        proof {
            assert(bytes@.take(k as int) =~= bytes@);
            assert(backing@ =~= string_table(sv.take(i + 1)));
        }
        i = i + 1;
    }
    assert(sv.take(i as int) =~= sv);
    (backing, offsets)
}

/// Looking a path up in the offsets of the string table finds its first entry
pub proof fn lemma_lookup_offset(m: Seq<(&str, u32)>, s: Seq<Seq<char>>, p: Seq<char>, j: int)
    requires
        m.len() == s.len(),
        0 <= j <= s.len(),
        forall|k: int| 0 <= k < s.len() ==> (#[trigger] m[k]).0@ == s[k] && m[k].1 == strings_size(s.take(k)),
    ensures
        lookup_offset(m.skip(j), p) == match first_from(s, p, j) {
            Some(k) => strings_size(s.take(k)) as u32,
            None => u32::MAX,
        },
    decreases s.len() - j,
{
    if j < s.len() {
        assert(m.skip(j)[0] == m[j]);
        assert(m.skip(j).drop_first() =~= m.skip(j + 1));
        if s[j] != p {
            lemma_lookup_offset(m, s, p, j + 1);
        }
    }
}

/// A list of nodes of three slots each lays slot `k` of node `i` at `3 * i + k`
pub proof fn lemma_inter_flat_index(nodes: Seq<IntermediateITreeNode>, i: int, k: int)
    requires
        forall|a: int| 0 <= a < nodes.len() ==> (#[trigger] nodes[a]).wf(),
        0 <= i < nodes.len(),
        0 <= k < 3,
    ensures
        inter_flat(nodes).len() == 3 * nodes.len(),
        inter_flat(nodes)[3 * i + k] == nodes[i].ranges@[k],
    decreases nodes.len(),
{
    let t = nodes.drop_last();
    assert forall|a: int| 0 <= a < t.len() implies (#[trigger] t[a]).wf() by {
        assert(t[a] == nodes[a]);
    }
    if i < nodes.len() - 1 {
        lemma_inter_flat_index(t, i, k);
        assert(t[i] == nodes[i]);
    } else if t.len() > 0 {
        lemma_inter_flat_index(t, 0, 0);
    } else {
        assert(inter_flat(t) =~= Seq::<IntermediateInterval>::empty());
    }
    assert(nodes.last().wf());
}

/// Lowering one more pheader appends what lowering it gives
pub proof fn lemma_lower_pheaders_step(ps: Seq<JifPheader>, d: Seq<Option<Seq<u8>>>, i: int)
    requires
        0 <= i < ps.len(),
    ensures
        lower_pheaders(ps.take(i + 1), d).0 == lower_pheaders(ps.take(i), d).0 + pheader_lowered(
            ps[i],
            lower_pheaders(ps.take(i), d).1,
        ).0,
        lower_pheaders(ps.take(i + 1), d).1 == pheader_lowered(ps[i], lower_pheaders(ps.take(i), d).1).1,
{
    assert(ps.take(i + 1).drop_last() =~= ps.take(i));
    assert(ps.take(i + 1).last() == ps[i]);
}

/// The raw JIF `r` lays out the materialized JIF `jif`: the pheaders sorted by start, the
/// string table of their reference paths, their itree nodes with the data placed by the layout
/// of the data section from the data offset on, the ordering chunks sorted by kind, the data
/// segments of the layout and the number of pages the ordering chunks place
pub open spec fn lays_out(jif: Jif, r: JifRaw) -> bool {
    let ps = sort_pheaders(jif.pheaders@);
    let paths = distinct_paths(ps);
    let low = lower_pheaders(ps, jif.deduper@);
    let chunks = sort_chunks(jif.ord_chunks@);
    let off = spec_data_offset(ps, jif.ord_chunks@.len() as int);
    let lay = layout(low.0, chunks, off as u64);
    &&& r.pheaders@.len() == ps.len()
    &&& forall|k: int| 0 <= k < ps.len() ==> #[trigger] r.pheaders@[k] == raw_pheader_of(ps[k], paths, node_count(ps.take(k)))
    &&& r.strings_backing@ == string_table(paths)
    &&& r.ord_chunks@ == chunks
    &&& r.data_offset == off
    &&& r.itree_nodes@.len() == node_count(ps)
    &&& forall|i: int, k: int| 0 <= i < node_count(ps) && 0 <= k < 3 ==> #[trigger] r.itree_nodes@[i].ranges@[k] == raw_of(low.0[3 * i + k], lay.0)
    &&& forall|i: int| 0 <= i < node_count(ps) ==> (#[trigger] r.itree_nodes@[i]).wf()
    &&& map_contiguous(lay.0, off as u64, lay.1)
    &&& lay.1 <= off + data_len(low.0)
    &&& forall|k: int| 0 <= k < lay.0.len() ==> exists|j: int|
        0 <= j < low.0.len() && (#[trigger] low.0[j]).data == IntermediateIntervalData::Ref((#[trigger] lay.0[k]).0)
            && lay.0[k].1.1 - lay.0[k].1.0 == iv_len(low.0[j])
    &&& r.data_segments@.len() == lay.0.len()
    &&& forall|k: int| 0 <= k < lay.0.len() ==> (#[trigger] r.data_segments@[k]).0 == lay.0[k].1 && r.data_segments@[k].1@ == low.1[lay.0[k].0.index()]->Some_0
    &&& r.n_prefetch == if lay.2 > u64::MAX { u64::MAX as int } else { lay.2 }
}

impl JifRaw {
    /// Construct a raw JIF from a materialized one: the pheaders are sorted by start address,
    /// the string table holds each reference path once, the ordering chunks are sorted by kind
    /// (private, zero, shared), and the data section is laid out from the data offset on, the
    /// data that the ordering chunks name first
    pub fn from_materialized(jif: Jif) -> (r: Self)
        requires
            can_lay_out(jif),
        ensures
            lays_out(jif, r),
    {
        let ghost orig = jif;
        let Jif { pheaders, ord_chunks, deduper } = jif;
        let pheaders = sort_pheaders_by_start(pheaders);
        let sorted = Jif { pheaders, ord_chunks, deduper };
        let ghost ps = sorted.pheaders@;
        let ghost f = |p: JifPheader| pheader_nodes(p);
        proof {
            lemma_sort_pheaders(orig.pheaders@);
            assert forall|k: int| 0 <= k < ps.len() implies (#[trigger] ps[k]).wf() by {
                let j = choose|j: int| 0 <= j < orig.pheaders@.len() && ps[k] == orig.pheaders@[j];
                assert(orig.pheaders@[j].wf());
            }
            assert(sum_pheaders(ps, |p: JifPheader| pheader_nodes(p)) == node_count(ps));
        }
        let data_offset = sorted.data_offset();
        let names = sorted.strings();
        let mut owned: Vec<String> = Vec::new();
        let mut i: usize = 0;
        while i < names.len()
            invariant
                i <= names@.len(),
                owned@.len() == i,
                forall|k: int| 0 <= k < i ==> (#[trigger] owned@[k])@ == names@[k]@,
            decreases names@.len() - i,
        {
            owned.push(names[i].to_owned());
            i = i + 1;
        }
        let ghost paths = distinct_paths(ps);
        proof {
            assert(owned@.map_values(|s: String| s@) =~= paths) by {
                assert(names@.map_values(|s: &str| s@) == paths);
                assert forall|k: int| 0 <= k < paths.len() implies owned@.map_values(|s: String| s@)[k] == paths[k] by {
                    assert(names@.map_values(|s: &str| s@)[k] == names@[k]@);
                }
            }
        }
        let Jif { pheaders, ord_chunks, mut deduper } = sorted;
        let (strings_backing, string_map) = build_string_table(&owned);
        let ghost d0 = deduper@;
        let n = pheaders.len();
        let mut pheaders = pheaders;
        let mut rev: Vec<JifPheader> = Vec::new();
        while pheaders.len() > 0
            invariant
                rev@.len() + pheaders@.len() == ps.len(),
                pheaders@ == ps.subrange(0, pheaders@.len() as int),
                forall|k: int| 0 <= k < rev@.len() ==> #[trigger] rev@[k] == ps[ps.len() - 1 - k],
            decreases pheaders@.len(),
        {
            let e = pheaders.pop().unwrap();
            rev.push(e);
        }
        let mut raw_pheaders: Vec<JifRawPheader> = Vec::new();
        let mut itree_nodes: Vec<IntermediateITreeNode> = Vec::new();
        let mut i: usize = 0;
        proof {
            assert(ps.take(0) =~= Seq::<JifPheader>::empty());
            lemma_sum_pheaders_prefix(ps, f, ps.len() as int);
            assert(ps.take(ps.len() as int) =~= ps);
        }
        while rev.len() > 0
            invariant
                i + rev@.len() == ps.len(),
                n == ps.len(),
                f == (|p: JifPheader| pheader_nodes(p)),
                forall|k: int| 0 <= k < rev@.len() ==> #[trigger] rev@[k] == ps[ps.len() - 1 - k],
                forall|k: int| 0 <= k < ps.len() ==> (#[trigger] ps[k]).wf(),
                forall|j: int| 0 <= j <= ps.len() ==> 0 <= sum_pheaders(#[trigger] ps.take(j), f) <= sum_pheaders(ps, f),
                sum_pheaders(ps, f) <= u32::MAX,
                string_map@.len() == paths.len(),
                forall|k: int| 0 <= k < paths.len() ==> (#[trigger] string_map@[k]).0@ == paths[k] && string_map@[k].1 == strings_size(paths.take(k)),
                raw_pheaders@.len() == i,
                forall|k: int| 0 <= k < i ==> #[trigger] raw_pheaders@[k] == raw_pheader_of(ps[k], paths, sum_pheaders(ps.take(k), f)),
                itree_nodes@.len() == sum_pheaders(ps.take(i as int), f),
                forall|k: int| 0 <= k < itree_nodes@.len() ==> (#[trigger] itree_nodes@[k]).wf(),
                inter_flat(itree_nodes@) == lower_pheaders(ps.take(i as int), d0).0,
                deduper@ == lower_pheaders(ps.take(i as int), d0).1,
            decreases rev@.len(),
        {
            let p = rev.pop().unwrap();
            assert(p == ps[i as int]);
            let ghost vb = itree_nodes@;
            let ghost db = deduper@;
            proof {
                lemma_sum_pheaders_step(ps, f, i as int);
                lemma_lower_pheaders_step(ps, d0, i as int);
                if p is Reference {
                    lemma_lookup_offset(string_map@, paths, p->ref_path@, 0);
                    assert(string_map@.skip(0) =~= string_map@);
                }
            }
            let raw = JifRawPheader::from_materialized(p, &string_map, &mut itree_nodes, &mut deduper);
            raw_pheaders.push(raw);
            proof {
                assert forall|k: int| 0 <= k < itree_nodes@.len() implies (#[trigger] itree_nodes@[k]).wf() by {
                    if k < vb.len() {
                        assert(itree_nodes@[k] == vb[k]);
                    }
                }
            }
            i = i + 1;
        }
        proof {
            assert(ps.take(i as int) =~= ps);
        }
        let chunks = sort_chunks_by_kind(&ord_chunks);
        let ghost low = lower_pheaders(ps, d0);
        let ghost nodes = itree_nodes@;
        let (token_map, raw_nodes, n_prefetch) = order_data_segments(itree_nodes, chunks.as_slice(), data_offset);
        proof {
            assert forall|k: int| 0 <= k < token_map@.len() implies deduper.has_token(#[trigger] token_map@[k].0) by {
                let j = choose|j: int|
                    0 <= j < inter_flat(nodes).len() && (#[trigger] inter_flat(nodes)[j]).data
                        == IntermediateIntervalData::Ref(token_map@[k].0);
                assert(low.0[j].data is Ref);
            }
            assert forall|i: int, k: int| 0 <= i < node_count(ps) && 0 <= k < 3 implies #[trigger] raw_nodes@[i].ranges@[k]
                == raw_of(low.0[3 * i + k], token_map@) by {
                lemma_inter_flat_index(nodes, i, k);
                assert(nodes[i].wf());
            }
        }
        let data_segments = deduper.destructure(&token_map);
        JifRaw {
            pheaders: raw_pheaders,
            strings_backing,
            itree_nodes: raw_nodes,
            ord_chunks: chunks,
            data_offset,
            data_segments,
            n_prefetch,
        }
    }
}

} // verus!
