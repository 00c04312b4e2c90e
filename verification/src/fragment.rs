//! Rebuilding the interval trees of pheaders from their data, and splitting pheaders into one
//! pheader per region of one kind of data

use vstd::prelude::*;
use crate::deduper::Deduper;
use crate::error::{ITreeError, ITreeResult, JifError, JifResult};
use crate::itree::diff::{anon_classes, lemma_runs_wf, run_raw, create_anon_itree_from_zero_page, create_itree_from_diff, create_ref_itree_from_zero_page, diff_classes, materialized, runs, runs_raw, zero_classes};
use crate::itree::interval::{AnonIntervalData, anon_from_ref, DataKind, Interval, IntervalData, RefIntervalData};
use crate::itree::itree_node::{ITreeNode, count_data};
use crate::itree::tree::{ITree, slot_empty, bnd, data_bytes, first_out_of_range, insert_pos, present_bounds, present_prefix_len, sort_by_start, flat, laid_out, lemma_present_prefix_le, lemma_pos_valid, lemma_slots_pos, lemma_sort_ivals_elems, lemma_sub_pos_len, nodes_wf, slot_at, sort_ivals, spec_check, sub_pos, sum_nodes};
use crate::jif::Jif;
use crate::pheader::JifPheader;
use crate::utils::{PAGE_SIZE, PageCmp, page_align, spec_align_up, lemma_align_up};

verus! {

/// An interval maps data, its own or the deduper's
pub open spec fn maps_data<Data: IntervalData>(iv: Interval<Data>) -> bool {
    iv.data.kind() == DataKind::Owned || iv.data.kind() == DataKind::Ref
}

/// The data intervals, in order
pub open spec fn data_ivs<Data: IntervalData>(s: Seq<Interval<Data>>) -> Seq<Interval<Data>>
    decreases s.len(),
{
    if s.len() == 0 {
        seq![]
    } else if maps_data(s.last()) {
        data_ivs(s.drop_last()).push(s.last())
    } else {
        data_ivs(s.drop_last())
    }
}

/// The zero intervals, in order
pub open spec fn zero_ivs<Data: IntervalData>(s: Seq<Interval<Data>>) -> Seq<Interval<Data>>
    decreases s.len(),
{
    if s.len() == 0 {
        seq![]
    } else if s.last().data.kind() == DataKind::Zero {
        zero_ivs(s.drop_last()).push(s.last())
    } else {
        zero_ivs(s.drop_last())
    }
}

/// The page classes of data: for anonymous memory zero pages are left out, otherwise they
/// become zero intervals
pub open spec fn page_classes(data: Seq<u8>, keep_zero: bool) -> Seq<PageCmp> {
    if keep_zero {
        zero_classes(data)
    } else {
        anon_classes(data)
    }
}

/// `out` is `prefix` followed, for each interval of `ivs` in turn, by the intervals that
/// splitting its data by its pages gives
pub open spec fn split_by_pages<Data: IntervalData>(
    ivs: Seq<Interval<Data>>,
    d: Deduper,
    keep_zero: bool,
    prefix: Seq<Interval<Data>>,
    out: Seq<Interval<Data>>,
) -> bool
    decreases ivs.len(),
{
    if ivs.len() == 0 {
        out == prefix
    } else {
        let iv = ivs.last();
        let data = data_bytes(iv, d);
        let rr = runs_raw(page_classes(data, keep_zero), iv.start);
        let m = out.len() - rr.len();
        &&& m >= 0
        &&& split_by_pages(ivs.drop_last(), d, keep_zero, prefix, out.take(m))
        &&& forall|k: int| 0 <= k < rr.len() ==> materialized(#[trigger] out[m + k], rr[k], data)
    }
}

/// What splitting data intervals by their pages needs: their data is there, as long as the
/// interval, in whole pages
pub open spec fn splittable<Data: IntervalData>(ivs: Seq<Interval<Data>>, d: Deduper) -> bool {
    forall|k: int|
        0 <= k < ivs.len() ==> {
            let iv = #[trigger] ivs[k];
            &&& maps_data(iv)
            &&& iv.data.kind() == DataKind::Ref ==> d.has_token(iv.data.token())
            &&& data_bytes(iv, d).len() == iv.spec_len()
            &&& data_bytes(iv, d).len() % (PAGE_SIZE as nat) == 0
            &&& iv.start + iv.spec_len() < u64::MAX
        }
}

/// Number of pages of the data of the intervals
pub open spec fn data_pages<Data: IntervalData>(ivs: Seq<Interval<Data>>, d: Deduper) -> int
    decreases ivs.len(),
{
    if ivs.len() == 0 {
        0
    } else {
        data_pages(ivs.drop_last(), d) + data_bytes(ivs.last(), d).len() as int / (PAGE_SIZE as int)
    }
}

/// There are no more runs than classes
pub proof fn lemma_runs_len(cls: Seq<PageCmp>)
    ensures
        runs(cls).len() <= cls.len(),
    decreases cls.len(),
{
    if cls.len() > 0 {
        lemma_runs_len(cls.drop_last());
    }
}

/// Split the data of anonymous data intervals by their zero pages, appending the data runs
fn split_anon(data: Vec<Interval<AnonIntervalData>>, d: &Deduper, out: &mut Vec<Interval<AnonIntervalData>>)
    requires
        splittable(data@, *d),
        old(out)@.len() + data_pages(data@, *d) <= usize::MAX,
    ensures
        split_by_pages(data@, *d, false, old(out)@, final(out)@),
        final(out)@.len() <= old(out)@.len() + data_pages(data@, *d),
{
    let ghost ivs = data@;
    let ghost o0 = out@;
    let mut i: usize = 0;
    assert(ivs.take(0) =~= Seq::<Interval<AnonIntervalData>>::empty());
    proof {
        lemma_data_pages_nonneg(ivs, *d);
    }
    while i < data.len()
        invariant
            i <= ivs.len(),
            data@ == ivs,
            splittable(ivs, *d),
            o0.len() + data_pages(ivs, *d) <= usize::MAX,
            split_by_pages(ivs.take(i as int), *d, false, o0, out@),
            out@.len() <= o0.len() + data_pages(ivs.take(i as int), *d),
            data_pages(ivs.take(i as int), *d) <= data_pages(ivs, *d),
        decreases ivs.len() - i,
    {
        let iv = &data[i];
        assert(splittable(ivs, *d));
        let ghost ivv = ivs[i as int];
        let bytes = match iv.data.get_data(d) {
            Some(b) => b,
            None => {
                proof {
                    assert(false);
                }
                return;
            },
        };
        let ghost before = out@;
        proof {
            assert(ivs.take(i + 1).drop_last() =~= ivs.take(i as int));
            assert(ivs.take(i + 1).last() == ivv);
            lemma_runs_len(anon_classes(bytes@));
            lemma_data_pages_prefix(ivs, *d, i as int);
        }
        create_anon_itree_from_zero_page(bytes, iv.start, out);
        proof {
            let rr = runs_raw(page_classes(bytes@, false), ivv.start);
            assert(out@.take(before.len() as int) =~= before);
            assert forall|k: int| 0 <= k < rr.len() implies materialized(#[trigger] out@[before.len() + k], rr[k], bytes@) by {}
        }
        i = i + 1;
    }
    assert(ivs.take(i as int) =~= ivs);
}

/// Split the data of reference data intervals by their zero pages, appending the data and zero
/// runs
fn split_ref(data: Vec<Interval<RefIntervalData>>, d: &Deduper, out: &mut Vec<Interval<RefIntervalData>>)
    requires
        splittable(data@, *d),
        old(out)@.len() + data_pages(data@, *d) <= usize::MAX,
    ensures
        split_by_pages(data@, *d, true, old(out)@, final(out)@),
        final(out)@.len() <= old(out)@.len() + data_pages(data@, *d),
{
    let ghost ivs = data@;
    let ghost o0 = out@;
    let mut i: usize = 0;
    assert(ivs.take(0) =~= Seq::<Interval<RefIntervalData>>::empty());
    proof {
        lemma_data_pages_nonneg(ivs, *d);
    }
    while i < data.len()
        invariant
            i <= ivs.len(),
            data@ == ivs,
            splittable(ivs, *d),
            o0.len() + data_pages(ivs, *d) <= usize::MAX,
            split_by_pages(ivs.take(i as int), *d, true, o0, out@),
            out@.len() <= o0.len() + data_pages(ivs.take(i as int), *d),
            data_pages(ivs.take(i as int), *d) <= data_pages(ivs, *d),
        decreases ivs.len() - i,
    {
        let iv = &data[i];
        assert(splittable(ivs, *d));
        let ghost ivv = ivs[i as int];
        let bytes = match iv.data.get_data(d) {
            Some(b) => b,
            None => {
                proof {
                    assert(false);
                }
                return;
            },
        };
        let ghost before = out@;
        proof {
            assert(ivs.take(i + 1).drop_last() =~= ivs.take(i as int));
            assert(ivs.take(i + 1).last() == ivv);
            lemma_runs_len(zero_classes(bytes@));
            lemma_data_pages_prefix(ivs, *d, i as int);
        }
        create_ref_itree_from_zero_page(bytes, iv.start, out);
        proof {
            let rr = runs_raw(page_classes(bytes@, true), ivv.start);
            assert(out@.take(before.len() as int) =~= before);
            assert forall|k: int| 0 <= k < rr.len() implies materialized(#[trigger] out@[before.len() + k], rr[k], bytes@) by {}
        }
        i = i + 1;
    }
    assert(ivs.take(i as int) =~= ivs);
}

/// Page counts of a prefix: one more interval adds its pages, and a prefix has no more pages
/// than the whole
proof fn lemma_data_pages_prefix<Data: IntervalData>(ivs: Seq<Interval<Data>>, d: Deduper, i: int)
    requires
        0 <= i < ivs.len(),
    ensures
        data_pages(ivs.take(i + 1), d) == data_pages(ivs.take(i), d) + data_bytes(ivs[i], d).len() as int / (PAGE_SIZE as int),
        data_pages(ivs.take(i + 1), d) <= data_pages(ivs, d),
{
    assert(ivs.take(i + 1).drop_last() =~= ivs.take(i));
    assert(ivs.take(i + 1).last() == ivs[i]);
    lemma_data_pages_take(ivs, d, i + 1);
}

/// A prefix has no more pages than the whole
proof fn lemma_data_pages_take<Data: IntervalData>(ivs: Seq<Interval<Data>>, d: Deduper, j: int)
    requires
        0 <= j <= ivs.len(),
    ensures
        data_pages(ivs.take(j), d) <= data_pages(ivs, d),
    decreases ivs.len(),
{
    if j == ivs.len() {
        assert(ivs.take(j) =~= ivs);
    } else {
        assert(ivs.take(j) =~= ivs.drop_last().take(j));
        lemma_data_pages_take(ivs.drop_last(), d, j);
    }
}

/// One interval has no more pages than all of them
proof fn lemma_data_pages_elem<Data: IntervalData>(ivs: Seq<Interval<Data>>, d: Deduper, m: int)
    requires
        0 <= m < ivs.len(),
    ensures
        data_bytes(ivs[m], d).len() as int / (PAGE_SIZE as int) <= data_pages(ivs, d),
{
    lemma_data_pages_prefix(ivs, d, m);
    lemma_data_pages_nonneg(ivs.take(m), d);
}

/// Page counts are not negative
proof fn lemma_data_pages_nonneg<Data: IntervalData>(ivs: Seq<Interval<Data>>, d: Deduper)
    ensures
        data_pages(ivs, d) >= 0,
    decreases ivs.len(),
{
    if ivs.len() > 0 {
        lemma_data_pages_nonneg(ivs.drop_last(), d);
    }
}

/// An interval that maps data is among the data intervals
proof fn lemma_data_ivs_member<Data: IntervalData>(s: Seq<Interval<Data>>, j: int) -> (m: int)
    requires
        0 <= j < s.len(),
        maps_data(s[j]),
    ensures
        0 <= m < data_ivs(s).len(),
        data_ivs(s)[m] == s[j],
    decreases s.len(),
{
    if j == s.len() - 1 {
        (data_ivs(s.drop_last()).len()) as int
    } else {
        let m = lemma_data_ivs_member(s.drop_last(), j);
        m
    }
}

/// Slot `c` of node `i` sits at index `3 * i + c` of the flattened slots
pub proof fn lemma_flat_index<Data: IntervalData>(nodes: Seq<ITreeNode<Data>>, i: int, c: int)
    requires
        nodes_wf(nodes),
        0 <= i < nodes.len(),
        0 <= c < 3,
    ensures
        flat(nodes).len() == 3 * nodes.len(),
        flat(nodes)[3 * i + c] == nodes[i].ranges@[c],
    decreases nodes.len(),
{
    lemma_flat_len(nodes);
    if i < nodes.len() - 1 {
        lemma_flat_index(nodes.drop_last(), i, c);
        lemma_flat_len(nodes.drop_last());
    } else {
        lemma_flat_len(nodes.drop_last());
        assert(nodes.last().wf());
    }
}

/// Every node holds three slots
pub proof fn lemma_flat_len<Data: IntervalData>(nodes: Seq<ITreeNode<Data>>)
    requires
        nodes_wf(nodes),
    ensures
        flat(nodes).len() == 3 * nodes.len(),
    decreases nodes.len(),
{
    if nodes.len() > 0 {
        assert(nodes.last().wf());
        lemma_flat_len(nodes.drop_last());
    }
}

/// An in-order traversal meets no more intervals than the tree has slots
proof fn lemma_in_order_len<Data: IntervalData>(t: ITree<Data>)
    requires
        t.nodes@.len() <= usize::MAX,
    ensures
        t.in_order().len() <= 3 * t.nodes@.len(),
{
    lemma_slots_pos(t.nodes@, 0);
    lemma_sub_pos_len(t.nodes@.len() as int, 0);
    lemma_present_prefix_le(t.slots());
}

/// Each interval met by an in-order traversal is a slot of the tree
proof fn lemma_in_order_in_flat<Data: IntervalData>(t: ITree<Data>, k: int) -> (j: int)
    requires
        nodes_wf(t.nodes@),
        t.nodes@.len() <= usize::MAX,
        0 <= k < t.in_order().len(),
    ensures
        0 <= j < flat(t.nodes@).len(),
        flat(t.nodes@)[j] == t.in_order()[k],
{
    let nodes = t.nodes@;
    let n = nodes.len() as int;
    lemma_slots_pos(nodes, 0);
    lemma_sub_pos_len(n, 0);
    lemma_pos_valid(n, 0);
    lemma_present_prefix_le(t.slots());
    let p = sub_pos(n, 0)[k];
    assert(t.in_order()[k] == t.slots()[k]);
    assert(t.slots()[k] == slot_at(nodes, p));
    assert(0 <= p.0 < n && p.1 < 3);
    lemma_flat_index(nodes, p.0 as int, p.1 as int);
    3 * p.0 + p.1
}

/// There are no more classes than overlay pages when diffing
proof fn lemma_diff_classes_len(base: Seq<u8>, overlay: Seq<u8>)
    ensures
        diff_classes(base, overlay).len() <= overlay.len() / (PAGE_SIZE as nat),
{
    let nb = base.len() / (PAGE_SIZE as nat);
    let no = overlay.len() / (PAGE_SIZE as nat);
    let common = if nb < no { nb } else { no };
}

/// A tree laid out for no more intervals than a build takes has few enough nodes
pub proof fn lemma_node_bound<Data: IntervalData>(out: Seq<Interval<Data>>)
    requires
        out.len() <= usize::MAX / 8,
    ensures
        (sort_ivals(out).len() + 2) / 3 <= usize::MAX / 16,
{
    lemma_sort_ivals_elems(out);
    assert(usize::MAX >= 0xffff_ffff);
}

/// Bounds that the out-of-range search does not stop at lie within the range
proof fn lemma_in_range(s: Seq<(u64, u64)>, vr: (u64, u64), j: int)
    requires
        0 <= j,
        first_out_of_range(s, vr, j) is None,
    ensures
        forall|k: int| j <= k < s.len() ==> vr.0 <= (#[trigger] s[k]).0 && s[k].1 <= vr.1,
    decreases s.len() - j,
{
    if j < s.len() {
        lemma_in_range(s, vr, j + 1);
    }
}

/// Where a bound is inserted lies within the list
pub proof fn lemma_insert_pos_bounds(s: Seq<(u64, u64)>, x: (u64, u64))
    ensures
        0 <= insert_pos(s, x) <= s.len(),
    decreases s.len(),
{
    if s.len() > 0 {
        lemma_insert_pos_bounds(s.drop_last(), x);
    }
}

/// Sorting keeps every bound
proof fn lemma_sort_by_start_has(s: Seq<(u64, u64)>, x: (u64, u64))
    requires
        s.contains(x),
    ensures
        sort_by_start(s).contains(x),
    decreases s.len(),
{
    let t = sort_by_start(s.drop_last());
    let p = insert_pos(t, s.last());
    lemma_insert_pos_bounds(t, s.last());
    let r = sort_by_start(s);
    assert(r == t.take(p) + seq![s.last()] + t.skip(p));
    if x == s.last() {
        assert(r[p] == x);
    } else {
        let i = choose|i: int| 0 <= i < s.len() && s[i] == x;
        assert(s.drop_last()[i] == x);
        lemma_sort_by_start_has(s.drop_last(), x);
        let l = choose|l: int| 0 <= l < t.len() && t[l] == x;
        if l < p {
            assert(r[l] == x);
        } else {
            assert(r[l + 1] == x);
        }
    }
}

/// A mapped slot contributes its bounds
proof fn lemma_present_bounds_has<Data: IntervalData>(s: Seq<Interval<Data>>, j: int)
    requires
        0 <= j < s.len(),
        !s[j].spec_is_none(),
    ensures
        present_bounds(s).contains(bnd(s[j])),
    decreases s.len(),
{
    let pb = present_bounds(s.drop_last());
    if j == s.len() - 1 {
        assert(present_bounds(s)[pb.len() as int] == bnd(s[j]));
    } else {
        assert(s.drop_last()[j] == s[j]);
        lemma_present_bounds_has(s.drop_last(), j);
        let i = choose|i: int| 0 <= i < pb.len() && pb[i] == bnd(s[j]);
        assert(present_bounds(s)[i] == bnd(s[j]));
    }
}

/// The leading mapped slots map something
proof fn lemma_present_prefix_mapped<Data: IntervalData>(s: Seq<Interval<Data>>, k: int)
    requires
        0 <= k < present_prefix_len(s),
    ensures
        !s[k].spec_is_none(),
    decreases s.len(),
{
    lemma_present_prefix_le(s);
    if k > 0 {
        assert(s.drop_first()[k - 1] == s[k]);
        lemma_present_prefix_mapped(s.drop_first(), k - 1);
    }
}

/// The intervals met in order by a tree that passed its checks map something and lie within
/// its range
proof fn lemma_checked_in_range<Data: IntervalData>(t: ITree<Data>, vr: (u64, u64), k: int)
    requires
        nodes_wf(t.nodes@),
        t.nodes@.len() <= usize::MAX,
        spec_check(t.nodes@, vr) is Ok,
        0 <= k < t.in_order().len(),
    ensures
        !t.in_order()[k].spec_is_none(),
        vr.0 <= t.in_order()[k].start,
        t.in_order()[k].end <= vr.1,
{
    let sl = t.slots();
    lemma_present_prefix_le(sl);
    assert(t.in_order()[k] == sl[k]);
    lemma_present_prefix_mapped(sl, k);
    let j = lemma_in_order_in_flat(t, k);
    let pb = present_bounds(flat(t.nodes@));
    lemma_present_bounds_has(flat(t.nodes@), j);
    lemma_sort_by_start_has(pb, bnd(t.in_order()[k]));
    let sorted = sort_by_start(pb);
    assert(first_out_of_range(sorted, vr, 0) is None);
    lemma_in_range(sorted, vr, 0);
    let i = choose|i: int| 0 <= i < sorted.len() && sorted[i] == bnd(t.in_order()[k]);
    assert(vr.0 <= sorted[i].0 && sorted[i].1 <= vr.1);
}

/// The interval maps something and its bounds are ordered
pub open spec fn mapped_ordered<Data: IntervalData>(iv: Interval<Data>) -> bool {
    !iv.spec_is_none() && iv.start <= iv.end
}

/// A run of pages of a region that ends below the top of the address space has ordered bounds
/// below the top
proof fn lemma_run_bounds(cls: Seq<PageCmp>, vb: u64, k: int)
    requires
        0 <= k < runs(cls).len(),
        vb + cls.len() * (PAGE_SIZE as int) < u64::MAX,
    ensures
        runs_raw(cls, vb)[k].start < runs_raw(cls, vb)[k].end < u64::MAX,
{
    lemma_runs_wf(cls);
    let r = runs(cls)[k];
    let n = cls.len() as int;
    assert(r.0 * 4096 < r.1 * 4096 <= n * 4096) by (nonlinear_arith)
        requires
            r.0 < r.1 <= n,
    ;
    assert(runs_raw(cls, vb)[k] == run_raw(r, vb));
}

/// The classes of a region's pages span no more than its bytes
proof fn lemma_classes_len(data: Seq<u8>, keep_zero: bool)
    ensures
        page_classes(data, keep_zero).len() * (PAGE_SIZE as int) <= data.len(),
{
    let n = data.len() as int;
    assert((n / 4096) * 4096 <= n) by (nonlinear_arith)
        requires
            n >= 0,
    ;
}

/// Splitting data intervals by their pages gives mapped intervals with ordered bounds, where
/// the intervals it starts from are so
proof fn lemma_split_mapped<Data: IntervalData>(
    ivs: Seq<Interval<Data>>,
    d: Deduper,
    keep_zero: bool,
    prefix: Seq<Interval<Data>>,
    out: Seq<Interval<Data>>,
)
    requires
        splittable(ivs, d),
        split_by_pages(ivs, d, keep_zero, prefix, out),
        forall|k: int| 0 <= k < prefix.len() ==> mapped_ordered(#[trigger] prefix[k]),
    ensures
        forall|k: int| 0 <= k < out.len() ==> mapped_ordered(#[trigger] out[k]),
    decreases ivs.len(),
{
    if ivs.len() > 0 {
        let iv = ivs.last();
        let data = data_bytes(iv, d);
        let cls = page_classes(data, keep_zero);
        let rr = runs_raw(cls, iv.start);
        let m = out.len() - rr.len();
        assert(splittable(ivs.drop_last(), d)) by {
            assert forall|k: int| 0 <= k < ivs.drop_last().len() implies #[trigger] ivs.drop_last()[k] == ivs[k] by {}
        }
        lemma_split_mapped(ivs.drop_last(), d, keep_zero, prefix, out.take(m));
        assert(ivs[ivs.len() - 1] == iv);
        lemma_classes_len(data, keep_zero);
        assert forall|k: int| 0 <= k < out.len() implies mapped_ordered(#[trigger] out[k]) by {
            if k < m {
                assert(out.take(m)[k] == out[k]);
            } else {
                let kk = k - m;
                lemma_run_bounds(cls, iv.start, kk);
                assert(materialized(out[m + kk], rr[kk], data));
            }
        }
    }
}

/// A tree built from mapped intervals with ordered bounds meets, in order, mapped intervals
/// with ordered bounds that lie within its range
proof fn lemma_built_in_order<Data: IntervalData>(t: ITree<Data>, out: Seq<Interval<Data>>, vr: (u64, u64))
    requires
        built(Ok(t), out, vr),
        forall|k: int| 0 <= k < out.len() ==> mapped_ordered(#[trigger] out[k]),
    ensures
        forall|k: int| 0 <= k < t.in_order().len() ==> mapped_ordered(#[trigger] t.in_order()[k])
            && vr.0 <= t.in_order()[k].start && t.in_order()[k].end <= vr.1,
{
    lemma_sort_ivals_elems(out);
    assert(t.in_order() == sort_ivals(out));
    assert forall|k: int| 0 <= k < t.in_order().len() implies mapped_ordered(#[trigger] t.in_order()[k])
        && vr.0 <= t.in_order()[k].start && t.in_order()[k].end <= vr.1 by {
        lemma_checked_in_range(t, vr, k);
        let j = choose|j: int| 0 <= j < out.len() && sort_ivals(out)[k] == out[j];
        assert(mapped_ordered(out[j]));
    }
}

/// The data interval at the head of a sequence: `k` is the first index whose interval maps data
pub open spec fn first_data_at<Data: IntervalData>(s: Seq<Interval<Data>>, k: int) -> bool {
    &&& 0 <= k < s.len()
    &&& maps_data(s[k])
    &&& forall|j: int| 0 <= j < k ==> !maps_data(#[trigger] s[j])
}

/// Number of data intervals of a tree
pub open spec fn n_data<Data: IntervalData>(t: ITree<Data>) -> nat {
    sum_nodes(t.nodes@, |s: Seq<Interval<Data>>| count_data(s))
}

/// Rebuilding the tree of a reference pheader diffs its data against the reference file: its
/// single data interval starts the range
pub open spec fn diffs_reference(t: ITree<RefIntervalData>, vr: (u64, u64)) -> bool {
    &&& n_data(t) == 1
    &&& exists|k: int| first_data_at(t.in_order(), k) && t.in_order()[k].start == vr.0
}

/// The bytes of the first data interval met in order
pub open spec fn overlay_of(t: ITree<RefIntervalData>, d: Deduper) -> Seq<u8> {
    data_bytes(t.in_order()[choose|k: int| first_data_at(t.in_order(), k)], d)
}

/// The bytes followed by zeros up to the next page boundary
pub open spec fn pad_to_page(b: Seq<u8>) -> Seq<u8> {
    b + Seq::new((spec_align_up(b.len() as int, PAGE_SIZE as int) - b.len()) as nat, |i: int| 0u8)
}

/// `out` holds the intervals that diffing `overlay` against `base` gives for a region at `vb`
pub open spec fn diffed(base: Seq<u8>, overlay: Seq<u8>, vb: u64, out: Seq<Interval<RefIntervalData>>) -> bool {
    let rr = runs_raw(diff_classes(base, overlay), vb);
    &&& out.len() == rr.len()
    &&& forall|k: int| 0 <= k < rr.len() ==> materialized(#[trigger] out[k], rr[k], overlay)
}

/// A tree built from `ivs` over `vr`, or the error that building reports
pub open spec fn built<Data: IntervalData>(r: ITreeResult<ITree<Data>>, ivs: Seq<Interval<Data>>, vr: (u64, u64)) -> bool {
    match r {
        Ok(t) => {
            &&& laid_out(t.nodes@, sort_ivals(ivs))
            &&& t.virtual_range == vr
            &&& spec_check(t.nodes@, vr) is Ok
            &&& t.nodes@.len() <= usize::MAX / 16
            &&& (forall|k: int| 0 <= k < ivs.len() ==> !(#[trigger] ivs[k]).spec_is_none()) ==> t.in_order()
                == sort_ivals(ivs)
        },
        Err(e) => exists|nodes: Seq<ITreeNode<Data>>|
            laid_out(nodes, sort_ivals(ivs)) && spec_check(nodes, vr) == Err::<(), ITreeError>(e),
    }
}

/// The tree that stands after a rebuild that returned `r`
pub open spec fn outcome<Data: IntervalData>(r: ITreeResult<()>, t: ITree<Data>) -> ITreeResult<ITree<Data>> {
    match r {
        Ok(_) => Ok(t),
        Err(e) => Err(e),
    }
}

/// The bytes of an optional buffer
pub open spec fn bytes_of(o: Option<Vec<u8>>) -> Option<Seq<u8>> {
    match o {
        Some(v) => Some(v@),
        None => None,
    }
}

/// What rebuilding the tree of an anonymous pheader over `vr` does: the data intervals, split
/// by their zero pages, make the new tree; a failed build leaves the tree emptied
pub open spec fn anon_rebuilt(
    before: ITree<AnonIntervalData>,
    after: ITree<AnonIntervalData>,
    vr: (u64, u64),
    d: Deduper,
    r: ITreeResult<()>,
) -> bool {
    &&& exists|out: Seq<Interval<AnonIntervalData>>|
        split_by_pages(data_ivs(flat(before.nodes@)), d, false, seq![], out) && built(outcome(r, after), out, vr)
    &&& r is Err ==> after.nodes@.len() == 0 && after.virtual_range == before.virtual_range
}

/// What rebuilding the tree of a reference pheader over `vr` does: where its single data
/// interval starts the range, that data diffed against the reference file (padded to a page
/// boundary) makes the new tree, and without the file it fails; otherwise the zero intervals
/// and the data intervals split by their pages make it
pub open spec fn ref_rebuilt(
    before: ITree<RefIntervalData>,
    after: ITree<RefIntervalData>,
    vr: (u64, u64),
    d: Deduper,
    reference: Option<Seq<u8>>,
    r: ITreeResult<()>,
) -> bool {
    if diffs_reference(before, vr) {
        match reference {
            None => r == Err::<(), ITreeError>(ITreeError::MissingReference) && after == before,
            Some(b) => {
                &&& exists|out: Seq<Interval<RefIntervalData>>|
                    diffed(pad_to_page(b), overlay_of(before, d), vr.0, out) && built(outcome(r, after), out, vr)
                &&& r is Err ==> after == before
            },
        }
    } else {
        &&& exists|out: Seq<Interval<RefIntervalData>>|
            split_by_pages(data_ivs(flat(before.nodes@)), d, true, zero_ivs(before.in_order()), out)
                && built(outcome(r, after), out, vr)
        &&& r is Err ==> after.nodes@.len() == 0 && after.virtual_range == before.virtual_range
    }
}

/// The data intervals of a sequence, in order
fn keep_data<Data: IntervalData>(ivs: Vec<Interval<Data>>) -> (r: Vec<Interval<Data>>)
    ensures
        r@ == data_ivs(ivs@),
        r@.len() <= ivs@.len(),
{
    broadcast use vstd::std_specs::vec::axiom_spec_into_iter;
    let ghost s = ivs@;
    let mut out: Vec<Interval<Data>> = Vec::new();
    assert(s.take(0) =~= Seq::<Interval<Data>>::empty());
    for iv in it: ivs.into_iter()
        invariant
            it.seq() == s,
            out@ == data_ivs(s.take(it.index() as int)),
            out@.len() <= it.index(),
    {
        let ghost k = it.index() as int;
        proof {
            assert(s.take(k + 1).drop_last() =~= s.take(k));
            assert(s.take(k + 1).last() == s[k]);
        }
        if iv.data.is_data() {
            out.push(iv);
        }
    }
    assert(s.take(s.len() as int) =~= s);
    out
}

/// The zero intervals met by an in-order traversal
fn in_order_zeros(t: &ITree<RefIntervalData>) -> (r: Vec<Interval<RefIntervalData>>)
    requires
        nodes_wf(t.nodes@),
    ensures
        r@ == zero_ivs(t.in_order()),
        r@.len() <= t.in_order().len(),
{
    let io = t.in_order_intervals();
    let ghost s = t.in_order();
    let mut out: Vec<Interval<RefIntervalData>> = Vec::new();
    let mut k: usize = 0;
    assert(s.take(0) =~= Seq::<Interval<RefIntervalData>>::empty());
    while k < io.len()
        invariant
            k <= io@.len(),
            io@.len() == s.len(),
            forall|j: int| 0 <= j < io@.len() ==> *(#[trigger] io@[j]) == s[j],
            out@ == zero_ivs(s.take(k as int)),
            out@.len() <= k,
        decreases io@.len() - k,
    {
        let iv = io[k];
        proof {
            assert(s.take(k + 1).drop_last() =~= s.take(k as int));
            assert(s.take(k + 1).last() == s[k as int]);
        }
        if iv.data.is_zero() {
            out.push(Interval { start: iv.start, end: iv.end, data: RefIntervalData::Zero });
        }
        k = k + 1;
    }
    assert(s.take(k as int) =~= s);
    out
}

/// The first interval met in order that maps data, with its index
fn first_data_interval<'a>(t: &'a ITree<RefIntervalData>) -> (r: Option<(usize, &'a Interval<RefIntervalData>)>)
    requires
        nodes_wf(t.nodes@),
    ensures
        r matches Some(p) ==> first_data_at(t.in_order(), p.0 as int),
        r matches Some(p) ==> *p.1 == t.in_order()[p.0 as int],
        r is None ==> forall|k: int| 0 <= k < t.in_order().len() ==> !maps_data(#[trigger] t.in_order()[k]),
{
    let io = t.in_order_intervals();
    let ghost s = t.in_order();
    let mut k: usize = 0;
    while k < io.len()
        invariant
            k <= io@.len(),
            io@.len() == s.len(),
            forall|j: int| 0 <= j < io@.len() ==> *(#[trigger] io@[j]) == s[j],
            forall|j: int| 0 <= j < k ==> !maps_data(#[trigger] s[j]),
            s == t.in_order(),
        decreases io@.len() - k,
    {
        let iv = io[k];
        assert(*iv == s[k as int]);
        if iv.data.is_data() {
            return Some((k, iv));
        }
        k = k + 1;
    }
    None
}

/// The bytes followed by zeros up to the next page boundary
fn pad_bytes(mut b: Vec<u8>) -> (r: Vec<u8>)
    requires
        b@.len() + PAGE_SIZE <= usize::MAX,
    ensures
        r@ == pad_to_page(b@),
        r@.len() % (PAGE_SIZE as nat) == 0,
        r@.len() < b@.len() + PAGE_SIZE,
{
    let ghost f = b@;
    proof {
        lemma_align_up(f.len() as int, PAGE_SIZE as int);
    }
    let target = page_align(b.len() as u64) as usize;
    while b.len() < target
        invariant
            f.len() <= b@.len() <= target,
            target == spec_align_up(f.len() as int, PAGE_SIZE as int),
            b@.subrange(0, f.len() as int) == f,
            forall|i: int| f.len() <= i < b@.len() ==> b@[i] == 0u8,
        decreases target - b@.len(),
    {
        b.push(0u8);
    }
    assert(b@ =~= pad_to_page(f));
    b
}

/// Rebuild the tree of an anonymous pheader: its data intervals, split by their zero pages
fn rebuild_anon(itree: &mut ITree<AnonIntervalData>, vr: (u64, u64), d: &Deduper) -> (r: ITreeResult<()>)
    requires
        splittable(data_ivs(flat(old(itree).nodes@)), *d),
        data_pages(data_ivs(flat(old(itree).nodes@)), *d) <= usize::MAX / 8,
    ensures
        anon_rebuilt(*old(itree), *final(itree), vr, *d, r),
{
    let ghost before = *itree;
    let orig = itree.take();
    let all = orig.into_iter_intervals();
    let data = keep_data(all);
    let mut intervals: Vec<Interval<AnonIntervalData>> = Vec::new();
    split_anon(data, d, &mut intervals);
    let ghost out = intervals@;
    proof {
        lemma_node_bound(out);
    }
    match ITree::build(intervals, vr) {
        Ok(t) => {
            *itree = t;
            assert(built(outcome(Ok(()), *itree), out, vr));
            Ok(())
        },
        Err(e) => {
            assert(built(outcome(Err(e), *itree), out, vr));
            Err(e)
        },
    }
}

/// Rebuild the tree of a reference pheader from its zero intervals and its data intervals
/// split by their pages
fn rebuild_ref_from_zero(itree: &mut ITree<RefIntervalData>, vr: (u64, u64), d: &Deduper) -> (r: ITreeResult<()>)
    requires
        nodes_wf(old(itree).nodes@),
        old(itree).nodes@.len() <= usize::MAX / 16,
        splittable(data_ivs(flat(old(itree).nodes@)), *d),
        3 * old(itree).nodes@.len() + data_pages(data_ivs(flat(old(itree).nodes@)), *d) <= usize::MAX / 8,
    ensures
        exists|out: Seq<Interval<RefIntervalData>>|
            split_by_pages(data_ivs(flat(old(itree).nodes@)), *d, true, zero_ivs(old(itree).in_order()), out)
                && built(outcome(r, *final(itree)), out, vr),
        r is Err ==> final(itree).nodes@.len() == 0 && final(itree).virtual_range == old(itree).virtual_range,
{
    proof {
        lemma_in_order_len(*itree);
    }
    let mut intervals = in_order_zeros(itree);
    let orig = itree.take();
    let all = orig.into_iter_intervals();
    let data = keep_data(all);
    split_ref(data, d, &mut intervals);
    let ghost out = intervals@;
    proof {
        lemma_node_bound(out);
    }
    match ITree::build(intervals, vr) {
        Ok(t) => {
            *itree = t;
            assert(built(outcome(Ok(()), *itree), out, vr));
            Ok(())
        },
        Err(e) => {
            assert(built(outcome(Err(e), *itree), out, vr));
            Err(e)
        },
    }
}

/// Build the tree of a reference region by diffing its data (`overlay`) against the contents of
/// the reference file
fn rebuild_from_diff(overlay: &[u8], vr: (u64, u64), file: Vec<u8>) -> (r: ITreeResult<ITree<RefIntervalData>>)
    requires
        overlay@.len() % (PAGE_SIZE as nat) == 0,
        vr.0 + overlay@.len() <= u64::MAX,
        overlay@.len() / (PAGE_SIZE as nat) <= usize::MAX / 8,
        file@.len() + PAGE_SIZE <= usize::MAX,
    ensures
        exists|out: Seq<Interval<RefIntervalData>>| diffed(pad_to_page(file@), overlay@, vr.0, out) && built(r, out, vr),
{
    let base = pad_bytes(file);
    let mut intervals: Vec<Interval<RefIntervalData>> = Vec::new();
    create_itree_from_diff(&base, overlay, vr.0, &mut intervals);
    proof {
        lemma_runs_len(diff_classes(base@, overlay@));
        lemma_diff_classes_len(base@, overlay@);
    }
    let ghost out = intervals@;
    proof {
        let rr = runs_raw(diff_classes(base@, overlay@), vr.0);
        assert forall|k: int| 0 <= k < rr.len() implies materialized(#[trigger] out[k], rr[k], overlay@) by {
            assert(out[0 + k] == out[k]);
        }
    }
    proof {
        lemma_node_bound(out);
    }
    let r = ITree::build(intervals, vr);
    assert(diffed(pad_to_page(file@), overlay@, vr.0, out));
    assert(built(r, out, vr));
    r
}

/// Rebuild the tree of a reference pheader, from a diff against the reference file where the
/// single data interval starts the range, from its zero pages otherwise
fn rebuild_ref(
    itree: &mut ITree<RefIntervalData>,
    vr: (u64, u64),
    d: &Deduper,
    reference: Option<Vec<u8>>,
) -> (r: ITreeResult<()>)
    requires
        nodes_wf(old(itree).nodes@),
        old(itree).nodes@.len() <= usize::MAX / 16,
        splittable(data_ivs(flat(old(itree).nodes@)), *d),
        3 * old(itree).nodes@.len() + data_pages(data_ivs(flat(old(itree).nodes@)), *d) <= usize::MAX / 8,
        n_data(*old(itree)) == 1 ==> exists|k: int| first_data_at(old(itree).in_order(), k),
        reference matches Some(b) ==> b@.len() + PAGE_SIZE <= usize::MAX,
    ensures
        ref_rebuilt(*old(itree), *final(itree), vr, *d, bytes_of(reference), r),
{
    let ghost before = *itree;
    if itree.n_data_intervals() == 1 {
        match first_data_interval(itree) {
            Some((k, iv)) => {
                if iv.start == vr.0 {
                    proof {
                        let j = lemma_in_order_in_flat(before, k as int);
                        let m = lemma_data_ivs_member(flat(before.nodes@), j);
                        assert(splittable(data_ivs(flat(before.nodes@)), *d));
                        assert(data_ivs(flat(before.nodes@))[m] == *iv);
                        lemma_data_pages_elem(data_ivs(flat(before.nodes@)), *d, m);
                        assert(diffs_reference(before, vr));
                    }
                    match reference {
                        None => {
                            return Err(ITreeError::MissingReference);
                        },
                        Some(file) => {
                            let overlay = match iv.data.get_data(d) {
                                Some(o) => o,
                                None => {
                                    proof {
                                        assert(false);
                                    }
                                    return Err(ITreeError::MissingReference);
                                },
                            };
                            proof {
                                assert(overlay@ == overlay_of(before, *d));
                            }
                            let res = rebuild_from_diff(overlay, vr, file);
                            match res {
                                Ok(t) => {
                                    *itree = t;
                                    return Ok(());
                                },
                                Err(e) => {
                                    return Err(e);
                                },
                            }
                        },
                    }
                }
                proof {
                    assert(!diffs_reference(before, vr));
                }
            },
            None => {},
        }
    }
    rebuild_ref_from_zero(itree, vr, d)
}

/// What rebuilding the interval tree of a pheader does: the pheader keeps its kind, range,
/// protections and reference, and its tree is rebuilt as [`anon_rebuilt`] or [`ref_rebuilt`]
/// says
pub open spec fn rebuilt(
    before: JifPheader,
    after: JifPheader,
    d: Deduper,
    reference: Option<Seq<u8>>,
    r: ITreeResult<()>,
) -> bool {
    match before {
        JifPheader::Anonymous { vaddr_range, itree, prot } => {
            &&& after is Anonymous
            &&& after.spec_range() == vaddr_range
            &&& after.spec_prot() == prot
            &&& anon_rebuilt(itree, after->Anonymous_itree, vaddr_range, d, r)
        },
        JifPheader::Reference { vaddr_range, itree, prot, ref_path, ref_offset } => {
            &&& after is Reference
            &&& after.spec_range() == vaddr_range
            &&& after.spec_prot() == prot
            &&& after->ref_path == ref_path
            &&& after->ref_offset == ref_offset
            &&& ref_rebuilt(itree, after->Reference_itree, vaddr_range, d, reference, r)
        },
    }
}

/// The intervals met in order map something, have ordered bounds and lie within `vr`
pub open spec fn in_order_within<Data: IntervalData>(t: ITree<Data>, vr: (u64, u64)) -> bool {
    forall|k: int|
        0 <= k < t.in_order().len() ==> mapped_ordered(#[trigger] t.in_order()[k]) && vr.0 <= t.in_order()[k].start
            && t.in_order()[k].end <= vr.1
}

/// The intervals met in order have ordered bounds
pub open spec fn in_order_ordered<Data: IntervalData>(t: ITree<Data>) -> bool {
    forall|k: int| 0 <= k < t.in_order().len() ==> (#[trigger] t.in_order()[k]).start <= t.in_order()[k].end
}

/// The first data interval met in order is the only one that can be
proof fn lemma_first_data_unique<Data: IntervalData>(s: Seq<Interval<Data>>, a: int, b: int)
    requires
        first_data_at(s, a),
        first_data_at(s, b),
    ensures
        a == b,
{
    if a < b {
        assert(!maps_data(s[a]));
    } else if b < a {
        assert(!maps_data(s[b]));
    }
}

/// The zero intervals are intervals of the sequence
proof fn lemma_zero_ivs_elems<Data: IntervalData>(s: Seq<Interval<Data>>)
    ensures
        forall|k: int| 0 <= k < zero_ivs(s).len() ==> exists|j: int| 0 <= j < s.len() && #[trigger] zero_ivs(s)[k] == s[j],
    decreases s.len(),
{
    if s.len() > 0 {
        lemma_zero_ivs_elems(s.drop_last());
        let z = zero_ivs(s.drop_last());
        assert forall|k: int| 0 <= k < zero_ivs(s).len() implies exists|j: int| 0 <= j < s.len() && #[trigger] zero_ivs(s)[k] == s[j] by {
            if k < z.len() {
                let j = choose|j: int| 0 <= j < s.drop_last().len() && z[k] == s.drop_last()[j];
                assert(s[j] == s.drop_last()[j]);
                assert(zero_ivs(s)[k] == z[k]);
            } else {
                assert(zero_ivs(s)[k] == s[s.len() - 1]);
            }
        }
    }
}

/// After a successful rebuild, the intervals met in order map something, have ordered bounds
/// and lie within the range
proof fn lemma_rebuilt_within(before: JifPheader, after: JifPheader, d: Deduper, reference: Option<Seq<u8>>)
    requires
        before.wf(),
        before.rebuildable(d),
        before is Reference ==> in_order_ordered(before->Reference_itree),
        rebuilt(before, after, d, reference, Ok(())),
    ensures
        after.wf(),
        match after {
            JifPheader::Anonymous { itree, vaddr_range, .. } => in_order_within(itree, vaddr_range),
            JifPheader::Reference { itree, vaddr_range, .. } => in_order_within(itree, vaddr_range),
        },
{
    match before {
        JifPheader::Anonymous { itree, vaddr_range, .. } => {
            let t = after->Anonymous_itree;
            let out = choose|out: Seq<Interval<AnonIntervalData>>|
                split_by_pages(data_ivs(flat(itree.nodes@)), d, false, seq![], out) && built(outcome(Ok(()), t), out, vaddr_range);
            lemma_split_mapped(data_ivs(flat(itree.nodes@)), d, false, seq![], out);
            lemma_built_in_order(t, out, vaddr_range);
        },
        JifPheader::Reference { itree, vaddr_range, .. } => {
            let t = after->Reference_itree;
            let vr = vaddr_range;
            if diffs_reference(itree, vr) {
                let b = reference->Some_0;
                let overlay = overlay_of(itree, d);
                let out = choose|out: Seq<Interval<RefIntervalData>>|
                    diffed(pad_to_page(b), overlay, vr.0, out) && built(outcome(Ok(()), t), out, vr);
                let io = itree.in_order();
                let k0 = choose|k: int| first_data_at(io, k);
                let k1 = choose|k: int| first_data_at(io, k) && io[k].start == vr.0;
                lemma_first_data_unique(io, k0, k1);
                let iv = io[k0];
                let j = lemma_in_order_in_flat(itree, k0);
                let m = lemma_data_ivs_member(flat(itree.nodes@), j);
                assert(splittable(data_ivs(flat(itree.nodes@)), d));
                assert(data_ivs(flat(itree.nodes@))[m] == iv);
                let cls = diff_classes(pad_to_page(b), overlay);
                lemma_diff_classes_len(pad_to_page(b), overlay);
                let n = cls.len() as int;
                let ol = overlay.len() as int;
                assert(n * 4096 <= ol) by (nonlinear_arith)
                    requires
                        n <= ol / 4096,
                        ol >= 0,
                ;
                let rr = runs_raw(cls, vr.0);
                assert forall|k: int| 0 <= k < out.len() implies mapped_ordered(#[trigger] out[k]) by {
                    lemma_run_bounds(cls, vr.0, k);
                    assert(materialized(out[k], rr[k], overlay));
                }
                lemma_built_in_order(t, out, vr);
            } else {
                let io = itree.in_order();
                let zs = zero_ivs(io);
                let out = choose|out: Seq<Interval<RefIntervalData>>|
                    split_by_pages(data_ivs(flat(itree.nodes@)), d, true, zs, out) && built(outcome(Ok(()), t), out, vr);
                lemma_zero_ivs_elems(io);
                lemma_present_prefix_le(itree.slots());
                assert forall|k: int| 0 <= k < zs.len() implies mapped_ordered(#[trigger] zs[k]) by {
                    let j = choose|j: int| 0 <= j < io.len() && zs[k] == io[j];
                    assert(io[j] == itree.slots()[j]);
                    lemma_present_prefix_mapped(itree.slots(), j);
                }
                lemma_split_mapped(data_ivs(flat(itree.nodes@)), d, true, zs, out);
                lemma_built_in_order(t, out, vr);
            }
        },
    }
}

/// One of the pheaders that fragmenting a pheader gives, described: its range, the offset into
/// the reference file where it maps the file, and the position (in order) of the interval
/// whose data it holds, if any
pub struct Fragment {
    pub start: u64,
    pub end: u64,
    pub file_offset: Option<u64>,
    pub data_of: Option<usize>,
}

/// The fragment for the gap `[a; b)` of a range starting at `vr.0`, if it is not empty: it
/// maps the file (at the matching offset) where the pheader does, and holds nothing otherwise
pub open spec fn gap_fragment(a: u64, b: u64, vr: (u64, u64), file: Option<u64>) -> Seq<Fragment> {
    if a < b {
        seq![Fragment {
            start: a,
            end: b,
            file_offset: match file {
                Some(o) => Some((o + (a - vr.0)) as u64),
                None => None,
            },
            data_of: None,
        }]
    } else {
        seq![]
    }
}

/// The fragment for the interval at position `k`: an anonymous pheader's interval keeps its
/// data; a reference pheader's data interval becomes anonymous with that data, its zero
/// interval becomes an empty anonymous pheader, and any other interval maps the file
pub open spec fn interval_fragment<Data: IntervalData>(iv: Interval<Data>, k: int, vr: (u64, u64), file: Option<u64>) -> Fragment {
    match file {
        None => Fragment { start: iv.start, end: iv.end, file_offset: None, data_of: Some(k as usize) },
        Some(o) => if maps_data(iv) {
            Fragment { start: iv.start, end: iv.end, file_offset: None, data_of: Some(k as usize) }
        } else if iv.data.kind() == DataKind::Zero {
            Fragment { start: iv.start, end: iv.end, file_offset: None, data_of: None }
        } else {
            Fragment { start: iv.start, end: iv.end, file_offset: Some((o + (iv.start - vr.0)) as u64), data_of: None }
        },
    }
}

/// Where the gap before position `k` starts
pub open spec fn end_before<Data: IntervalData>(io: Seq<Interval<Data>>, vr: (u64, u64), k: int) -> u64 {
    if k <= 0 {
        vr.0
    } else {
        io[k - 1].end
    }
}

/// The fragments up to position `k`: before each interval, the gap that precedes it, then the
/// interval
pub open spec fn fragments_upto<Data: IntervalData>(io: Seq<Interval<Data>>, vr: (u64, u64), file: Option<u64>, k: int) -> Seq<Fragment>
    decreases k,
{
    if k <= 0 {
        seq![]
    } else {
        fragments_upto(io, vr, file, k - 1) + gap_fragment(end_before(io, vr, k - 1), io[k - 1].start, vr, file)
            + seq![interval_fragment(io[k - 1], k - 1, vr, file)]
    }
}

/// The fragments of a range `vr` whose intervals, in order, are `io`: the intervals and the
/// gaps between them, from the start of the range to its end
pub open spec fn fragments<Data: IntervalData>(io: Seq<Interval<Data>>, vr: (u64, u64), file: Option<u64>) -> Seq<Fragment> {
    fragments_upto(io, vr, file, io.len() as int) + gap_fragment(end_before(io, vr, io.len() as int), vr.1, vr, file)
}

/// The data is alike: same kind, same bytes where owned, same token where referenced
pub open spec fn same_data<D1: IntervalData, D2: IntervalData>(a: D1, b: D2) -> bool {
    &&& a.kind() == b.kind()
    &&& a.owned_bytes() == b.owned_bytes()
    &&& a.kind() == DataKind::Ref ==> a.token() == b.token()
}

/// The tree has a single interval spanning `range`, with data alike to `data`
pub open spec fn single_holding<D1: IntervalData, D2: IntervalData>(t: ITree<D1>, range: (u64, u64), data: D2) -> bool {
    &&& t.virtual_range == range
    &&& t.nodes@.len() == 1
    &&& t.nodes@[0].wf()
    &&& t.nodes@[0].ranges@[0].start == range.0
    &&& t.nodes@[0].ranges@[0].end == range.1
    &&& same_data(t.nodes@[0].ranges@[0].data, data)
    &&& forall|i: int| 1 <= i < 3 ==> slot_empty(#[trigger] t.nodes@[0].ranges@[i])
}

/// The pheader is the one the fragment describes, cut from a pheader with protections `prot`
/// and reference `ref_path` whose intervals in order are `io`
pub open spec fn realizes<Data: IntervalData>(p: JifPheader, f: Fragment, io: Seq<Interval<Data>>, prot: u8, ref_path: Seq<char>) -> bool {
    &&& p.spec_range() == (f.start, f.end)
    &&& p.spec_prot() == prot
    &&& match f.file_offset {
        Some(o) => {
            &&& p is Reference
            &&& p->ref_path@ == ref_path
            &&& p->ref_offset == o
            &&& p->Reference_itree.virtual_range == (f.start, f.end)
            &&& p->Reference_itree.nodes@.len() == 0
        },
        None => {
            &&& p is Anonymous
            &&& match f.data_of {
                Some(k) => single_holding(p->Anonymous_itree, (f.start, f.end), io[k as int].data),
                None => p->Anonymous_itree.virtual_range == (f.start, f.end) && p->Anonymous_itree.nodes@.len() == 0,
            }
        },
    }
}

/// The pheaders are the fragments of the pheader `ph`, in order
pub open spec fn fragmented(ph: JifPheader, v: Seq<JifPheader>) -> bool {
    match ph {
        JifPheader::Anonymous { itree, vaddr_range, prot } => {
            let f = fragments(itree.in_order(), vaddr_range, None);
            &&& v.len() == f.len()
            &&& forall|i: int| 0 <= i < f.len() ==> realizes(#[trigger] v[i], f[i], itree.in_order(), prot, seq![])
        },
        JifPheader::Reference { itree, vaddr_range, prot, ref_path, ref_offset } => {
            let f = fragments(itree.in_order(), vaddr_range, Some(ref_offset));
            &&& v.len() == f.len()
            &&& forall|i: int| 0 <= i < f.len() ==> realizes(#[trigger] v[i], f[i], itree.in_order(), prot, ref_path@)
        },
    }
}

/// The intervals, in order, lie within `vr`, have ordered bounds, and each ends at or before
/// the next one starts
pub open spec fn laid_in_range<Data: IntervalData>(io: Seq<Interval<Data>>, vr: (u64, u64)) -> bool {
    &&& vr.0 <= vr.1
    &&& forall|k: int| 0 <= k < io.len() ==> vr.0 <= (#[trigger] io[k]).start && io[k].start <= io[k].end && io[k].end <= vr.1
    &&& forall|k: int| 0 <= k && k + 1 < io.len() ==> (#[trigger] io[k]).end <= io[k + 1].start
}

/// Fragments follow one another: each ends where the next starts, and none ends before it starts
pub open spec fn contiguous(f: Seq<Fragment>) -> bool {
    &&& forall|k: int| 0 <= k < f.len() ==> (#[trigger] f[k]).start <= f[k].end
    &&& forall|k: int| 0 <= k && k + 1 < f.len() ==> (#[trigger] f[k]).end == f[k + 1].start
}

/// The fragments up to position `k` follow one another from the start of the range to where the
/// gap before position `k` starts
proof fn lemma_fragments_upto_tile<Data: IntervalData>(io: Seq<Interval<Data>>, vr: (u64, u64), file: Option<u64>, k: int)
    requires
        laid_in_range(io, vr),
        0 <= k <= io.len(),
    ensures
        contiguous(fragments_upto(io, vr, file, k)),
        k == 0 <==> fragments_upto(io, vr, file, k).len() == 0,
        k > 0 ==> fragments_upto(io, vr, file, k)[0].start == vr.0,
        k > 0 ==> fragments_upto(io, vr, file, k).last().end == end_before(io, vr, k),
    decreases k,
{
    if k > 0 {
        lemma_fragments_upto_tile(io, vr, file, k - 1);
        let p = fragments_upto(io, vr, file, k - 1);
        let a = end_before(io, vr, k - 1);
        let g = gap_fragment(a, io[k - 1].start, vr, file);
        let i = seq![interval_fragment(io[k - 1], k - 1, vr, file)];
        let f = p + g + i;
        assert(f == fragments_upto(io, vr, file, k));
        assert(k - 1 > 0 ==> io[k - 2].end <= io[k - 1].start);
        assert(a <= io[k - 1].start);
        assert(f.last() == i[0]);
        assert forall|j: int| 0 <= j < f.len() implies (#[trigger] f[j]).start <= f[j].end by {
            if j < p.len() {
                assert(f[j] == p[j]);
            } else if j < p.len() + g.len() {
                assert(f[j] == g[j - p.len()]);
            } else {
                assert(f[j] == i[0]);
            }
        }
        assert forall|j: int| 0 <= j && j + 1 < f.len() implies (#[trigger] f[j]).end == f[j + 1].start by {
            if j + 1 < p.len() {
                assert(f[j] == p[j] && f[j + 1] == p[j + 1]);
            } else if j + 1 == p.len() {
                assert(f[j] == p.last());
                if g.len() > 0 {
                    assert(f[j + 1] == g[0]);
                } else {
                    assert(f[j + 1] == i[0]);
                }
            } else {
                assert(g.len() == 1 && j == p.len());
                assert(f[j] == g[0] && f[j + 1] == i[0]);
            }
        }
        if k - 1 == 0 {
            assert(p.len() == 0);
            if g.len() > 0 {
                assert(f[0] == g[0]);
            } else {
                assert(f[0] == i[0]);
            }
        } else {
            assert(f[0] == p[0]);
        }
    }
}

/// The fragments of a range follow one another from its start to its end: cutting a pheader
/// leaves no address out and maps none twice
pub proof fn law_fragments_tile<Data: IntervalData>(io: Seq<Interval<Data>>, vr: (u64, u64), file: Option<u64>)
    requires
        laid_in_range(io, vr),
    ensures
        contiguous(fragments(io, vr, file)),
        fragments(io, vr, file).len() == 0 ==> vr.0 == vr.1,
        fragments(io, vr, file).len() > 0 ==> fragments(io, vr, file)[0].start == vr.0
            && fragments(io, vr, file).last().end == vr.1,
{
    let n = io.len() as int;
    lemma_fragments_upto_tile(io, vr, file, n);
    let p = fragments_upto(io, vr, file, n);
    let a = end_before(io, vr, n);
    let g = gap_fragment(a, vr.1, vr, file);
    let f = p + g;
    assert(f == fragments(io, vr, file));
    assert(n > 0 ==> io[n - 1].end <= vr.1);
    assert forall|j: int| 0 <= j < f.len() implies (#[trigger] f[j]).start <= f[j].end by {
        if j < p.len() {
            assert(f[j] == p[j]);
        } else {
            assert(f[j] == g[j - p.len()]);
        }
    }
    assert forall|j: int| 0 <= j && j + 1 < f.len() implies (#[trigger] f[j]).end == f[j + 1].start by {
        if j + 1 < p.len() {
            assert(f[j] == p[j] && f[j + 1] == p[j + 1]);
        } else {
            assert(j + 1 == p.len() && g.len() == 1);
            assert(f[j] == p.last() && f[j + 1] == g[0]);
        }
    }
    if f.len() > 0 {
        if g.len() > 0 {
            assert(f.last() == g[0]);
        } else {
            assert(f.last() == p.last());
        }
        if p.len() > 0 {
            assert(f[0] == p[0]);
        } else {
            assert(f[0] == g[0]);
        }
    }
}

/// The pieces a pheader is cut into cover its range in order, each starting where the one before
/// ends, with its protections
pub proof fn law_fragment_pieces(ph: JifPheader, v: Seq<JifPheader>)
    requires
        fragmented(ph, v),
        match ph {
            JifPheader::Anonymous { itree, vaddr_range, .. } => laid_in_range(itree.in_order(), vaddr_range),
            JifPheader::Reference { itree, vaddr_range, .. } => laid_in_range(itree.in_order(), vaddr_range),
        },
    ensures
        forall|k: int| 0 <= k < v.len() ==> (#[trigger] v[k]).spec_prot() == ph.spec_prot()
            && v[k].spec_range().0 <= v[k].spec_range().1,
        forall|k: int| 0 <= k && k + 1 < v.len() ==> (#[trigger] v[k]).spec_range().1 == v[k + 1].spec_range().0,
        v.len() == 0 ==> ph.spec_range().0 == ph.spec_range().1,
        v.len() > 0 ==> v[0].spec_range().0 == ph.spec_range().0 && v.last().spec_range().1 == ph.spec_range().1,
{
    let f = match ph {
        JifPheader::Anonymous { itree, vaddr_range, .. } => {
            law_fragments_tile(itree.in_order(), vaddr_range, None);
            fragments(itree.in_order(), vaddr_range, None)
        },
        JifPheader::Reference { itree, vaddr_range, ref_offset, .. } => {
            law_fragments_tile(itree.in_order(), vaddr_range, Some(ref_offset));
            fragments(itree.in_order(), vaddr_range, Some(ref_offset))
        },
    };
    assert(v.len() == f.len());
    assert forall|k: int| 0 <= k < v.len() implies (#[trigger] v[k]).spec_range() == (f[k].start, f[k].end)
        && v[k].spec_prot() == ph.spec_prot() by {
        match ph {
            JifPheader::Anonymous { itree, prot, .. } => {
                assert(realizes(v[k], f[k], itree.in_order(), prot, seq![]));
            },
            JifPheader::Reference { itree, prot, ref_path, .. } => {
                assert(realizes(v[k], f[k], itree.in_order(), prot, ref_path@));
            },
        }
    }
    assert forall|k: int| 0 <= k && k + 1 < v.len() implies (#[trigger] v[k]).spec_range().1 == v[k + 1].spec_range().0 by {
        assert(v[k].spec_range() == (f[k].start, f[k].end));
        assert(v[k + 1].spec_range() == (f[k + 1].start, f[k + 1].end));
    }
    if v.len() > 0 {
        assert(v[0].spec_range() == (f[0].start, f[0].end));
        assert(v.last() == v[v.len() - 1]);
        assert(f.last() == f[f.len() - 1]);
        assert(v[v.len() - 1].spec_range() == (f[f.len() - 1].start, f[f.len() - 1].end));
    }
}

/// The fragment maps the file, if it does, at the offset its start has in a range starting at
/// `vr.0` that maps the file from `o`
pub open spec fn offset_kept(f: Fragment, vr: (u64, u64), o: u64) -> bool {
    f.file_offset matches Some(x) ==> vr.0 <= f.start && x == o + (f.start - vr.0)
}

/// The fragments up to position `k` that map the file do so at the offsets their starts have
proof fn lemma_fragments_upto_offsets<Data: IntervalData>(io: Seq<Interval<Data>>, vr: (u64, u64), o: u64, k: int)
    requires
        forall|j: int| 0 <= j < io.len() ==> vr.0 <= (#[trigger] io[j]).start && io[j].start <= io[j].end && io[j].end <= vr.1,
        o + (vr.1 - vr.0) <= u64::MAX,
        0 <= k <= io.len(),
    ensures
        forall|j: int| 0 <= j < fragments_upto(io, vr, Some(o), k).len() ==> offset_kept(
            #[trigger] fragments_upto(io, vr, Some(o), k)[j],
            vr,
            o,
        ),
    decreases k,
{
    if k > 0 {
        lemma_fragments_upto_offsets(io, vr, o, k - 1);
        let p = fragments_upto(io, vr, Some(o), k - 1);
        let a = end_before(io, vr, k - 1);
        let g = gap_fragment(a, io[k - 1].start, vr, Some(o));
        let i = seq![interval_fragment(io[k - 1], k - 1, vr, Some(o))];
        let f = p + g + i;
        assert(f == fragments_upto(io, vr, Some(o), k));
        assert(vr.0 <= a <= vr.1);
        assert forall|j: int| 0 <= j < f.len() implies offset_kept(#[trigger] f[j], vr, o) by {
            if j < p.len() {
                assert(f[j] == p[j]);
            } else if j < p.len() + g.len() {
                assert(f[j] == g[j - p.len()]);
            } else {
                assert(f[j] == i[0]);
            }
        }
    }
}

/// The fragments of a range that maps the file from `o` map it, where they do, at the offsets
/// their starts have
pub proof fn law_fragment_offsets<Data: IntervalData>(io: Seq<Interval<Data>>, vr: (u64, u64), o: u64)
    requires
        forall|j: int| 0 <= j < io.len() ==> vr.0 <= (#[trigger] io[j]).start && io[j].start <= io[j].end && io[j].end <= vr.1,
        o + (vr.1 - vr.0) <= u64::MAX,
    ensures
        forall|j: int| 0 <= j < fragments(io, vr, Some(o)).len() ==> offset_kept(#[trigger] fragments(io, vr, Some(o))[j], vr, o),
{
    let n = io.len() as int;
    lemma_fragments_upto_offsets(io, vr, o, n);
    let p = fragments_upto(io, vr, Some(o), n);
    let a = end_before(io, vr, n);
    let g = gap_fragment(a, vr.1, vr, Some(o));
    let f = p + g;
    assert(f == fragments(io, vr, Some(o)));
    assert(vr.0 <= a);
    assert forall|j: int| 0 <= j < f.len() implies offset_kept(#[trigger] f[j], vr, o) by {
        if j < p.len() {
            assert(f[j] == p[j]);
        } else {
            assert(f[j] == g[j - p.len()]);
        }
    }
}

/// Each piece cut from a reference pheader that maps the file maps it from the offset its start
/// had in the pheader, with the same file: every address keeps its file offset
pub proof fn law_fragment_pieces_offsets(ph: JifPheader, v: Seq<JifPheader>)
    requires
        fragmented(ph, v),
        ph is Reference,
        forall|j: int| 0 <= j < ph->Reference_itree.in_order().len() ==> ph.spec_range().0 <= (#[trigger] ph->Reference_itree.in_order()[j]).start
            && ph->Reference_itree.in_order()[j].start <= ph->Reference_itree.in_order()[j].end
            && ph->Reference_itree.in_order()[j].end <= ph.spec_range().1,
        ph->ref_offset + (ph.spec_range().1 - ph.spec_range().0) <= u64::MAX,
    ensures
        forall|k: int| 0 <= k < v.len() && (#[trigger] v[k]) is Reference ==> v[k]->ref_offset == ph->ref_offset + (
        v[k].spec_range().0 - ph.spec_range().0) && ph.spec_range().0 <= v[k].spec_range().0 && v[k]->ref_path@ == ph->ref_path@,
{
    let io = ph->Reference_itree.in_order();
    let vr = ph.spec_range();
    let o = ph->ref_offset;
    let f = fragments(io, vr, Some(o));
    law_fragment_offsets(io, vr, o);
    assert forall|k: int| 0 <= k < v.len() && (#[trigger] v[k]) is Reference implies v[k]->ref_offset == o + (v[k].spec_range().0
        - vr.0) && vr.0 <= v[k].spec_range().0 && v[k]->ref_path@ == ph->ref_path@ by {
        assert(realizes(v[k], f[k], io, ph.spec_prot(), ph->ref_path@));
        assert(offset_kept(f[k], vr, o));
    }
}

/// The fragments up to position `k` begin the fragments up to any later position
proof fn lemma_fragments_upto_prefix<Data: IntervalData>(io: Seq<Interval<Data>>, vr: (u64, u64), file: Option<u64>, k: int, m: int)
    requires
        0 <= k <= m,
    ensures
        fragments_upto(io, vr, file, k).len() <= fragments_upto(io, vr, file, m).len(),
        fragments_upto(io, vr, file, m).take(fragments_upto(io, vr, file, k).len() as int) == fragments_upto(io, vr, file, k),
    decreases m - k,
{
    if k < m {
        lemma_fragments_upto_prefix(io, vr, file, k, m - 1);
        let a = fragments_upto(io, vr, file, m - 1);
        let b = fragments_upto(io, vr, file, m);
        let lk = fragments_upto(io, vr, file, k).len() as int;
        assert(b == a + gap_fragment(end_before(io, vr, m - 1), io[m - 1].start, vr, file) + seq![
            interval_fragment(io[m - 1], m - 1, vr, file),
        ]);
        assert(b.take(lk) =~= a.take(lk));
    } else {
        let b = fragments_upto(io, vr, file, m);
        assert(b.take(b.len() as int) =~= b);
    }
}

/// The fragment of the interval at position `j` stands among the fragments
proof fn lemma_interval_fragment_at<Data: IntervalData>(io: Seq<Interval<Data>>, vr: (u64, u64), file: Option<u64>, j: int) -> (k: int)
    requires
        0 <= j < io.len(),
    ensures
        0 <= k < fragments(io, vr, file).len(),
        fragments(io, vr, file)[k] == interval_fragment(io[j], j, vr, file),
{
    let n = io.len() as int;
    lemma_fragments_upto_prefix(io, vr, file, j + 1, n);
    let u = fragments_upto(io, vr, file, j + 1);
    let k = u.len() - 1;
    let f = fragments(io, vr, file);
    assert(u == fragments_upto(io, vr, file, j) + gap_fragment(end_before(io, vr, j), io[j].start, vr, file) + seq![
        interval_fragment(io[j], j, vr, file),
    ]);
    assert(u[k] == interval_fragment(io[j], j, vr, file));
    let all = fragments_upto(io, vr, file, n);
    assert(all.take(u.len() as int)[k] == all[k]);
    assert(f == all + gap_fragment(end_before(io, vr, n), vr.1, vr, file));
    assert(f[k] == all[k]);
    k
}

/// Every interval of an anonymous pheader, and every data interval of a reference pheader,
/// becomes a piece of its own: an anonymous pheader over exactly that interval whose tree holds
/// it alone, with its data
pub proof fn law_fragment_data(ph: JifPheader, v: Seq<JifPheader>)
    requires
        fragmented(ph, v),
        ph.wf(),
    ensures
        ph is Anonymous ==> forall|j: int| 0 <= j < ph->Anonymous_itree.in_order().len() ==> exists|k: int|
            0 <= k < v.len() && (#[trigger] v[k]) is Anonymous && single_holding(
                v[k]->Anonymous_itree,
                (ph->Anonymous_itree.in_order()[j].start, ph->Anonymous_itree.in_order()[j].end),
                #[trigger] ph->Anonymous_itree.in_order()[j].data,
            ),
        ph is Reference ==> forall|j: int| 0 <= j < ph->Reference_itree.in_order().len() && maps_data(
            #[trigger] ph->Reference_itree.in_order()[j],
        ) ==> exists|k: int|
            0 <= k < v.len() && (#[trigger] v[k]) is Anonymous && single_holding(
                v[k]->Anonymous_itree,
                (ph->Reference_itree.in_order()[j].start, ph->Reference_itree.in_order()[j].end),
                ph->Reference_itree.in_order()[j].data,
            ),
{
    match ph {
        JifPheader::Anonymous { itree, vaddr_range, prot } => {
            let io = itree.in_order();
            let f = fragments(io, vaddr_range, None);
            lemma_in_order_len(itree);
            assert forall|j: int| 0 <= j < io.len() implies exists|k: int|
                0 <= k < v.len() && (#[trigger] v[k]) is Anonymous && single_holding(
                    v[k]->Anonymous_itree,
                    (io[j].start, io[j].end),
                    #[trigger] io[j].data,
                ) by {
                let k = lemma_interval_fragment_at(io, vaddr_range, None, j);
                assert(realizes(v[k], f[k], io, prot, seq![]));
                assert(f[k].data_of == Some(j as usize));
                assert((j as usize) as int == j);
            }
        },
        JifPheader::Reference { itree, vaddr_range, prot, ref_path, ref_offset } => {
            let io = itree.in_order();
            let f = fragments(io, vaddr_range, Some(ref_offset));
            lemma_in_order_len(itree);
            assert forall|j: int| 0 <= j < io.len() && maps_data(#[trigger] io[j]) implies exists|k: int|
                0 <= k < v.len() && (#[trigger] v[k]) is Anonymous && single_holding(
                    v[k]->Anonymous_itree,
                    (io[j].start, io[j].end),
                    io[j].data,
                ) by {
                let k = lemma_interval_fragment_at(io, vaddr_range, Some(ref_offset), j);
                assert(realizes(v[k], f[k], io, prot, ref_path@));
                assert(f[k].data_of == Some(j as usize));
                assert((j as usize) as int == j);
            }
        },
    }
}

/// An empty anonymous pheader over `[a; b)`
fn empty_anon(a: u64, b: u64, prot: u8) -> (r: JifPheader)
    ensures
        r == (JifPheader::Anonymous { vaddr_range: (a, b), itree: r->Anonymous_itree, prot }),
        r->Anonymous_itree.virtual_range == (a, b),
        r->Anonymous_itree.nodes@.len() == 0,
{
    JifPheader::Anonymous { vaddr_range: (a, b), itree: ITree::single_default((a, b)), prot }
}

/// An empty reference pheader over `[a; b)`, mapping the file at `offset`
fn empty_ref(a: u64, b: u64, prot: u8, ref_path: &String, offset: u64) -> (r: JifPheader)
    ensures
        r is Reference,
        r.spec_range() == (a, b),
        r.spec_prot() == prot,
        r->ref_path@ == ref_path@,
        r->ref_offset == offset,
        r->Reference_itree.virtual_range == (a, b),
        r->Reference_itree.nodes@.len() == 0,
{
    JifPheader::Reference {
        vaddr_range: (a, b),
        itree: ITree::single_default((a, b)),
        prot,
        ref_path: ref_path.clone(),
        ref_offset: offset,
    }
}

/// Cut an anonymous pheader into one pheader per interval and per gap between intervals
fn split_anon_pheader(itree: &ITree<AnonIntervalData>, vr: (u64, u64), prot: u8) -> (r: Vec<JifPheader>)
    requires
        nodes_wf(itree.nodes@),
        in_order_within(*itree, vr),
    ensures
        r@.len() == fragments(itree.in_order(), vr, None).len(),
        forall|i: int| 0 <= i < r@.len() ==> realizes(#[trigger] r@[i], fragments(itree.in_order(), vr, None)[i], itree.in_order(), prot, seq![]),
{
    let io = itree.in_order_intervals();
    let ghost s = itree.in_order();
    let mut out: Vec<JifPheader> = Vec::new();
    let mut prev: u64 = vr.0;
    let mut k: usize = 0;
    while k < io.len()
        invariant
            k <= io@.len(),
            io@.len() == s.len(),
            s == itree.in_order(),
            in_order_within(*itree, vr),
            forall|j: int| 0 <= j < io@.len() ==> *(#[trigger] io@[j]) == s[j],
            prev == end_before(s, vr, k as int),
            out@.len() == fragments_upto(s, vr, None, k as int).len(),
            forall|i: int| 0 <= i < out@.len() ==> realizes(#[trigger] out@[i], fragments_upto(s, vr, None, k as int)[i], s, prot, seq![]),
        decreases io@.len() - k,
    {
        let iv = io[k];
        let ghost before = out@;
        let ghost f0 = fragments_upto(s, vr, None, k as int);
        if prev < iv.start {
            out.push(empty_anon(prev, iv.start, prot));
        }
        let t = ITree::single((iv.start, iv.end), iv.data.duplicate());
        out.push(JifPheader::Anonymous { vaddr_range: (iv.start, iv.end), itree: t, prot });
        proof {
            let f1 = fragments_upto(s, vr, None, k + 1);
            assert(f1 == f0 + gap_fragment(end_before(s, vr, k as int), s[k as int].start, vr, None) + seq![interval_fragment(s[k as int], k as int, vr, None)]);
            assert forall|i: int| 0 <= i < out@.len() implies realizes(#[trigger] out@[i], f1[i], s, prot, seq![]) by {
                if i < before.len() {
                    assert(out@[i] == before[i]);
                    assert(f1[i] == f0[i]);
                }
            }
        }
        prev = iv.end;
        k = k + 1;
    }
    let ghost before = out@;
    if prev < vr.1 {
        out.push(empty_anon(prev, vr.1, prot));
    }
    proof {
        let f = fragments(s, vr, None);
        assert forall|i: int| 0 <= i < out@.len() implies realizes(#[trigger] out@[i], f[i], s, prot, seq![]) by {
            if i < before.len() {
                assert(out@[i] == before[i]);
            }
        }
    }
    out
}

/// Cut a reference pheader into one pheader per interval and per gap between intervals: data
/// becomes anonymous, zero intervals become empty anonymous pheaders, and the rest maps the file
fn split_ref_pheader(
    itree: &ITree<RefIntervalData>,
    vr: (u64, u64),
    prot: u8,
    ref_path: &String,
    ref_offset: u64,
) -> (r: Vec<JifPheader>)
    requires
        nodes_wf(itree.nodes@),
        in_order_within(*itree, vr),
        ref_offset + (vr.1 - vr.0) <= u64::MAX,
    ensures
        r@.len() == fragments(itree.in_order(), vr, Some(ref_offset)).len(),
        forall|i: int| 0 <= i < r@.len() ==> realizes(#[trigger] r@[i], fragments(itree.in_order(), vr, Some(ref_offset))[i], itree.in_order(), prot, ref_path@),
{
    let io = itree.in_order_intervals();
    let ghost s = itree.in_order();
    let ghost file = Some(ref_offset);
    let mut out: Vec<JifPheader> = Vec::new();
    let mut prev: u64 = vr.0;
    let mut k: usize = 0;
    while k < io.len()
        invariant
            k <= io@.len(),
            io@.len() == s.len(),
            s == itree.in_order(),
            file == Some(ref_offset),
            in_order_within(*itree, vr),
            ref_offset + (vr.1 - vr.0) <= u64::MAX,
            forall|j: int| 0 <= j < io@.len() ==> *(#[trigger] io@[j]) == s[j],
            prev == end_before(s, vr, k as int),
            vr.0 <= prev,
            k > 0 ==> prev <= vr.1,
            out@.len() == fragments_upto(s, vr, file, k as int).len(),
            forall|i: int| 0 <= i < out@.len() ==> realizes(#[trigger] out@[i], fragments_upto(s, vr, file, k as int)[i], s, prot, ref_path@),
        decreases io@.len() - k,
    {
        let iv = io[k];
        assert(mapped_ordered(s[k as int]));
        let ghost before = out@;
        let ghost f0 = fragments_upto(s, vr, file, k as int);
        if prev < iv.start {
            out.push(empty_ref(prev, iv.start, prot, ref_path, ref_offset + (prev - vr.0)));
        }
        if iv.data.is_data() {
            let a = match anon_from_ref(iv.data.duplicate()) {
                Some(a) => a,
                None => AnonIntervalData::NoData,
            };
            let t = ITree::single((iv.start, iv.end), a);
            out.push(JifPheader::Anonymous { vaddr_range: (iv.start, iv.end), itree: t, prot });
        } else if iv.data.is_zero() {
            out.push(empty_anon(iv.start, iv.end, prot));
        } else {
            out.push(empty_ref(iv.start, iv.end, prot, ref_path, ref_offset + (iv.start - vr.0)));
        }
        proof {
            let f1 = fragments_upto(s, vr, file, k + 1);
            assert(f1 == f0 + gap_fragment(end_before(s, vr, k as int), s[k as int].start, vr, file) + seq![interval_fragment(s[k as int], k as int, vr, file)]);
            assert forall|i: int| 0 <= i < out@.len() implies realizes(#[trigger] out@[i], f1[i], s, prot, ref_path@) by {
                if i < before.len() {
                    assert(out@[i] == before[i]);
                    assert(f1[i] == f0[i]);
                }
            }
        }
        prev = iv.end;
        k = k + 1;
    }
    let ghost before = out@;
    if prev < vr.1 {
        out.push(empty_ref(prev, vr.1, prot, ref_path, ref_offset + (prev - vr.0)));
    }
    proof {
        let f = fragments(s, vr, file);
        assert forall|i: int| 0 <= i < out@.len() implies realizes(#[trigger] out@[i], f[i], s, prot, ref_path@) by {
            if i < before.len() {
                assert(out@[i] == before[i]);
            }
        }
    }
    out
}

/// Fragmenting `ph` gives the pheaders `v`: its tree is rebuilt, then cut
pub open spec fn fragments_into(ph: JifPheader, d: Deduper, reference: Option<Seq<u8>>, v: Seq<JifPheader>) -> bool {
    exists|after: JifPheader| rebuilt(ph, after, d, reference, Ok(())) && fragmented(after, v)
}

/// Fragmenting `ph` fails with `e`: rebuilding its tree failed
pub open spec fn fragmenting_fails(ph: JifPheader, d: Deduper, reference: Option<Seq<u8>>, e: JifError) -> bool {
    exists|after: JifPheader, error: ITreeError|
        rebuilt(ph, after, d, reference, Err(error)) && e == (JifError::InvalidITree { virtual_range: ph.spec_range(), error })
}

/// The requirements of fragmenting a pheader: a well formed tree that can be rebuilt from the
/// data it holds, a reference that fits in memory, and for a reference pheader, intervals with
/// ordered bounds and file offsets that fit
pub open spec fn fragmentable(ph: JifPheader, d: Deduper, reference: Option<Seq<u8>>) -> bool {
    &&& ph.wf()
    &&& ph.rebuildable(d)
    &&& reference matches Some(b) ==> b.len() + PAGE_SIZE <= usize::MAX
    &&& ph is Reference ==> in_order_ordered(ph->Reference_itree)
    &&& ph is Reference ==> ph->ref_offset + (ph.spec_range().1 - ph.spec_range().0) <= u64::MAX
}

/// Fragmenting each of the first `parts.len()` pheaders, with its reference buffer, gives its
/// part
pub open spec fn fragment_prefix(phs: Seq<JifPheader>, d: Deduper, refs: Seq<Option<Vec<u8>>>, parts: Seq<Seq<JifPheader>>) -> bool {
    forall|i: int| 0 <= i < parts.len() ==> fragments_into(#[trigger] phs[i], d, bytes_of(refs[i]), parts[i])
}

impl JifPheader {
    /// Rebuilding the interval tree diffs the pheader's data against its reference file
    pub open spec fn spec_needs_reference(&self) -> bool {
        match self {
            JifPheader::Reference { itree, vaddr_range, .. } => diffs_reference(*itree, *vaddr_range),
            JifPheader::Anonymous { .. } => false,
        }
    }

    /// The interval tree can be rebuilt from the data it holds: every data interval holds as
    /// many bytes as it spans, in whole pages, and the pieces fit in memory
    pub open spec fn rebuildable(&self, d: Deduper) -> bool {
        match self {
            JifPheader::Anonymous { itree, .. } => {
                &&& splittable(data_ivs(flat(itree.nodes@)), d)
                &&& 3 * itree.nodes@.len() + data_pages(data_ivs(flat(itree.nodes@)), d) <= usize::MAX / 8
            },
            JifPheader::Reference { itree, .. } => {
                &&& splittable(data_ivs(flat(itree.nodes@)), d)
                &&& 3 * itree.nodes@.len() + data_pages(data_ivs(flat(itree.nodes@)), d) <= usize::MAX / 8
                &&& n_data(*itree) == 1 ==> exists|k: int| first_data_at(itree.in_order(), k)
            },
        }
    }

    /// Whether rebuilding the interval tree needs the contents of the reference file (from the
    /// reference offset on): so it does when the pheader maps a file and its single data
    /// interval starts the range
    pub fn needs_reference(&self) -> (r: bool)
        requires
            self.wf(),
        ensures
            r == self.spec_needs_reference(),
    {
        match self {
            JifPheader::Anonymous { .. } => false,
            JifPheader::Reference { itree, vaddr_range, .. } => {
                if itree.n_data_intervals() != 1 {
                    return false;
                }
                match first_data_interval(itree) {
                    Some((k, iv)) => {
                        proof {
                            let s = itree.in_order();
                            assert forall|j: int| first_data_at(s, j) implies j == k by {
                                if j < k {
                                    assert(!maps_data(s[j]));
                                } else if j > k {
                                    assert(!maps_data(s[k as int]));
                                }
                            }
                        }
                        iv.start == vaddr_range.0
                    },
                    None => false,
                }
            },
        }
    }

    /// Build the interval tree of the pheader anew from the data it holds
    ///
    /// An anonymous pheader gets one interval per run of non-zero pages of its data. A
    /// reference pheader whose single data interval starts its range gets one interval per run
    /// of pages where that data differs from the reference file (`reference`, the file's bytes
    /// from the reference offset on, padded with zeros to a page boundary), zero pages becoming
    /// zero intervals; without `reference` it fails with [`ITreeError::MissingReference`]. Any
    /// other reference pheader keeps its zero intervals and gets one interval per run of zero
    /// or non-zero pages of its data.
    pub fn build_itree(&mut self, deduper: &Deduper, reference: Option<Vec<u8>>) -> (r: ITreeResult<()>)
        requires
            old(self).wf(),
            old(self).rebuildable(*deduper),
            reference matches Some(b) ==> b@.len() + PAGE_SIZE <= usize::MAX,
        ensures
            rebuilt(*old(self), *final(self), *deduper, bytes_of(reference), r),
    {
        match self {
            JifPheader::Anonymous { itree, vaddr_range, .. } => rebuild_anon(itree, *vaddr_range, deduper),
            JifPheader::Reference { itree, vaddr_range, .. } => rebuild_ref(itree, *vaddr_range, deduper, reference),
        }
    }
    /// Fragment the pheader by the source of its data
    ///
    /// The interval tree is rebuilt first (see [`JifPheader::build_itree`]); a failure there is
    /// reported as [`JifError::InvalidITree`]. Then every interval of the rebuilt tree, and
    /// every gap between the start of the range, the intervals and the end of the range,
    /// becomes a pheader of its own. An anonymous pheader's pieces are anonymous: an interval
    /// keeps its data, a gap is left empty. For a reference pheader, a data interval becomes an
    /// anonymous pheader holding that data, a zero interval an empty anonymous pheader, and
    /// anything else (gaps included) maps the reference file at the offset of its start.
    pub fn fragment_vmas(self, deduper: &Deduper, reference: Option<Vec<u8>>) -> (r: JifResult<Vec<JifPheader>>)
        requires
            fragmentable(self, *deduper, bytes_of(reference)),
        ensures
            match r {
                Ok(v) => fragments_into(self, *deduper, bytes_of(reference), v@),
                Err(e) => fragmenting_fails(self, *deduper, bytes_of(reference), e),
            },
            r matches Ok(v) ==> (self is Reference ==> forall|k: int| 0 <= k < v@.len() && (#[trigger] v@[k]) is Reference
                ==> v@[k]->ref_offset == self->ref_offset + (v@[k].spec_range().0 - self.spec_range().0)
                && v@[k]->ref_path@ == self->ref_path@),
    {
        let ghost refb = bytes_of(reference);
        let ghost before = self;
        let mut ph = self;
        let vr = ph.virtual_range();
        match ph.build_itree(deduper, reference) {
            Ok(()) => {},
            Err(error) => {
                return Err(JifError::InvalidITree { virtual_range: vr, error });
            },
        }
        proof {
            lemma_rebuilt_within(before, ph, *deduper, refb);
        }
        let v = match &ph {
            JifPheader::Anonymous { itree, vaddr_range, prot } => split_anon_pheader(itree, *vaddr_range, *prot),
            JifPheader::Reference { itree, vaddr_range, prot, ref_path, ref_offset } => split_ref_pheader(
                itree,
                *vaddr_range,
                *prot,
                ref_path,
                *ref_offset,
            ),
        };
        let res: JifResult<Vec<JifPheader>> = Ok(v);
        assert(rebuilt(before, ph, *deduper, refb, Ok(())) && fragmented(ph, res->Ok_0@));
        proof {
            if before is Reference {
                assert(ph.wf());
                law_fragment_pieces_offsets(ph, v@);
            }
        }
        res
    }
}

impl Jif {
    /// Build the interval trees of all the pheaders, in order, from the data they hold (see
    /// [`JifPheader::build_itree`]); `references[i]` holds the reference file's bytes for
    /// pheader `i`, where it needs them
    ///
    /// On the first failure the building stops: that pheader's error is reported as
    /// [`JifError::InvalidITree`], the pheaders before it are rebuilt and those after it are
    /// left as they were.
    pub fn build_itrees(&mut self, references: Vec<Option<Vec<u8>>>) -> (r: JifResult<()>)
        requires
            references@.len() == old(self).pheaders@.len(),
            forall|i: int| 0 <= i < old(self).pheaders@.len() ==> (#[trigger] old(self).pheaders@[i]).wf()
                && old(self).pheaders@[i].rebuildable(old(self).deduper),
            forall|i: int| 0 <= i < references@.len() ==> (#[trigger] references@[i] matches Some(b) ==> b@.len()
                + PAGE_SIZE <= usize::MAX),
        ensures
            final(self).ord_chunks == old(self).ord_chunks,
            final(self).deduper == old(self).deduper,
            final(self).pheaders@.len() == old(self).pheaders@.len(),
            match r {
                Ok(_) => forall|i: int| 0 <= i < old(self).pheaders@.len() ==> rebuilt(
                    #[trigger] old(self).pheaders@[i],
                    final(self).pheaders@[i],
                    old(self).deduper,
                    bytes_of(references@[i]),
                    Ok(()),
                ),
                Err(e) => exists|k: int|
                    #![trigger old(self).pheaders@[k]]
                    0 <= k < old(self).pheaders@.len() && (forall|i: int| 0 <= i < k ==> rebuilt(
                        #[trigger] old(self).pheaders@[i],
                        final(self).pheaders@[i],
                        old(self).deduper,
                        bytes_of(references@[i]),
                        Ok(()),
                    )) && (exists|error: ITreeError|
                        rebuilt(old(self).pheaders@[k], final(self).pheaders@[k], old(self).deduper, bytes_of(references@[k]), Err(error))
                            && e == (JifError::InvalidITree { virtual_range: old(self).pheaders@[k].spec_range(), error }))
                        && (forall|i: int| k < i < old(self).pheaders@.len() ==> #[trigger] final(self).pheaders@[i] == old(self).pheaders@[i]),
            },
    {
        broadcast use vstd::std_specs::vec::axiom_spec_into_iter;
        let ghost orig = self.pheaders@;
        let ghost refs = references@;
        let n = self.pheaders.len();
        let mut i: usize = 0;
        for reference in it: references.into_iter()
            invariant
                it.seq() == refs,
                i == it.index(),
                refs.len() == orig.len(),
                n == orig.len(),
                orig == old(self).pheaders@,
                self.pheaders@.len() == orig.len(),
                self.ord_chunks == old(self).ord_chunks,
                self.deduper == old(self).deduper,
                forall|i: int| 0 <= i < orig.len() ==> (#[trigger] orig[i]).wf() && orig[i].rebuildable(old(self).deduper),
                forall|i: int| 0 <= i < refs.len() ==> (#[trigger] refs[i] matches Some(b) ==> b@.len() + PAGE_SIZE <= usize::MAX),
                forall|i: int| 0 <= i < it.index() ==> rebuilt(#[trigger] orig[i], self.pheaders@[i], old(self).deduper, bytes_of(refs[i]), Ok(())),
                forall|i: int| it.index() <= i < orig.len() ==> #[trigger] self.pheaders@[i] == orig[i],
        {
            let ghost before = self.pheaders@;
            let vr = self.pheaders[i].virtual_range();
            let res = self.pheaders[i].build_itree(&self.deduper, reference);
            match res {
                Ok(()) => {},
                Err(error) => {
                    proof {
                        assert forall|j: int| i < j < orig.len() implies #[trigger] self.pheaders@[j] == orig[j] by {
                            assert(self.pheaders@[j] == before[j]);
                        }
                        assert forall|j: int| 0 <= j < i implies rebuilt(#[trigger] orig[j], self.pheaders@[j], old(self).deduper, bytes_of(refs[j]), Ok(())) by {
                            assert(self.pheaders@[j] == before[j]);
                        }
                    }
                    return Err(JifError::InvalidITree { virtual_range: vr, error });
                },
            }
            proof {
                assert forall|j: int| i < j < orig.len() implies #[trigger] self.pheaders@[j] == orig[j] by {
                    assert(self.pheaders@[j] == before[j]);
                }
                assert forall|j: int| 0 <= j < i + 1 implies rebuilt(#[trigger] orig[j], self.pheaders@[j], old(self).deduper, bytes_of(refs[j]), Ok(())) by {
                    if j < i {
                        assert(self.pheaders@[j] == before[j]);
                    }
                }
            }
            i = i + 1;
        }
        Ok(())
    }

    /// Fragment all the pheaders by the source of their data (see
    /// [`JifPheader::fragment_vmas`]), in order, replacing each with its fragments;
    /// `references[i]` holds the reference file's bytes for pheader `i`, where it needs them
    ///
    /// On the first failure the fragmenting stops with that pheader's error, and no pheader is
    /// left.
    pub fn fragment_vmas(&mut self, references: Vec<Option<Vec<u8>>>) -> (r: JifResult<()>)
        requires
            references@.len() == old(self).pheaders@.len(),
            forall|i: int| 0 <= i < old(self).pheaders@.len() ==> fragmentable(
                #[trigger] old(self).pheaders@[i],
                old(self).deduper,
                bytes_of(references@[i]),
            ),
        ensures
            final(self).ord_chunks == old(self).ord_chunks,
            final(self).deduper == old(self).deduper,
            match r {
                Ok(_) => exists|parts: Seq<Seq<JifPheader>>| {
                    &&& parts.len() == old(self).pheaders@.len()
                    &&& fragment_prefix(old(self).pheaders@, old(self).deduper, references@, parts)
                    &&& final(self).pheaders@ == parts.flatten()
                },
                Err(e) => {
                    &&& final(self).pheaders@.len() == 0
                    &&& exists|parts: Seq<Seq<JifPheader>>|
                        parts.len() < old(self).pheaders@.len() && fragment_prefix(old(self).pheaders@, old(self).deduper, references@, parts)
                            && fragmenting_fails(
                            old(self).pheaders@[parts.len() as int],
                            old(self).deduper,
                            bytes_of(references@[parts.len() as int]),
                            e,
                        )
                },
            },
    {
        broadcast use vstd::std_specs::vec::axiom_spec_into_iter;
        let ghost orig = self.pheaders@;
        let ghost refs = references@;
        let mut pending: Vec<JifPheader> = Vec::new();
        core::mem::swap(&mut pending, &mut self.pheaders);
        // the pheaders are taken from the back, so reverse them to take them in order
        let mut rev: Vec<JifPheader> = Vec::new();
        while pending.len() > 0
            invariant
                pending@.len() <= orig.len(),
                pending@ == orig.take(pending@.len() as int),
                rev@.len() == orig.len() - pending@.len(),
                forall|j: int| 0 <= j < rev@.len() ==> #[trigger] rev@[j] == orig[orig.len() - 1 - j],
            decreases pending@.len(),
        {
            let ghost l = pending@.len() as int;
            let ph = pending.pop().unwrap();
            assert(pending@ =~= orig.take(l - 1));
            rev.push(ph);
        }
        let mut out: Vec<JifPheader> = Vec::new();
        let ghost mut parts: Seq<Seq<JifPheader>> = Seq::empty();
        for reference in it: references.into_iter()
            invariant
                it.seq() == refs,
                refs.len() == orig.len(),
                refs == references@,
                orig == old(self).pheaders@,
                self.pheaders@.len() == 0,
                self.ord_chunks == old(self).ord_chunks,
                self.deduper == old(self).deduper,
                forall|i: int| 0 <= i < orig.len() ==> fragmentable(#[trigger] orig[i], old(self).deduper, bytes_of(refs[i])),
                rev@.len() == orig.len() - it.index(),
                forall|j: int| 0 <= j < rev@.len() ==> #[trigger] rev@[j] == orig[orig.len() - 1 - j],
                parts.len() == it.index(),
                fragment_prefix(orig, old(self).deduper, refs, parts),
                out@ == parts.flatten(),
        {
            let ghost i = it.index() as int;
            let ph = rev.pop().unwrap();
            assert(ph == orig[i]);
            match ph.fragment_vmas(&self.deduper, reference) {
                Ok(v) => {
                    let mut v = v;
                    proof {
                        parts.lemma_flatten_push(v@);
                        parts = parts.push(v@);
                        assert forall|j: int| 0 <= j < parts.len() implies fragments_into(#[trigger] orig[j], old(self).deduper, bytes_of(refs[j]), parts[j]) by {}
                    }
                    out.append(&mut v);
                },
                Err(e) => {
                    proof {
                        assert(fragment_prefix(old(self).pheaders@, old(self).deduper, references@, parts));
                        assert(fragmenting_fails(old(self).pheaders@[i], old(self).deduper, bytes_of(references@[i]), e));
                    }
                    let res: JifResult<()> = Err(e);
                    return res;
                },
            }
        }
        self.pheaders = out;
        Ok(())
    }
}

} // verus!
