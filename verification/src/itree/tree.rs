//! The interval tree structure

use vstd::prelude::*;
use crate::error::{ITreeError, ITreeResult};
use crate::deduper::{DedupToken, Deduper, lemma_insert_keeps};
use crate::itree::interval::{DataKind, Interval, IntervalData};
use crate::utils::{PAGE_SIZE, page_align_down, spec_align_down};
use crate::itree::accept::{disjoint_intervals, law_laid_out_accepted, lemma_sorted_disjoint};
use crate::itree::itree_node::{ITreeNode, FANOUT, all_bounds_ok, zero_size, data_size, count_present, count_data, mapped_in};

verus! {

/// The bounds of an interval
pub open spec fn bnd<Data: IntervalData>(iv: Interval<Data>) -> (u64, u64) {
    (iv.start, iv.end)
}

/// Bounds of the intervals of the subtree rooted at node `i`, in order
pub open spec fn sub_bounds<Data: IntervalData>(nodes: Seq<ITreeNode<Data>>, i: int) -> Seq<(u64, u64)>
    decreases nodes.len() - i,
{
    if i < 0 || i >= nodes.len() {
        seq![]
    } else {
        let c0 = if 4 * i + 1 < nodes.len() { sub_bounds(nodes, 4 * i + 1) } else { seq![] };
        let c1 = if 4 * i + 2 < nodes.len() { sub_bounds(nodes, 4 * i + 2) } else { seq![] };
        let c2 = if 4 * i + 3 < nodes.len() { sub_bounds(nodes, 4 * i + 3) } else { seq![] };
        let c3 = if 4 * i + 4 < nodes.len() { sub_bounds(nodes, 4 * i + 4) } else { seq![] };
        c0 + seq![bnd(nodes[i].ranges@[0])] + c1 + seq![bnd(nodes[i].ranges@[1])] + c2 + seq![
            bnd(nodes[i].ranges@[2]),
        ] + c3
    }
}

/// Intervals of the subtree rooted at node `i`, in order (including the empty slots)
pub open spec fn sub_slots<Data: IntervalData>(nodes: Seq<ITreeNode<Data>>, i: int) -> Seq<Interval<Data>>
    decreases nodes.len() - i,
{
    if i < 0 || i >= nodes.len() {
        seq![]
    } else {
        let c0 = if 4 * i + 1 < nodes.len() { sub_slots(nodes, 4 * i + 1) } else { seq![] };
        let c1 = if 4 * i + 2 < nodes.len() { sub_slots(nodes, 4 * i + 2) } else { seq![] };
        let c2 = if 4 * i + 3 < nodes.len() { sub_slots(nodes, 4 * i + 3) } else { seq![] };
        let c3 = if 4 * i + 4 < nodes.len() { sub_slots(nodes, 4 * i + 4) } else { seq![] };
        c0 + seq![nodes[i].ranges@[0]] + c1 + seq![nodes[i].ranges@[1]] + c2 + seq![
            nodes[i].ranges@[2],
        ] + c3
    }
}

/// Positions `(node, slot)` of the subtree rooted at node `i` of an `n`-node tree, in order
pub open spec fn sub_pos(n: int, i: int) -> Seq<(usize, usize)>
    decreases n - i,
{
    if i < 0 || i >= n {
        seq![]
    } else {
        let c0 = if 4 * i + 1 < n { sub_pos(n, 4 * i + 1) } else { seq![] };
        let c1 = if 4 * i + 2 < n { sub_pos(n, 4 * i + 2) } else { seq![] };
        let c2 = if 4 * i + 3 < n { sub_pos(n, 4 * i + 3) } else { seq![] };
        let c3 = if 4 * i + 4 < n { sub_pos(n, 4 * i + 4) } else { seq![] };
        c0 + seq![(i as usize, 0usize)] + c1 + seq![(i as usize, 1usize)] + c2 + seq![(i as usize, 2usize)] + c3
    }
}

/// Bounds are ordered, and each interval ends before the next one starts
pub open spec fn sorted_bounds(b: Seq<(u64, u64)>) -> bool {
    &&& forall|k: int| 0 <= k < b.len() ==> (#[trigger] b[k]).0 <= b[k].1
    &&& forall|k: int, j: int| 0 <= k < j < b.len() ==> (#[trigger] b[k]).1 <= (#[trigger] b[j]).0
}

/// Some interval holds `addr`
pub open spec fn holds_addr(b: Seq<(u64, u64)>, addr: u64) -> bool {
    exists|k: int| 0 <= k < b.len() && (#[trigger] b[k]).0 <= addr && addr < b[k].1
}

/// The largest end, not above `addr`, among `lo` and the ends of `b`
pub open spec fn gap_lo(b: Seq<(u64, u64)>, addr: u64, lo: u64) -> u64
    decreases b.len(),
{
    if b.len() == 0 {
        lo
    } else {
        let l = gap_lo(b.drop_last(), addr, lo);
        if b.last().1 <= addr && b.last().1 > l {
            b.last().1
        } else {
            l
        }
    }
}

/// The smallest start, above `addr`, among `hi` and the starts of `b`
pub open spec fn gap_hi(b: Seq<(u64, u64)>, addr: u64, hi: u64) -> u64
    decreases b.len(),
{
    if b.len() == 0 {
        hi
    } else {
        let h = gap_hi(b.drop_last(), addr, hi);
        if b.last().0 > addr && b.last().0 < h {
            b.last().0
        } else {
            h
        }
    }
}

pub proof fn lemma_gap_lo_concat(a: Seq<(u64, u64)>, b: Seq<(u64, u64)>, addr: u64, lo: u64)
    ensures
        gap_lo(a + b, addr, lo) == gap_lo(b, addr, gap_lo(a, addr, lo)),
    decreases b.len(),
{
    if b.len() == 0 {
        assert(a + b =~= a);
    } else {
        assert((a + b).drop_last() =~= a + b.drop_last());
        lemma_gap_lo_concat(a, b.drop_last(), addr, lo);
    }
}

pub proof fn lemma_gap_hi_concat(a: Seq<(u64, u64)>, b: Seq<(u64, u64)>, addr: u64, hi: u64)
    ensures
        gap_hi(a + b, addr, hi) == gap_hi(b, addr, gap_hi(a, addr, hi)),
    decreases b.len(),
{
    if b.len() == 0 {
        assert(a + b =~= a);
    } else {
        assert((a + b).drop_last() =~= a + b.drop_last());
        lemma_gap_hi_concat(a, b.drop_last(), addr, hi);
    }
}

/// The low gap bound only grows, and stays below any bound on the ends that lie below `addr`
pub proof fn lemma_gap_lo_bounded(b: Seq<(u64, u64)>, addr: u64, lo: u64, m: u64)
    requires
        forall|k: int| 0 <= k < b.len() ==> (#[trigger] b[k]).1 <= addr ==> b[k].1 <= m,
    ensures
        gap_lo(b, addr, lo) >= lo,
        gap_lo(b, addr, lo) <= if lo > m { lo } else { m },
    decreases b.len(),
{
    if b.len() > 0 {
        lemma_gap_lo_bounded(b.drop_last(), addr, lo, m);
        assert(b.last() == b[b.len() - 1]);
    }
}

/// Intervals that end after `addr` leave the low gap bound alone
pub proof fn lemma_gap_lo_after(b: Seq<(u64, u64)>, addr: u64, lo: u64)
    requires
        forall|k: int| 0 <= k < b.len() ==> (#[trigger] b[k]).1 > addr,
    ensures
        gap_lo(b, addr, lo) == lo,
    decreases b.len(),
{
    if b.len() > 0 {
        lemma_gap_lo_after(b.drop_last(), addr, lo);
        assert(b.last() == b[b.len() - 1]);
    }
}

/// Intervals that start at or before `addr` leave the high gap bound alone
pub proof fn lemma_gap_hi_before(b: Seq<(u64, u64)>, addr: u64, hi: u64)
    requires
        forall|k: int| 0 <= k < b.len() ==> (#[trigger] b[k]).0 <= addr,
    ensures
        gap_hi(b, addr, hi) == hi,
    decreases b.len(),
{
    if b.len() > 0 {
        lemma_gap_hi_before(b.drop_last(), addr, hi);
        assert(b.last() == b[b.len() - 1]);
    }
}

/// When the first interval starts after `addr` and is the earliest, it bounds the high gap
pub proof fn lemma_gap_hi_first(b: Seq<(u64, u64)>, addr: u64, hi: u64)
    requires
        b.len() > 0,
        b[0].0 > addr,
        forall|k: int| 0 <= k < b.len() ==> (#[trigger] b[k]).0 >= b[0].0,
    ensures
        gap_hi(b, addr, hi) == if hi < b[0].0 { hi } else { b[0].0 },
    decreases b.len(),
{
    if b.len() == 1 {
        assert(b.drop_last().len() == 0);
        assert(gap_hi(b.drop_last(), addr, hi) == hi);
        assert(b.last() == b[0]);
    }
    if b.len() > 1 {
        assert(b.drop_last()[0] == b[0]);
        assert forall|k: int| 0 <= k < b.drop_last().len() implies (#[trigger] b.drop_last()[k]).0 >= b.drop_last()[0].0 by {
            assert(b.drop_last()[k] == b[k]);
        }
        lemma_gap_hi_first(b.drop_last(), addr, hi);
        assert(b.last() == b[b.len() - 1]);
        let h = gap_hi(b.drop_last(), addr, hi);
        assert(h <= b[0].0);
        assert(b.last().0 >= b[0].0);
        assert(gap_hi(b, addr, hi) == h);
    }
}

/// Lowering the starting high bound lowers the result alike
pub proof fn lemma_gap_hi_min(b: Seq<(u64, u64)>, addr: u64, hi: u64, x: u64)
    ensures
        gap_hi(b, addr, if hi < x { hi } else { x }) == if gap_hi(b, addr, hi) < x {
            gap_hi(b, addr, hi)
        } else {
            x
        },
    decreases b.len(),
{
    if b.len() > 0 {
        lemma_gap_hi_min(b.drop_last(), addr, hi, x);
    }
}

pub proof fn lemma_holds_concat(a: Seq<(u64, u64)>, b: Seq<(u64, u64)>, addr: u64)
    ensures
        holds_addr(a + b, addr) <==> holds_addr(a, addr) || holds_addr(b, addr),
{
    if holds_addr(a + b, addr) {
        let k = choose|k: int| 0 <= k < (a + b).len() && (#[trigger] (a + b)[k]).0 <= addr && addr < (a + b)[k].1;
        if k < a.len() {
            assert((a + b)[k] == a[k]);
        } else {
            assert((a + b)[k] == b[k - a.len()]);
        }
    }
    if holds_addr(a, addr) {
        let k = choose|k: int| 0 <= k < a.len() && (#[trigger] a[k]).0 <= addr && addr < a[k].1;
        assert((a + b)[k] == a[k]);
    }
    if holds_addr(b, addr) {
        let k = choose|k: int| 0 <= k < b.len() && (#[trigger] b[k]).0 <= addr && addr < b[k].1;
        assert((a + b)[k + a.len()] == b[k]);
    }
}

/// Every node holds exactly three slots
pub open spec fn nodes_wf<Data: IntervalData>(nodes: Seq<ITreeNode<Data>>) -> bool {
    forall|i: int| 0 <= i < nodes.len() ==> (#[trigger] nodes[i]).wf()
}

/// Index of child `k` of node `i`, if it fits in a `usize`
pub fn child_index(i: usize, k: usize) -> (r: Option<usize>)
    requires
        k < FANOUT,
    ensures
        match r {
            Some(c) => c == 4 * i + 1 + k,
            None => 4 * i + 1 + k > usize::MAX,
        },
{
    match i.checked_mul(4) {
        Some(m) => m.checked_add(1 + k),
        None => None,
    }
}

/// The lookup of `addr` in the subtree rooted at node `i` (which exists): the position of the
/// slot that holds it, or the gap it falls in (narrowed from `[lo; hi)`)
pub open spec fn spec_resolve_at<Data: IntervalData>(
    nodes: Seq<ITreeNode<Data>>,
    addr: u64,
    i: int,
    lo: u64,
    hi: u64,
) -> Result<(int, int), (u64, u64)>
    decreases nodes.len() - i, 4int,
{
    if i < 0 || i >= nodes.len() {
        Err((lo, hi))
    } else {
        spec_resolve_slot(nodes, addr, i, 0, lo, hi)
    }
}

/// The lookup of `addr` from slot `k` of node `i` on
pub open spec fn spec_resolve_slot<Data: IntervalData>(
    nodes: Seq<ITreeNode<Data>>,
    addr: u64,
    i: int,
    k: int,
    lo: u64,
    hi: u64,
) -> Result<(int, int), (u64, u64)>
    decreases nodes.len() - i, 3 - k,
{
    if i < 0 || i >= nodes.len() || k < 0 {
        Err((lo, hi))
    } else if k >= 3 {
        if 4 * i + 4 < nodes.len() {
            spec_resolve_at(nodes, addr, 4 * i + 4, lo, hi)
        } else {
            Err((lo, hi))
        }
    } else {
        let iv = nodes[i].ranges@[k];
        if addr < iv.start {
            let h = if hi < iv.start {
                hi
            } else {
                iv.start
            };
            if 4 * i + 1 + k < nodes.len() {
                spec_resolve_at(nodes, addr, 4 * i + 1 + k, lo, h)
            } else {
                Err((lo, h))
            }
        } else if addr < iv.end {
            Ok((i, k))
        } else {
            spec_resolve_slot(nodes, addr, i, k + 1, if lo > iv.end { lo } else { iv.end }, hi)
        }
    }
}

/// Resolution of an address within the subtree rooted at `node_idx`
#[verifier::rlimit(80)]
fn resolve_aux<'a, Data: IntervalData>(
    nodes: &'a Vec<ITreeNode<Data>>,
    addr: u64,
    node_idx: usize,
    lo: u64,
    hi: u64,
) -> (r: Result<&'a Interval<Data>, (u64, u64)>)
    requires
        nodes_wf(nodes@),
    ensures
        r matches Ok(iv) ==> iv.start <= addr < iv.end && exists|a: int, b: int|
            0 <= a < nodes@.len() && 0 <= b < 3 && nodes@[a].ranges@[b] == *iv,
        sorted_bounds(sub_bounds(nodes@, node_idx as int)) ==> (r is Ok <==> holds_addr(
            sub_bounds(nodes@, node_idx as int),
            addr,
        )),
        sorted_bounds(sub_bounds(nodes@, node_idx as int)) ==> (r matches Err(g) ==> g == (
            gap_lo(sub_bounds(nodes@, node_idx as int), addr, lo),
            gap_hi(sub_bounds(nodes@, node_idx as int), addr, hi),
        )),
        match spec_resolve_at(nodes@, addr, node_idx as int, lo, hi) {
            Ok(p) => r matches Ok(iv) && *iv == nodes@[p.0].ranges@[p.1],
            Err(g) => r == Err::<&Interval<Data>, (u64, u64)>(g),
        },
    decreases nodes@.len() - node_idx,
{
    let ghost n = nodes@.len() as int;
    let ghost i = node_idx as int;
    if node_idx >= nodes.len() {
        return Err((lo, hi));
    }
    let ghost b = sub_bounds(nodes@, i);
    let ghost cb = |k: int| if 4 * i + 1 + k < n { sub_bounds(nodes@, 4 * i + 1 + k) } else { seq![] };
    let ghost s0 = bnd(nodes@[i].ranges@[0]);
    let ghost s1 = bnd(nodes@[i].ranges@[1]);
    let ghost s2 = bnd(nodes@[i].ranges@[2]);
    proof {
        assert(b == cb(0) + seq![s0] + cb(1) + seq![s1] + cb(2) + seq![s2] + cb(3));
    }
    assert(nodes@[i].wf());
    let node = &nodes[node_idx];
    let n_nodes = nodes.len();
    let mut k: usize = 0;
    let mut cur_lo = lo;
    // the part of the subtree before child `k`
    let ghost mut prefix: Seq<(u64, u64)> = seq![];
    while k < 3
        invariant
            k <= 3,
            nodes_wf(nodes@),
            node_idx < nodes@.len(),
            node == &nodes@[i],
            node.ranges@.len() == 3,
            n == nodes@.len(),
            n == n_nodes,
            i == node_idx,
            b == sub_bounds(nodes@, i),
            forall|kk: int| #[trigger] cb(kk) == (if 4 * i + 1 + kk < n { sub_bounds(nodes@, 4 * i + 1 + kk) } else { Seq::<(u64, u64)>::empty() }),
            b == cb(0) + seq![s0] + cb(1) + seq![s1] + cb(2) + seq![s2] + cb(3),
            s0 == bnd(node.ranges@[0]),
            s1 == bnd(node.ranges@[1]),
            s2 == bnd(node.ranges@[2]),
            k == 0 ==> prefix == Seq::<(u64, u64)>::empty(),
            k == 1 ==> prefix == cb(0) + seq![s0],
            k == 2 ==> prefix == cb(0) + seq![s0] + cb(1) + seq![s1],
            k == 3 ==> prefix == cb(0) + seq![s0] + cb(1) + seq![s1] + cb(2) + seq![s2],
            k > 0 ==> node.ranges@[k - 1].end <= addr,
            sorted_bounds(b) ==> cur_lo == gap_lo(prefix, addr, lo),
            sorted_bounds(b) ==> !holds_addr(prefix, addr),
            sorted_bounds(b) ==> gap_hi(prefix, addr, hi) == hi,
            spec_resolve_at(nodes@, addr, i, lo, hi) == spec_resolve_slot(nodes@, addr, i, k as int, cur_lo, hi),
        decreases 3 - k,
    {
        let ival = &node.ranges[k];
        if addr < ival.start {
            let child_lo = cur_lo;
            let child_hi = if hi < ival.start { hi } else { ival.start };
            let ghost rest = if k == 0 {
                seq![s0] + cb(1) + seq![s1] + cb(2) + seq![s2] + cb(3)
            } else if k == 1 {
                seq![s1] + cb(2) + seq![s2] + cb(3)
            } else {
                seq![s2] + cb(3)
            };
            proof {
                if k == 0 {
                    assert(b =~= prefix + cb(0) + rest);
                } else if k == 1 {
                    assert(b =~= prefix + cb(1) + rest);
                } else {
                    assert(b =~= prefix + cb(2) + rest);
                }
            }
            proof {
                if sorted_bounds(b) {
                    lemma_child_sorted_split(prefix, cb(k as int), rest);
                    lemma_less_case(prefix, cb(k as int), rest, addr, lo, hi, cur_lo);
                }
            }
            let ci = child_index(node_idx, k);
            let in_tree = match ci {
                Some(c) => c < nodes.len(),
                None => false,
            };
            if !in_tree {
                {
                    proof {
                        assert(cb(k as int) =~= Seq::<(u64, u64)>::empty());
                        assert(gap_lo(cb(k as int), addr, child_lo) == child_lo);
                        assert(gap_hi(cb(k as int), addr, child_hi) == child_hi);
                        assert(!holds_addr(cb(k as int), addr));
                    }
                    return Err((child_lo, child_hi));
                }
            }
            let child = ci.unwrap();
            let r = resolve_aux(nodes, addr, child, child_lo, child_hi);
            proof {
                assert(child as int == 4 * i + 1 + k);
                assert(cb(k as int) == sub_bounds(nodes@, child as int));
                if sorted_bounds(b) {
                    lemma_child_sorted_split(prefix, cb(k as int), rest);
                    lemma_less_case(prefix, cb(k as int), rest, addr, lo, hi, cur_lo);
                }
            }
            return r;
        } else if addr < ival.end {
            proof {
                if sorted_bounds(b) {
                    let s = bnd(node.ranges@[k as int]);
                    let pre = if k == 0 { cb(0) } else if k == 1 { prefix + cb(1) } else { prefix + cb(2) };
                    let rest = if k == 0 {
                        cb(1) + seq![s1] + cb(2) + seq![s2] + cb(3)
                    } else if k == 1 {
                        cb(2) + seq![s2] + cb(3)
                    } else {
                        cb(3)
                    };
                    assert(b =~= pre + seq![s] + rest);
                    assert((pre + seq![s] + rest)[pre.len() as int] == s);
                }
            }
            return Ok(ival);
        } else {
            let ghost old_prefix = prefix;
            let ghost ck = cb(k as int);
            let ghost s = bnd(node.ranges@[k as int]);
            proof {
                prefix = prefix + ck + seq![s];
                if sorted_bounds(b) {
                    let rest = if k == 0 {
                        cb(1) + seq![s1] + cb(2) + seq![s2] + cb(3)
                    } else if k == 1 {
                        cb(2) + seq![s2] + cb(3)
                    } else {
                        cb(3)
                    };
                    assert(b =~= old_prefix + ck + seq![s] + rest);
                    lemma_greater_case(old_prefix, ck, s, rest, addr, lo, hi, cur_lo);
                }
                if k == 0 {
                    assert(prefix =~= cb(0) + seq![s0]);
                } else if k == 1 {
                    assert(prefix =~= cb(0) + seq![s0] + cb(1) + seq![s1]);
                } else {
                    assert(prefix =~= cb(0) + seq![s0] + cb(1) + seq![s1] + cb(2) + seq![s2]);
                }
            }
            cur_lo = if cur_lo > ival.end { cur_lo } else { ival.end };
        }
        k = k + 1;
    }
    proof {
        assert(b =~= prefix + cb(3));
        if sorted_bounds(b) {
            lemma_child_sorted_split(prefix, cb(3), seq![]);
            assert(prefix + cb(3) + Seq::<(u64, u64)>::empty() =~= prefix + cb(3));
            lemma_gap_lo_concat(prefix, cb(3), addr, lo);
            lemma_gap_hi_concat(prefix, cb(3), addr, hi);
            lemma_holds_concat(prefix, cb(3), addr);
        }
    }
    let ci = child_index(node_idx, 3);
    let in_tree = match ci {
        Some(c) => c < nodes.len(),
        None => false,
    };
    if !in_tree {
        {
            proof {
                assert(cb(3) =~= Seq::<(u64, u64)>::empty());
                assert(gap_lo(cb(3), addr, cur_lo) == cur_lo);
                assert(gap_hi(cb(3), addr, hi) == hi);
                assert(!holds_addr(cb(3), addr));
            }
            return Err((cur_lo, hi));
        }
    }
    let child = ci.unwrap();
    let r = resolve_aux(nodes, addr, child, cur_lo, hi);
    proof {
        assert(child as int == 4 * i + 4);
        assert(cb(3) == sub_bounds(nodes@, child as int));
    }
    r
}

/// Sortedness of a concatenation carries over to its parts
pub proof fn lemma_child_sorted_split(a: Seq<(u64, u64)>, c: Seq<(u64, u64)>, r: Seq<(u64, u64)>)
    requires
        sorted_bounds(a + c + r),
    ensures
        sorted_bounds(c),
        sorted_bounds(a),
        sorted_bounds(r),
        forall|x: int, y: int| 0 <= x < a.len() && 0 <= y < c.len() ==> (#[trigger] a[x]).1 <= (#[trigger] c[y]).0,
        forall|x: int, y: int| 0 <= x < c.len() && 0 <= y < r.len() ==> (#[trigger] c[x]).1 <= (#[trigger] r[y]).0,
        forall|x: int, y: int| 0 <= x < a.len() && 0 <= y < r.len() ==> (#[trigger] a[x]).1 <= (#[trigger] r[y]).0,
{
    let s = a + c + r;
    assert forall|k: int| 0 <= k < c.len() implies (#[trigger] c[k]).0 <= c[k].1 by {
        assert(s[a.len() + k] == c[k]);
    }
    assert forall|k: int, j: int| 0 <= k < j < c.len() implies (#[trigger] c[k]).1 <= (#[trigger] c[j]).0 by {
        assert(s[a.len() + k] == c[k]);
        assert(s[a.len() + j] == c[j]);
    }
    assert forall|k: int| 0 <= k < a.len() implies (#[trigger] a[k]).0 <= a[k].1 by {
        assert(s[k] == a[k]);
    }
    assert forall|k: int, j: int| 0 <= k < j < a.len() implies (#[trigger] a[k]).1 <= (#[trigger] a[j]).0 by {
        assert(s[k] == a[k]);
        assert(s[j] == a[j]);
    }
    assert forall|k: int| 0 <= k < r.len() implies (#[trigger] r[k]).0 <= r[k].1 by {
        assert(s[a.len() + c.len() + k] == r[k]);
    }
    assert forall|k: int, j: int| 0 <= k < j < r.len() implies (#[trigger] r[k]).1 <= (#[trigger] r[j]).0 by {
        assert(s[a.len() + c.len() + k] == r[k]);
        assert(s[a.len() + c.len() + j] == r[j]);
    }
    assert forall|x: int, y: int| 0 <= x < a.len() && 0 <= y < c.len() implies (#[trigger] a[x]).1 <= (#[trigger] c[y]).0 by {
        assert(s[x] == a[x]);
        assert(s[a.len() + y] == c[y]);
    }
    assert forall|x: int, y: int| 0 <= x < c.len() && 0 <= y < r.len() implies (#[trigger] c[x]).1 <= (#[trigger] r[y]).0 by {
        assert(s[a.len() + x] == c[x]);
        assert(s[a.len() + c.len() + y] == r[y]);
    }
    assert forall|x: int, y: int| 0 <= x < a.len() && 0 <= y < r.len() implies (#[trigger] a[x]).1 <= (#[trigger] r[y]).0 by {
        assert(s[x] == a[x]);
        assert(s[a.len() + c.len() + y] == r[y]);
    }
}

/// Descending into child `c` when `addr` falls before the slot that follows it
pub proof fn lemma_less_case(
    prefix: Seq<(u64, u64)>,
    c: Seq<(u64, u64)>,
    rest: Seq<(u64, u64)>,
    addr: u64,
    lo: u64,
    hi: u64,
    cur_lo: u64,
)
    requires
        sorted_bounds(prefix + c + rest),
        rest.len() > 0,
        addr < rest[0].0,
        cur_lo == gap_lo(prefix, addr, lo),
        !holds_addr(prefix, addr),
        gap_hi(prefix, addr, hi) == hi,
    ensures
        holds_addr(prefix + c + rest, addr) <==> holds_addr(c, addr),
        gap_lo(prefix + c + rest, addr, lo) == gap_lo(c, addr, cur_lo),
        gap_hi(prefix + c + rest, addr, hi) == gap_hi(c, addr, if hi < rest[0].0 { hi } else { rest[0].0 }),
{
    lemma_child_sorted_split(prefix, c, rest);
    assert forall|k: int| 0 <= k < rest.len() implies (#[trigger] rest[k]).0 >= rest[0].0 by {
        if k > 0 {
            assert(rest[0].1 <= rest[k].0);
        }
    }
    assert forall|k: int| 0 <= k < rest.len() implies (#[trigger] rest[k]).1 > addr by {
        assert(rest[k].0 >= rest[0].0);
    }
    assert(!holds_addr(rest, addr)) by {
        if holds_addr(rest, addr) {
            let k = choose|k: int| 0 <= k < rest.len() && (#[trigger] rest[k]).0 <= addr && addr < rest[k].1;
            assert(rest[k].0 >= rest[0].0);
        }
    }
    lemma_holds_concat(prefix, c, addr);
    lemma_holds_concat(prefix + c, rest, addr);
    lemma_gap_lo_concat(prefix, c, addr, lo);
    lemma_gap_lo_concat(prefix + c, rest, addr, lo);
    lemma_gap_lo_after(rest, addr, gap_lo(prefix + c, addr, lo));
    lemma_gap_hi_concat(prefix, c, addr, hi);
    lemma_gap_hi_concat(prefix + c, rest, addr, hi);
    lemma_gap_hi_first(rest, addr, gap_hi(prefix + c, addr, hi));
    lemma_gap_hi_min(c, addr, hi, rest[0].0);
}

/// Passing slot `s` (which ends at or before `addr`) after child `c`
pub proof fn lemma_greater_case(
    prefix: Seq<(u64, u64)>,
    c: Seq<(u64, u64)>,
    s: (u64, u64),
    rest: Seq<(u64, u64)>,
    addr: u64,
    lo: u64,
    hi: u64,
    cur_lo: u64,
)
    requires
        sorted_bounds(prefix + c + seq![s] + rest),
        s.1 <= addr,
        cur_lo == gap_lo(prefix, addr, lo),
        !holds_addr(prefix, addr),
        gap_hi(prefix, addr, hi) == hi,
    ensures
        gap_lo(prefix + c + seq![s], addr, lo) == if cur_lo > s.1 { cur_lo } else { s.1 },
        !holds_addr(prefix + c + seq![s], addr),
        gap_hi(prefix + c + seq![s], addr, hi) == hi,
{
    assert(prefix + c + seq![s] + rest =~= prefix + c + (seq![s] + rest));
    lemma_child_sorted_split(prefix, c, seq![s] + rest);
    assert((seq![s] + rest)[0] == s);
    assert forall|k: int| 0 <= k < c.len() implies (#[trigger] c[k]).1 <= s.0 by {
        assert(c[k].1 <= (seq![s] + rest)[0].0);
    }
    assert(s.0 <= s.1) by {
        assert((prefix + c + seq![s] + rest)[(prefix.len() + c.len()) as int] == s);
    }
    lemma_gap_lo_concat(prefix, c, addr, lo);
    lemma_gap_lo_bounded(c, addr, cur_lo, s.1);
    lemma_gap_lo_concat(prefix + c, seq![s], addr, lo);
    assert(seq![s].drop_last() =~= Seq::<(u64, u64)>::empty());
    assert(seq![s].last() == s);
    assert(gap_lo(Seq::<(u64, u64)>::empty(), addr, gap_lo(prefix + c, addr, lo)) == gap_lo(prefix + c, addr, lo));
    assert(gap_lo(seq![s], addr, gap_lo(prefix + c, addr, lo)) == if s.1 > gap_lo(prefix + c, addr, lo) { s.1 } else { gap_lo(prefix + c, addr, lo) });
    lemma_holds_concat(prefix, c, addr);
    lemma_holds_concat(prefix + c, seq![s], addr);
    assert(!holds_addr(c, addr)) by {
        if holds_addr(c, addr) {
            let k = choose|k: int| 0 <= k < c.len() && (#[trigger] c[k]).0 <= addr && addr < c[k].1;
        }
    }
    assert(!holds_addr(seq![s], addr)) by {
        if holds_addr(seq![s], addr) {
            let k = choose|k: int| 0 <= k < 1 && (#[trigger] seq![s][k]).0 <= addr && addr < seq![s][k].1;
        }
    }
    lemma_gap_hi_concat(prefix, c, addr, hi);
    assert forall|k: int| 0 <= k < c.len() implies (#[trigger] c[k]).0 <= addr by {
        assert(c[k].0 <= c[k].1);
    }
    lemma_gap_hi_before(c, addr, hi);
    lemma_gap_hi_concat(prefix + c, seq![s], addr, hi);
    lemma_gap_hi_before(seq![s], addr, hi);
}


/// The slots of the nodes, node after node
pub open spec fn flat<Data: IntervalData>(nodes: Seq<ITreeNode<Data>>) -> Seq<Interval<Data>>
    decreases nodes.len(),
{
    if nodes.len() == 0 {
        seq![]
    } else {
        flat(nodes.drop_last()) + nodes.last().ranges@
    }
}

/// Bounds of the intervals of `s` that map something, in order
pub open spec fn present_bounds<Data: IntervalData>(s: Seq<Interval<Data>>) -> Seq<(u64, u64)>
    decreases s.len(),
{
    if s.len() == 0 {
        seq![]
    } else {
        present_bounds(s.drop_last()) + if !s.last().spec_is_none() {
            seq![bnd(s.last())]
        } else {
            Seq::<(u64, u64)>::empty()
        }
    }
}

/// Where a bound goes in a list sorted by start: after all bounds that start at or before it
pub open spec fn insert_pos(s: Seq<(u64, u64)>, x: (u64, u64)) -> int
    decreases s.len(),
{
    if s.len() == 0 {
        0
    } else if s.last().0 <= x.0 {
        s.len() as int
    } else {
        insert_pos(s.drop_last(), x)
    }
}

/// Insert a bound into a list sorted by start, after the bounds with the same start
pub open spec fn insert_sorted(s: Seq<(u64, u64)>, x: (u64, u64)) -> Seq<(u64, u64)> {
    s.take(insert_pos(s, x)) + seq![x] + s.skip(insert_pos(s, x))
}

/// The stable sort of bounds by start
pub open spec fn sort_by_start(s: Seq<(u64, u64)>) -> Seq<(u64, u64)>
    decreases s.len(),
{
    if s.len() == 0 {
        seq![]
    } else {
        insert_sorted(sort_by_start(s.drop_last()), s.last())
    }
}

/// Total length of the bounds
pub open spec fn total_len(s: Seq<(u64, u64)>) -> int
    decreases s.len(),
{
    if s.len() == 0 {
        0
    } else {
        total_len(s.drop_last()) + (s.last().1 - s.last().0)
    }
}

/// The first bound, at or after `j`, that leaves `[vr.0; vr.1)`
pub open spec fn first_out_of_range(s: Seq<(u64, u64)>, vr: (u64, u64), j: int) -> Option<int>
    decreases s.len() - j,
{
    if j < 0 || j >= s.len() {
        None
    } else if s[j].0 < vr.0 || s[j].1 > vr.1 {
        Some(j)
    } else {
        first_out_of_range(s, vr, j + 1)
    }
}

/// The first position, at or after `j`, whose bound ends after the next one starts
pub open spec fn first_overlap(s: Seq<(u64, u64)>, j: int) -> Option<int>
    decreases s.len() - j,
{
    if j < 0 || j + 1 >= s.len() {
        None
    } else if s[j].1 > s[j + 1].0 {
        Some(j)
    } else {
        first_overlap(s, j + 1)
    }
}

/// Number of leading slots that map something
pub open spec fn present_prefix_len<Data: IntervalData>(s: Seq<Interval<Data>>) -> nat
    decreases s.len(),
{
    if s.len() == 0 {
        0
    } else if s[0].spec_is_none() {
        0
    } else {
        1 + present_prefix_len(s.drop_first())
    }
}

/// Logical intervals contributed by position `k` of an in-order list (the gap after it counts)
pub open spec fn share(s: Seq<(u64, u64)>, k: int) -> nat {
    if k + 1 < s.len() {
        if s[k].1 == s[k + 1].0 {
            1
        } else {
            2
        }
    } else {
        1
    }
}

/// Sum of the contributions of the first `m` positions
pub open spec fn share_upto(s: Seq<(u64, u64)>, m: int) -> nat
    decreases m,
{
    if m <= 0 {
        0
    } else {
        share_upto(s, m - 1) + share(s, m - 1)
    }
}

/// Number of logical intervals (explicit intervals and the gaps between them) of an in-order
/// list spanning `vr`
pub open spec fn logical_count(s: Seq<(u64, u64)>, vr: (u64, u64)) -> nat {
    if s.len() == 0 {
        if vr.0 == vr.1 {
            0
        } else {
            1
        }
    } else {
        share_upto(s, s.len() as int) + (if s[0].0 != vr.0 { 1nat } else { 0nat }) + (if s.last().1
            != vr.1 {
            1nat
        } else {
            0nat
        })
    }
}

/// The checks a tree passes before it is accepted
pub open spec fn spec_check<Data: IntervalData>(nodes: Seq<ITreeNode<Data>>, vr: (u64, u64)) -> Result<(), ITreeError> {
    let sorted = sort_by_start(present_bounds(flat(nodes)));
    let slots = sub_slots(nodes, 0);
    let io = slots.take(present_prefix_len(slots) as int).map_values(|iv: Interval<Data>| bnd(iv));
    let expected = (logical_count(io, vr) + 2) / 3;
    match first_out_of_range(sorted, vr, 0) {
        Some(k) => Err(ITreeError::IntervalOutOfRange { interval: sorted[k] }),
        None => match first_overlap(sorted, 0) {
            Some(k) => Err(ITreeError::IntersectingInterval { interval_1: sorted[k], interval_2: sorted[k + 1] }),
            None => if expected < nodes.len() {
                Err(ITreeError::NotCompact { expected_n_nodes: expected as usize, n_nodes: nodes.len() as usize })
            } else {
                match first_overlap(io, 0) {
                    Some(k) => Err(ITreeError::NotInOrder { interval_1: io[k], interval_2: io[k + 1] }),
                    None => Ok(()),
                }
            },
        },
    }
}


/// Past a position with no out-of-range bound, every bound lies within the range
proof fn lemma_no_out_of_range(s: Seq<(u64, u64)>, vr: (u64, u64), j: int)
    requires
        0 <= j,
        first_out_of_range(s, vr, j) is None,
    ensures
        forall|k: int| j <= k < s.len() ==> vr.0 <= (#[trigger] s[k]).0 && s[k].1 <= vr.1,
    decreases s.len() - j,
{
    if j < s.len() {
        lemma_no_out_of_range(s, vr, j + 1);
    }
}

/// Past a position with no overlap, every bound ends at or before the next one starts
proof fn lemma_no_overlap(s: Seq<(u64, u64)>, j: int)
    requires
        0 <= j,
        first_overlap(s, j) is None,
    ensures
        forall|k: int| j <= k && k + 1 < s.len() ==> (#[trigger] s[k]).1 <= s[k + 1].0,
    decreases s.len() - j,
{
    if j + 1 < s.len() {
        lemma_no_overlap(s, j + 1);
    }
}

/// Sorting keeps every bound
proof fn lemma_sort_by_start_keeps(s: Seq<(u64, u64)>, x: (u64, u64))
    requires
        s.contains(x),
    ensures
        sort_by_start(s).contains(x),
    decreases s.len(),
{
    let t = sort_by_start(s.drop_last());
    lemma_insert_pos_in(t, s.last());
    let r = insert_sorted(t, s.last());
    let q = insert_pos(t, s.last());
    if s.last() == x {
        assert(r[q] == x);
    } else {
        let i = choose|i: int| 0 <= i < s.len() && s[i] == x;
        assert(s.drop_last()[i] == x);
        lemma_sort_by_start_keeps(s.drop_last(), x);
        let j = choose|j: int| 0 <= j < t.len() && t[j] == x;
        if j < q {
            assert(r[j] == x);
        } else {
            assert(r[j + 1] == x);
        }
    }
}

/// The insertion position lies within the list
proof fn lemma_insert_pos_in(s: Seq<(u64, u64)>, x: (u64, u64))
    ensures
        0 <= insert_pos(s, x) <= s.len(),
    decreases s.len(),
{
    if s.len() > 0 {
        lemma_insert_pos_in(s.drop_last(), x);
    }
}

/// The bounds of the present intervals include that of each present interval
proof fn lemma_present_bounds_has<Data: IntervalData>(s: Seq<Interval<Data>>, k: int)
    requires
        0 <= k < s.len(),
        !s[k].spec_is_none(),
    ensures
        present_bounds(s).contains(bnd(s[k])),
    decreases s.len(),
{
    if k < s.len() - 1 {
        lemma_present_bounds_has(s.drop_last(), k);
        let i = choose|i: int| 0 <= i < present_bounds(s.drop_last()).len() && present_bounds(s.drop_last())[i] == bnd(s[k]);
        assert(present_bounds(s)[i] == bnd(s[k]));
    } else {
        let pb = present_bounds(s.drop_last());
        assert(present_bounds(s)[pb.len() as int] == bnd(s[k]));
    }
}

/// What a tree that the check accepts keeps: every interval that maps something lies within the
/// range; sorted by start, each ends at or before the next one starts; and the tree has no more
/// nodes than its logical intervals (the gaps counted) take
pub proof fn law_checked_tree<Data: IntervalData>(nodes: Seq<ITreeNode<Data>>, vr: (u64, u64))
    requires
        spec_check(nodes, vr) is Ok,
    ensures
        forall|k: int| 0 <= k < flat(nodes).len() && !(#[trigger] flat(nodes)[k]).spec_is_none() ==> vr.0 <= flat(nodes)[k].start
            && flat(nodes)[k].end <= vr.1,
        forall|k: int| 0 <= k && k + 1 < sort_by_start(present_bounds(flat(nodes))).len() ==> (#[trigger] sort_by_start(
            present_bounds(flat(nodes)),
        )[k]).1 <= sort_by_start(present_bounds(flat(nodes)))[k + 1].0,
        ({
            let slots = sub_slots(nodes, 0);
            let io = slots.take(present_prefix_len(slots) as int).map_values(|iv: Interval<Data>| bnd(iv));
            nodes.len() <= (logical_count(io, vr) + 2) / 3
        }),
{
    let sorted = sort_by_start(present_bounds(flat(nodes)));
    lemma_no_out_of_range(sorted, vr, 0);
    lemma_no_overlap(sorted, 0);
    assert forall|k: int| 0 <= k < flat(nodes).len() && !(#[trigger] flat(nodes)[k]).spec_is_none() implies vr.0 <= flat(
        nodes,
    )[k].start && flat(nodes)[k].end <= vr.1 by {
        lemma_present_bounds_has(flat(nodes), k);
        lemma_sort_by_start_keeps(present_bounds(flat(nodes)), bnd(flat(nodes)[k]));
        let j = choose|j: int| 0 <= j < sorted.len() && sorted[j] == bnd(flat(nodes)[k]);
        assert(vr.0 <= sorted[j].0 && sorted[j].1 <= vr.1);
    }
}

/// The bounds of a subtree are those of its slots
proof fn lemma_sub_bounds_slots<Data: IntervalData>(nodes: Seq<ITreeNode<Data>>, i: int)
    ensures
        sub_bounds(nodes, i) == sub_slots(nodes, i).map_values(|iv: Interval<Data>| bnd(iv)),
    decreases nodes.len() - i,
{
    if 0 <= i < nodes.len() {
        if 4 * i + 1 < nodes.len() { lemma_sub_bounds_slots(nodes, 4 * i + 1); }
        if 4 * i + 2 < nodes.len() { lemma_sub_bounds_slots(nodes, 4 * i + 2); }
        if 4 * i + 3 < nodes.len() { lemma_sub_bounds_slots(nodes, 4 * i + 3); }
        if 4 * i + 4 < nodes.len() { lemma_sub_bounds_slots(nodes, 4 * i + 4); }
        let f = |iv: Interval<Data>| bnd(iv);
        let c = |j: int| if j < nodes.len() { sub_slots(nodes, j) } else { Seq::<Interval<Data>>::empty() };
        let sl = sub_slots(nodes, i);
        assert(sl == c(4 * i + 1) + seq![nodes[i].ranges@[0]] + c(4 * i + 2) + seq![nodes[i].ranges@[1]] + c(4 * i + 3) + seq![
            nodes[i].ranges@[2],
        ] + c(4 * i + 4));
        lemma_map_concat(c(4 * i + 1) + seq![nodes[i].ranges@[0]] + c(4 * i + 2) + seq![nodes[i].ranges@[1]] + c(4 * i + 3) + seq![nodes[i].ranges@[2]], c(4 * i + 4), f);
        lemma_map_concat(c(4 * i + 1) + seq![nodes[i].ranges@[0]] + c(4 * i + 2) + seq![nodes[i].ranges@[1]] + c(4 * i + 3), seq![nodes[i].ranges@[2]], f);
        lemma_map_concat(c(4 * i + 1) + seq![nodes[i].ranges@[0]] + c(4 * i + 2) + seq![nodes[i].ranges@[1]], c(4 * i + 3), f);
        lemma_map_concat(c(4 * i + 1) + seq![nodes[i].ranges@[0]] + c(4 * i + 2), seq![nodes[i].ranges@[1]], f);
        lemma_map_concat(c(4 * i + 1) + seq![nodes[i].ranges@[0]], c(4 * i + 2), f);
        lemma_map_concat(c(4 * i + 1), seq![nodes[i].ranges@[0]], f);
        assert(seq![nodes[i].ranges@[0]].map_values(f) =~= seq![bnd(nodes[i].ranges@[0])]);
        assert(seq![nodes[i].ranges@[1]].map_values(f) =~= seq![bnd(nodes[i].ranges@[1])]);
        assert(seq![nodes[i].ranges@[2]].map_values(f) =~= seq![bnd(nodes[i].ranges@[2])]);
        assert(Seq::<Interval<Data>>::empty().map_values(f) =~= Seq::<(u64, u64)>::empty());
    } else {
        assert(sub_slots(nodes, i).map_values(|iv: Interval<Data>| bnd(iv)) =~= Seq::<(u64, u64)>::empty());
    }
}

/// Bounds each in order, each ending at or before the next starts, are ordered pairwise
proof fn lemma_chain_sorted(b: Seq<(u64, u64)>, k: int, j: int)
    requires
        0 <= k < j < b.len(),
        forall|i: int| 0 <= i < b.len() ==> (#[trigger] b[i]).0 <= b[i].1,
        forall|i: int| 0 <= i && i + 1 < b.len() ==> (#[trigger] b[i]).1 <= b[i + 1].0,
    ensures
        b[k].1 <= b[j].0,
    decreases j - k,
{
    if j > k + 1 {
        lemma_chain_sorted(b, k, j - 1);
        assert(b[j - 1].0 <= b[j - 1].1);
        assert(b[j - 1].1 <= b[j].0);
    } else {
        assert(b[k].1 <= b[k + 1].0);
    }
}

/// A tree laid out from intervals that each map something, with ordered bounds, and that the
/// check accepts (as [`ITree::build`] makes it) is a search tree
pub proof fn law_built_search_tree<Data: IntervalData>(intervals: Seq<Interval<Data>>, t: ITree<Data>, vr: (u64, u64))
    requires
        laid_out(t.nodes@, sort_ivals(intervals)),
        spec_check(t.nodes@, vr) is Ok,
        t.nodes@.len() <= usize::MAX,
        forall|k: int| 0 <= k < intervals.len() ==> !(#[trigger] intervals[k]).spec_is_none() && intervals[k].start <= intervals[k].end,
    ensures
        t.is_search_tree(),
{
    let nodes = t.nodes@;
    let srt = sort_ivals(intervals);
    lemma_sort_ivals_elems(intervals);
    assert forall|k: int| 0 <= k < srt.len() implies !(#[trigger] srt[k]).spec_is_none() && srt[k].start <= srt[k].end by {
        let j = choose|j: int| 0 <= j < intervals.len() && srt[k] == intervals[j];
    }
    lemma_laid_out_slots(nodes, srt);
    lemma_laid_out_in_order(nodes, srt);
    lemma_sub_bounds_slots(nodes, 0);
    let sl = sub_slots(nodes, 0);
    let m = srt.len() as int;
    let b = sub_bounds(nodes, 0);
    let io = sl.take(present_prefix_len(sl) as int).map_values(|iv: Interval<Data>| bnd(iv));
    assert(sl.take(present_prefix_len(sl) as int) == srt);
    lemma_no_overlap(io, 0);
    assert(b.len() == sl.len());
    assert forall|i: int| 0 <= i < b.len() implies (#[trigger] b[i]).0 <= b[i].1 by {
        assert(b[i] == bnd(sl[i]));
        if i >= m {
            assert(slot_empty(sl[i]));
        }
    }
    assert forall|i: int, j: int| 0 <= i < j < b.len() implies (#[trigger] b[i]).1 <= (#[trigger] b[j]).0 by {
        assert(b[i] == bnd(sl[i]));
        assert(b[j] == bnd(sl[j]));
        if j >= m {
            assert(slot_empty(sl[j]));
        } else {
            assert forall|x: int| 0 <= x < io.len() implies (#[trigger] io[x]).0 <= io[x].1 by {
                assert(io[x] == bnd(srt[x]));
            }
            lemma_chain_sorted(io, i, j);
            assert(io[i] == bnd(srt[i]) && io[j] == bnd(srt[j]));
        }
    }
}

/// The total length of bounds put one after the other
proof fn lemma_total_len_concat(a: Seq<(u64, u64)>, b: Seq<(u64, u64)>)
    ensures
        total_len(a + b) == total_len(a) + total_len(b),
    decreases b.len(),
{
    if b.len() == 0 {
        assert(a + b =~= a);
    } else {
        lemma_total_len_concat(a, b.drop_last());
        assert((a + b).drop_last() =~= a + b.drop_last());
    }
}

/// The present bounds of intervals put one after the other
proof fn lemma_present_bounds_concat<Data: IntervalData>(a: Seq<Interval<Data>>, b: Seq<Interval<Data>>)
    ensures
        present_bounds(a + b) == present_bounds(a) + present_bounds(b),
    decreases b.len(),
{
    if b.len() == 0 {
        assert(a + b =~= a);
        assert(present_bounds(a) + present_bounds(b) =~= present_bounds(a));
    } else {
        lemma_present_bounds_concat(a, b.drop_last());
        assert((a + b).drop_last() =~= a + b.drop_last());
        assert((a + b).last() == b.last());
        let x = if !b.last().spec_is_none() { seq![bnd(b.last())] } else { Seq::<(u64, u64)>::empty() };
        assert(present_bounds(a) + present_bounds(b.drop_last()) + x =~= present_bounds(a) + (present_bounds(b.drop_last()) + x));
    }
}

/// The zero and data bytes of a node are the lengths of its present intervals
proof fn lemma_node_sizes<Data: IntervalData>(s: Seq<Interval<Data>>)
    requires
        all_bounds_ok(s),
    ensures
        zero_size(s) + data_size(s) == total_len(present_bounds(s)),
    decreases s.len(),
{
    if s.len() > 0 {
        assert(all_bounds_ok(s.drop_last())) by {
            assert forall|i: int| 0 <= i < s.drop_last().len() && !(#[trigger] s.drop_last()[i]).spec_is_none() implies s.drop_last()[i].bounds_ok() by {
                assert(s.drop_last()[i] == s[i]);
            }
        }
        lemma_node_sizes(s.drop_last());
        assert(!s[s.len() - 1].spec_is_none() ==> s[s.len() - 1].bounds_ok());
        let x = if !s.last().spec_is_none() { seq![bnd(s.last())] } else { Seq::<(u64, u64)>::empty() };
        lemma_total_len_concat(present_bounds(s.drop_last()), x);
        if !s.last().spec_is_none() {
            assert(total_len(x) == s.last().end - s.last().start) by {
                assert(x.drop_last() =~= Seq::<(u64, u64)>::empty());
                assert(total_len(x.drop_last()) == 0);
                assert(x.last() == bnd(s.last()));
            }
        } else {
            assert(total_len(x) == 0);
        }
    }
}

/// The zero and data bytes of nodes are the lengths of their present intervals
proof fn lemma_nodes_sizes<Data: IntervalData>(nodes: Seq<ITreeNode<Data>>)
    requires
        all_bounds_ok(flat(nodes)),
    ensures
        sum_nodes(nodes, |s: Seq<Interval<Data>>| zero_size(s)) + sum_nodes(nodes, |s: Seq<Interval<Data>>| data_size(s))
            == total_len(present_bounds(flat(nodes))),
    decreases nodes.len(),
{
    if nodes.len() > 0 {
        let f = flat(nodes.drop_last());
        let l = nodes.last().ranges@;
        assert(flat(nodes) == f + l);
        assert(all_bounds_ok(f)) by {
            assert forall|i: int| 0 <= i < f.len() && !(#[trigger] f[i]).spec_is_none() implies f[i].bounds_ok() by {
                assert((f + l)[i] == f[i]);
            }
        }
        assert(all_bounds_ok(l)) by {
            assert forall|i: int| 0 <= i < l.len() && !(#[trigger] l[i]).spec_is_none() implies l[i].bounds_ok() by {
                assert((f + l)[f.len() + i] == l[i]);
            }
        }
        lemma_nodes_sizes(nodes.drop_last());
        lemma_node_sizes(l);
        lemma_present_bounds_concat(f, l);
        lemma_total_len_concat(present_bounds(f), present_bounds(l));
    }
}

/// Sorting keeps the total length
proof fn lemma_sort_total_len(s: Seq<(u64, u64)>)
    ensures
        total_len(sort_by_start(s)) == total_len(s),
    decreases s.len(),
{
    if s.len() > 0 {
        let t = sort_by_start(s.drop_last());
        lemma_sort_total_len(s.drop_last());
        lemma_insert_pos_in(t, s.last());
        let q = insert_pos(t, s.last());
        lemma_total_len_concat(t.take(q), seq![s.last()]);
        lemma_total_len_concat(t.take(q) + seq![s.last()], t.skip(q));
        lemma_total_len_concat(t.take(q), t.skip(q));
        assert(t.take(q) + t.skip(q) =~= t);
        lemma_total_len_concat(s.drop_last(), seq![s.last()]);
        assert(s.drop_last() + seq![s.last()] =~= s);
        assert(seq![s.last()].drop_last() =~= Seq::<(u64, u64)>::empty());
    }
}

/// Bounds in order, each within `[lo; hi]` and ending at or before the next one starts, span no
/// more than the range
proof fn lemma_sorted_total_len(s: Seq<(u64, u64)>, lo: u64, hi: u64)
    requires
        s.len() > 0,
        forall|k: int| 0 <= k < s.len() ==> lo <= (#[trigger] s[k]).0 && s[k].0 <= s[k].1 && s[k].1 <= hi,
        forall|k: int| 0 <= k && k + 1 < s.len() ==> (#[trigger] s[k]).1 <= s[k + 1].0,
    ensures
        total_len(s) <= s.last().1 - s[0].0,
    decreases s.len(),
{
    let t = s.drop_last();
    assert(total_len(s) == total_len(t) + (s.last().1 - s.last().0));
    if s.len() > 1 {
        assert forall|k: int| 0 <= k < t.len() implies lo <= (#[trigger] t[k]).0 && t[k].0 <= t[k].1 && t[k].1 <= hi by {
            assert(t[k] == s[k]);
        }
        assert forall|k: int| 0 <= k && k + 1 < t.len() implies (#[trigger] t[k]).1 <= t[k + 1].0 by {
            assert(t[k] == s[k] && t[k + 1] == s[k + 1]);
        }
        lemma_sorted_total_len(t, lo, hi);
        assert(t.last() == s[s.len() - 2]);
        assert(t[0] == s[0]);
        assert(s[s.len() - 2].1 <= s[s.len() - 1].0);
        assert(s.last() == s[s.len() - 1]);
    } else {
        assert(t =~= Seq::<(u64, u64)>::empty());
        assert(total_len(t) == 0);
        assert(s.last() == s[0]);
    }
}

/// The zero and data bytes of nodes that the check accepts, with ordered bounds, are no more than
/// the range spans
proof fn lemma_sizes_within<Data: IntervalData>(nodes: Seq<ITreeNode<Data>>, vr: (u64, u64))
    requires
        spec_check(nodes, vr) is Ok,
        all_bounds_ok(flat(nodes)),
        vr.0 <= vr.1,
    ensures
        sum_nodes(nodes, |s: Seq<Interval<Data>>| zero_size(s)) + sum_nodes(nodes, |s: Seq<Interval<Data>>| data_size(s))
            <= vr.1 - vr.0,
{
    let pb = present_bounds(flat(nodes));
    let sorted = sort_by_start(pb);
    lemma_nodes_sizes(nodes);
    lemma_sort_total_len(pb);
    lemma_no_out_of_range(sorted, vr, 0);
    lemma_no_overlap(sorted, 0);
    if sorted.len() > 0 {
        assert forall|k: int| 0 <= k < sorted.len() implies vr.0 <= (#[trigger] sorted[k]).0 && sorted[k].0 <= sorted[k].1
            && sorted[k].1 <= vr.1 by {
            lemma_sorted_member(pb, sorted[k]);
            let j = choose|j: int| 0 <= j < pb.len() && pb[j] == sorted[k];
            lemma_present_bounds_ordered(flat(nodes), j);
        }
        lemma_sorted_total_len(sorted, vr.0, vr.1);
        assert(sorted.last() == sorted[sorted.len() - 1]);
    } else {
        assert(total_len(sorted) == 0);
    }
}

/// What a tree that the check accepts, with its mapped intervals' bounds in order, keeps: its
/// in-order intervals each end at or before the next one starts; every interval that maps
/// something lies within its range; its zero and data bytes together are no more than the range
/// spans; and it has no more nodes than its logical intervals (the gaps counted) take
pub proof fn law_new_tree<Data: IntervalData>(t: ITree<Data>)
    requires
        spec_check(t.nodes@, t.virtual_range) is Ok,
        t.wf(),
    ensures
        forall|k: int| 0 <= k && k + 1 < t.in_order().len() ==> (#[trigger] t.in_order()[k]).end <= t.in_order()[k + 1].start,
        forall|k: int| 0 <= k < flat(t.nodes@).len() && !(#[trigger] flat(t.nodes@)[k]).spec_is_none() ==> t.virtual_range.0
            <= flat(t.nodes@)[k].start && flat(t.nodes@)[k].end <= t.virtual_range.1,
        sum_nodes(t.nodes@, |s: Seq<Interval<Data>>| zero_size(s)) + sum_nodes(t.nodes@, |s: Seq<Interval<Data>>| data_size(s))
            <= t.virtual_range.1 - t.virtual_range.0,
        t.nodes@.len() <= (logical_count(t.in_order().map_values(|iv: Interval<Data>| bnd(iv)), t.virtual_range) + 2) / 3,
{
    law_checked_tree(t.nodes@, t.virtual_range);
    lemma_sizes_within(t.nodes@, t.virtual_range);
    let io = t.in_order().map_values(|iv: Interval<Data>| bnd(iv));
    lemma_no_overlap(io, 0);
    assert forall|k: int| 0 <= k && k + 1 < t.in_order().len() implies (#[trigger] t.in_order()[k]).end <= t.in_order()[k + 1].start by {
        assert(io[k] == bnd(t.in_order()[k]));
        assert(io[k + 1] == bnd(t.in_order()[k + 1]));
    }
}

/// What sorting holds, it was given
pub proof fn lemma_sorted_member(s: Seq<(u64, u64)>, x: (u64, u64))
    requires
        sort_by_start(s).contains(x),
    ensures
        s.contains(x),
    decreases s.len(),
{
    if s.len() == 0 {
    } else {
        let t = sort_by_start(s.drop_last());
        lemma_insert_pos_in(t, s.last());
        let q = insert_pos(t, s.last());
        let r = insert_sorted(t, s.last());
        let i = choose|i: int| 0 <= i < r.len() && r[i] == x;
        if i == q {
            assert(s[s.len() - 1] == x);
        } else {
            if i < q {
                assert(t[i] == x);
            } else {
                assert(t[i - 1] == x);
            }
            lemma_sorted_member(s.drop_last(), x);
            let j = choose|j: int| 0 <= j < s.drop_last().len() && s.drop_last()[j] == x;
            assert(s[j] == x);
        }
    }
}

/// Each present bound is the bound of a present interval, so it is ordered when the intervals are
proof fn lemma_present_bounds_ordered<Data: IntervalData>(s: Seq<Interval<Data>>, j: int)
    requires
        all_bounds_ok(s),
        0 <= j < present_bounds(s).len(),
    ensures
        present_bounds(s)[j].0 <= present_bounds(s)[j].1,
    decreases s.len(),
{
    let t = s.drop_last();
    assert(all_bounds_ok(t)) by {
        assert forall|i: int| 0 <= i < t.len() && !(#[trigger] t[i]).spec_is_none() implies t[i].bounds_ok() by {
            assert(t[i] == s[i]);
        }
    }
    if j < present_bounds(t).len() {
        lemma_present_bounds_ordered(t, j);
    } else {
        assert(!s[s.len() - 1].spec_is_none() ==> s[s.len() - 1].bounds_ok());
    }
}

/// Two node lists whose nodes hold the same intervals
pub open spec fn same_ranges<Data: IntervalData>(a: Seq<ITreeNode<Data>>, b: Seq<ITreeNode<Data>>) -> bool {
    a.len() == b.len() && forall|i: int| 0 <= i < a.len() ==> (#[trigger] a[i]).ranges@ == b[i].ranges@
}

/// Node lists holding the same intervals flatten alike
proof fn lemma_flat_same_ranges<Data: IntervalData>(a: Seq<ITreeNode<Data>>, b: Seq<ITreeNode<Data>>)
    requires
        same_ranges(a, b),
    ensures
        flat(a) == flat(b),
    decreases a.len(),
{
    if a.len() > 0 {
        assert(same_ranges(a.drop_last(), b.drop_last())) by {
            assert forall|i: int| 0 <= i < a.drop_last().len() implies (#[trigger] a.drop_last()[i]).ranges@ == b.drop_last()[i].ranges@ by {
                assert(a[i].ranges@ == b[i].ranges@);
            }
        }
        lemma_flat_same_ranges(a.drop_last(), b.drop_last());
        assert(a.last().ranges@ == b.last().ranges@) by {
            assert(a[a.len() - 1].ranges@ == b[a.len() - 1].ranges@);
        }
    }
}

/// Node lists holding the same intervals have the same subtree slots
proof fn lemma_sub_slots_same_ranges<Data: IntervalData>(a: Seq<ITreeNode<Data>>, b: Seq<ITreeNode<Data>>, i: int)
    requires
        same_ranges(a, b),
    ensures
        sub_slots(a, i) == sub_slots(b, i),
    decreases a.len() - i,
{
    if 0 <= i < a.len() {
        assert(a[i].ranges@ == b[i].ranges@);
        if 4 * i + 1 < a.len() { lemma_sub_slots_same_ranges(a, b, 4 * i + 1); }
        if 4 * i + 2 < a.len() { lemma_sub_slots_same_ranges(a, b, 4 * i + 2); }
        if 4 * i + 3 < a.len() { lemma_sub_slots_same_ranges(a, b, 4 * i + 3); }
        if 4 * i + 4 < a.len() { lemma_sub_slots_same_ranges(a, b, 4 * i + 4); }
    }
}

/// The check of a tree depends only on the intervals its nodes hold
pub proof fn lemma_check_same_ranges<Data: IntervalData>(a: Seq<ITreeNode<Data>>, b: Seq<ITreeNode<Data>>, vr: (u64, u64))
    requires
        same_ranges(a, b),
    ensures
        spec_check(a, vr) == spec_check(b, vr),
{
    lemma_flat_same_ranges(a, b);
    lemma_sub_slots_same_ranges(a, b, 0);
}

/// Positions of the subtree rooted at node `i` refer to existing slots
pub proof fn lemma_pos_valid(n: int, i: int)
    ensures
        forall|k: int| 0 <= k < sub_pos(n, i).len() ==> 0 <= (#[trigger] sub_pos(n, i)[k]).0 < n && sub_pos(n, i)[k].1 < 3,
    decreases n - i,
{
    if 0 <= i < n {
        let c = |j: int| if 4 * i + 1 + j < n { sub_pos(n, 4 * i + 1 + j) } else { Seq::<(usize, usize)>::empty() };
        if 4 * i + 1 < n { lemma_pos_valid(n, 4 * i + 1); }
        if 4 * i + 2 < n { lemma_pos_valid(n, 4 * i + 2); }
        if 4 * i + 3 < n { lemma_pos_valid(n, 4 * i + 3); }
        if 4 * i + 4 < n { lemma_pos_valid(n, 4 * i + 4); }
        let whole = sub_pos(n, i);
        assert(whole == c(0) + seq![(i as usize, 0usize)] + c(1) + seq![(i as usize, 1usize)] + c(2) + seq![(i as usize, 2usize)] + c(3));
        assert forall|k: int| 0 <= k < whole.len() implies 0 <= (#[trigger] whole[k]).0 < n && whole[k].1 < 3 by {
            let l0 = c(0).len() as int;
            let l1 = c(1).len() as int;
            let l2 = c(2).len() as int;
            if k < l0 {
                assert(whole[k] == c(0)[k]);
            } else if k == l0 {
            } else if k < l0 + 1 + l1 {
                assert(whole[k] == c(1)[k - l0 - 1]);
            } else if k == l0 + 1 + l1 {
            } else if k < l0 + 2 + l1 + l2 {
                assert(whole[k] == c(2)[k - l0 - 2 - l1]);
            } else if k == l0 + 2 + l1 + l2 {
            } else {
                assert(whole[k] == c(3)[k - l0 - 3 - l1 - l2]);
            }
        }
    }
}

/// The slot at a position
pub open spec fn slot_at<Data: IntervalData>(nodes: Seq<ITreeNode<Data>>, p: (usize, usize)) -> Interval<Data> {
    nodes[p.0 as int].ranges@[p.1 as int]
}

/// Mapping distributes over concatenation
pub proof fn lemma_map_concat<A, B>(a: Seq<A>, b: Seq<A>, f: spec_fn(A) -> B)
    ensures
        (a + b).map_values(f) == a.map_values(f) + b.map_values(f),
{
    assert((a + b).map_values(f) =~= a.map_values(f) + b.map_values(f));
}

/// The slots of a subtree are the slots at its positions
#[verifier::rlimit(40)]
pub proof fn lemma_slots_pos<Data: IntervalData>(nodes: Seq<ITreeNode<Data>>, i: int)
    requires
        nodes.len() <= usize::MAX,
    ensures
        sub_slots(nodes, i) == sub_pos(nodes.len() as int, i).map_values(|p: (usize, usize)| slot_at(nodes, p)),
    decreases nodes.len() - i,
{
    let n = nodes.len() as int;
    let f = |p: (usize, usize)| slot_at(nodes, p);
    if 0 <= i < n {
        let iu = i as usize;
        let p0 = if 4 * i + 1 < n { sub_pos(n, 4 * i + 1) } else { Seq::<(usize, usize)>::empty() };
        let p1 = if 4 * i + 2 < n { sub_pos(n, 4 * i + 2) } else { Seq::<(usize, usize)>::empty() };
        let p2 = if 4 * i + 3 < n { sub_pos(n, 4 * i + 3) } else { Seq::<(usize, usize)>::empty() };
        let p3 = if 4 * i + 4 < n { sub_pos(n, 4 * i + 4) } else { Seq::<(usize, usize)>::empty() };
        let s0 = if 4 * i + 1 < n { sub_slots(nodes, 4 * i + 1) } else { Seq::<Interval<Data>>::empty() };
        let s1 = if 4 * i + 2 < n { sub_slots(nodes, 4 * i + 2) } else { Seq::<Interval<Data>>::empty() };
        let s2 = if 4 * i + 3 < n { sub_slots(nodes, 4 * i + 3) } else { Seq::<Interval<Data>>::empty() };
        let s3 = if 4 * i + 4 < n { sub_slots(nodes, 4 * i + 4) } else { Seq::<Interval<Data>>::empty() };
        if 4 * i + 1 < n { lemma_slots_pos(nodes, 4 * i + 1); } else { assert(p0.map_values(f) =~= s0); }
        if 4 * i + 2 < n { lemma_slots_pos(nodes, 4 * i + 2); } else { assert(p1.map_values(f) =~= s1); }
        if 4 * i + 3 < n { lemma_slots_pos(nodes, 4 * i + 3); } else { assert(p2.map_values(f) =~= s2); }
        if 4 * i + 4 < n { lemma_slots_pos(nodes, 4 * i + 4); } else { assert(p3.map_values(f) =~= s3); }
        let q0 = seq![(iu, 0usize)];
        let q1 = seq![(iu, 1usize)];
        let q2 = seq![(iu, 2usize)];
        assert(q0.map_values(f) =~= seq![nodes[i].ranges@[0]]);
        assert(q1.map_values(f) =~= seq![nodes[i].ranges@[1]]);
        assert(q2.map_values(f) =~= seq![nodes[i].ranges@[2]]);
        assert(sub_pos(n, i) == p0 + q0 + p1 + q1 + p2 + q2 + p3);
        lemma_map_concat(p0, q0, f);
        lemma_map_concat(p0 + q0, p1, f);
        lemma_map_concat(p0 + q0 + p1, q1, f);
        lemma_map_concat(p0 + q0 + p1 + q1, p2, f);
        lemma_map_concat(p0 + q0 + p1 + q1 + p2, q2, f);
        lemma_map_concat(p0 + q0 + p1 + q1 + p2 + q2, p3, f);
    } else {
        assert(sub_pos(n, i).map_values(f) =~= Seq::<Interval<Data>>::empty());
    }
}

/// The bounds of a subtree are the bounds of its slots
#[verifier::spinoff_prover]
pub proof fn lemma_bounds_slots<Data: IntervalData>(nodes: Seq<ITreeNode<Data>>, i: int)
    ensures
        sub_bounds(nodes, i) == sub_slots(nodes, i).map_values(|iv: Interval<Data>| bnd(iv)),
    decreases nodes.len() - i,
{
    let n = nodes.len() as int;
    let f = |iv: Interval<Data>| bnd(iv);
    if 0 <= i < n {
        if 4 * i + 1 < n { lemma_bounds_slots(nodes, 4 * i + 1); }
        if 4 * i + 2 < n { lemma_bounds_slots(nodes, 4 * i + 2); }
        if 4 * i + 3 < n { lemma_bounds_slots(nodes, 4 * i + 3); }
        if 4 * i + 4 < n { lemma_bounds_slots(nodes, 4 * i + 4); }
        let cs = |j: int| if 4 * i + 1 + j < n { sub_slots(nodes, 4 * i + 1 + j) } else { Seq::<Interval<Data>>::empty() };
        let cb = |j: int| if 4 * i + 1 + j < n { sub_bounds(nodes, 4 * i + 1 + j) } else { Seq::<(u64, u64)>::empty() };
        assert forall|j: int| 0 <= j < 4 implies #[trigger] cb(j) == cs(j).map_values(f) by {
            if !(4 * i + 1 + j < n) {
                assert(cs(j).map_values(f) =~= Seq::<(u64, u64)>::empty());
            }
        }
        let r0 = nodes[i].ranges@[0];
        let r1 = nodes[i].ranges@[1];
        let r2 = nodes[i].ranges@[2];
        assert(sub_slots(nodes, i) == cs(0) + seq![r0] + cs(1) + seq![r1] + cs(2) + seq![r2] + cs(3));
        assert(sub_bounds(nodes, i) == cb(0) + seq![bnd(r0)] + cb(1) + seq![bnd(r1)] + cb(2) + seq![bnd(r2)] + cb(3));
        assert((cs(0) + seq![r0] + cs(1) + seq![r1] + cs(2) + seq![r2] + cs(3)).map_values(f)
            =~= cs(0).map_values(f) + seq![f(r0)] + cs(1).map_values(f) + seq![f(r1)] + cs(2).map_values(f) + seq![f(r2)] + cs(3).map_values(f));
    } else {
        assert(sub_slots(nodes, i).map_values(f) =~= Seq::<(u64, u64)>::empty());
    }
}

/// Append the positions of the subtree rooted at node `i`
fn collect_positions(n: usize, i: usize, out: &mut Vec<(usize, usize)>)
    requires
        i < n,
    ensures
        final(out)@ == old(out)@ + sub_pos(n as int, i as int),
    decreases n - i,
{
    let ghost ii = i as int;
    let ghost nn = n as int;
    let ghost cp = |j: int| if 4 * ii + 1 + j < nn { sub_pos(nn, 4 * ii + 1 + j) } else { Seq::<(usize, usize)>::empty() };
    let ghost start = out@;
    let mut k: usize = 0;
    while k < 4
        invariant
            k <= 4,
            i < n,
            ii == i,
            nn == n,
            forall|j: int| #[trigger] cp(j) == (if 4 * ii + 1 + j < nn { sub_pos(nn, 4 * ii + 1 + j) } else { Seq::<(usize, usize)>::empty() }),
            k == 0 ==> out@ == start,
            k == 1 ==> out@ == start + cp(0) + seq![(i, 0usize)],
            k == 2 ==> out@ == start + cp(0) + seq![(i, 0usize)] + cp(1) + seq![(i, 1usize)],
            k == 3 ==> out@ == start + cp(0) + seq![(i, 0usize)] + cp(1) + seq![(i, 1usize)] + cp(2) + seq![(i, 2usize)],
            k == 4 ==> out@ == start + cp(0) + seq![(i, 0usize)] + cp(1) + seq![(i, 1usize)] + cp(2) + seq![(i, 2usize)] + cp(3),
        decreases 4 - k,
    {
        let ghost before = out@;
        let ci = child_index(i, k);
        match ci {
            Some(c) => {
                if c < n {
                    collect_positions(n, c, out);
                } else {
                    assert(cp(k as int) =~= Seq::<(usize, usize)>::empty());
                }
            },
            None => {
                assert(cp(k as int) =~= Seq::<(usize, usize)>::empty());
            },
        }
        assert(out@ =~= before + cp(k as int));
        if k < 3 {
            out.push((i, k));
        }
        k = k + 1;
    }
    assert(sub_pos(nn, ii) == cp(0) + seq![(i, 0usize)] + cp(1) + seq![(i, 1usize)] + cp(2) + seq![(i, 2usize)] + cp(3));
    assert(out@ =~= start + sub_pos(nn, ii));
}

/// Positions of all the slots of an `n`-node tree, in order
pub fn all_positions(n: usize) -> (r: Vec<(usize, usize)>)
    ensures
        r@ == sub_pos(n as int, 0),
{
    let mut out = Vec::new();
    if n > 0 {
        collect_positions(n, 0, &mut out);
        assert(out@ =~= sub_pos(n as int, 0));
    }
    out
}

/// Leading present slots: each step keeps the remaining count
pub proof fn lemma_present_prefix_step<Data: IntervalData>(s: Seq<Interval<Data>>, k: int)
    requires
        0 <= k < s.len(),
        !s[k].spec_is_none(),
    ensures
        present_prefix_len(s.skip(k)) == 1 + present_prefix_len(s.skip(k + 1)),
{
    assert(s.skip(k)[0] == s[k]);
    assert(s.skip(k).drop_first() =~= s.skip(k + 1));
}

/// Leading present slots end at an absent slot
pub proof fn lemma_present_prefix_stop<Data: IntervalData>(s: Seq<Interval<Data>>, k: int)
    requires
        0 <= k <= s.len(),
        k == s.len() || s[k].spec_is_none(),
    ensures
        present_prefix_len(s.skip(k)) == 0,
{
    if k < s.len() {
        assert(s.skip(k)[0] == s[k]);
    }
}

/// Flattening one more node appends its slots
pub proof fn lemma_flat_step<Data: IntervalData>(nodes: Seq<ITreeNode<Data>>, i: int)
    requires
        0 <= i < nodes.len(),
    ensures
        flat(nodes.take(i + 1)) == flat(nodes.take(i)) + nodes[i].ranges@,
{
    assert(nodes.take(i + 1).drop_last() =~= nodes.take(i));
    assert(nodes.take(i + 1).last() == nodes[i]);
}

/// Bounds of the mapped slots, node after node
fn collect_present_bounds<Data: IntervalData>(nodes: &Vec<ITreeNode<Data>>) -> (r: Vec<(u64, u64)>)
    requires
        nodes_wf(nodes@),
    ensures
        r@ == present_bounds(flat(nodes@)),
{
    let mut out: Vec<(u64, u64)> = Vec::new();
    let mut i: usize = 0;
    assert(flat(nodes@.take(0)) =~= Seq::<Interval<Data>>::empty());
    while i < nodes.len()
        invariant
            i <= nodes@.len(),
            nodes_wf(nodes@),
            out@ == present_bounds(flat(nodes@.take(i as int))),
        decreases nodes@.len() - i,
    {
        let node = &nodes[i];
        assert(nodes@[i as int].wf());
        let ghost base = flat(nodes@.take(i as int));
        let mut j: usize = 0;
        assert(base + node.ranges@.take(0) =~= base);
        while j < 3
            invariant
                j <= 3,
                node.ranges@.len() == 3,
                out@ == present_bounds(base + node.ranges@.take(j as int)),
            decreases 3 - j,
        {
            let iv = &node.ranges[j];
            assert((base + node.ranges@.take(j + 1)).drop_last() =~= base + node.ranges@.take(j as int));
            assert((base + node.ranges@.take(j + 1)).last() == node.ranges@[j as int]);
            if !iv.is_none() {
                out.push((iv.start, iv.end));
            }
            j = j + 1;
        }
        proof {
            lemma_flat_step(nodes@, i as int);
            assert(node.ranges@.take(3) =~= node.ranges@);
        }
        i = i + 1;
    }
    assert(nodes@.take(nodes@.len() as int) =~= nodes@);
    out
}

/// Stable sort of bounds by start
pub(crate) fn sort_bounds(b: &Vec<(u64, u64)>) -> (r: Vec<(u64, u64)>)
    ensures
        r@ == sort_by_start(b@),
{
    let mut out: Vec<(u64, u64)> = Vec::new();
    let mut k: usize = 0;
    assert(b@.take(0) =~= Seq::<(u64, u64)>::empty());
    while k < b.len()
        invariant
            k <= b@.len(),
            out@ == sort_by_start(b@.take(k as int)),
        decreases b@.len() - k,
    {
        let x = b[k];
        let mut pos: usize = out.len();
        assert(out@.take(pos as int) =~= out@);
        while pos > 0 && out[pos - 1].0 > x.0
            invariant
                pos <= out@.len(),
                insert_pos(out@, x) == insert_pos(out@.take(pos as int), x),
            decreases pos,
        {
            assert(out@.take(pos as int).drop_last() =~= out@.take(pos - 1));
            assert(out@.take(pos as int).last() == out@[pos - 1]);
            pos = pos - 1;
        }
        proof {
            if pos > 0 {
                assert(out@.take(pos as int).last() == out@[pos - 1]);
            }
            assert(insert_pos(out@, x) == pos);
        }
        let ghost before = out@;
        out.insert(pos, x);
        proof {
            assert(b@.take(k + 1).drop_last() =~= b@.take(k as int));
            assert(b@.take(k + 1).last() == x);
            assert(out@ =~= insert_sorted(before, x));
        }
        k = k + 1;
    }
    assert(b@.take(b@.len() as int) =~= b@);
    out
}

/// The first bound that leaves the range
fn find_out_of_range(s: &Vec<(u64, u64)>, vr: (u64, u64)) -> (r: Option<usize>)
    ensures
        match first_out_of_range(s@, vr, 0) {
            Some(k) => r == Some(k as usize),
            None => r is None,
        },
        r matches Some(k) ==> k < s@.len(),
{
    let mut j: usize = 0;
    while j < s.len()
        invariant
            j <= s@.len(),
            first_out_of_range(s@, vr, 0) == first_out_of_range(s@, vr, j as int),
        decreases s@.len() - j,
    {
        if s[j].0 < vr.0 || s[j].1 > vr.1 {
            return Some(j);
        }
        j = j + 1;
    }
    None
}

/// The first position whose bound ends after the next one starts
fn find_overlap(s: &Vec<(u64, u64)>) -> (r: Option<usize>)
    ensures
        match first_overlap(s@, 0) {
            Some(k) => r == Some(k as usize) && k + 1 < s@.len(),
            None => r is None,
        },
        r matches Some(k) ==> k + 1 < s@.len(),
{
    if s.len() < 2 {
        return None;
    }
    let mut j: usize = 0;
    while j < s.len() - 1
        invariant
            s@.len() >= 2,
            j + 1 <= s@.len(),
            first_overlap(s@, 0) == first_overlap(s@, j as int),
        decreases s@.len() - j,
    {
        if s[j].1 > s[j + 1].0 {
            return Some(j);
        }
        j = j + 1;
    }
    None
}

/// A found overlap lies within the list
pub proof fn lemma_first_overlap_in(s: Seq<(u64, u64)>, j: int)
    ensures
        first_overlap(s, j) matches Some(k) ==> j <= k && k + 1 < s.len(),
    decreases s.len() - j,
{
    if !(j < 0 || j + 1 >= s.len()) && !(s[j].1 > s[j + 1].0) {
        lemma_first_overlap_in(s, j + 1);
    }
}

/// A found out-of-range bound lies within the list
pub proof fn lemma_first_out_of_range_in(s: Seq<(u64, u64)>, vr: (u64, u64), j: int)
    ensures
        first_out_of_range(s, vr, j) matches Some(k) ==> j <= k < s.len(),
    decreases s.len() - j,
{
    if !(j < 0 || j >= s.len()) && !(s[j].0 < vr.0 || s[j].1 > vr.1) {
        lemma_first_out_of_range_in(s, vr, j + 1);
    }
}

/// Number of logical intervals of an in-order list of bounds spanning `vr`
fn count_logical(io: &Vec<(u64, u64)>, vr: (u64, u64)) -> (r: usize)
    requires
        io@.len() <= usize::MAX / 4,
    ensures
        r == logical_count(io@, vr),
{
    let n = io.len();
    if n == 0 {
        return if vr.0 == vr.1 {
            0
        } else {
            1
        };
    }
    let mut acc: usize = 0;
    let mut k: usize = 0;
    while k < n
        invariant
            n == io@.len(),
            n <= usize::MAX / 4,
            k <= n,
            acc == share_upto(io@, k as int),
            acc <= 2 * k,
        decreases n - k,
    {
        let sh: usize = if k + 1 < n {
            if io[k].1 == io[k + 1].0 {
                1
            } else {
                2
            }
        } else {
            1
        };
        acc = acc + sh;
        k = k + 1;
    }
    let first: usize = if io[0].0 != vr.0 {
        1
    } else {
        0
    };
    let last: usize = if io[n - 1].1 != vr.1 {
        1
    } else {
        0
    };
    assert(io@.last() == io@[n - 1]);
    acc + first + last
}

/// Where an interval goes in a list sorted by start: after all intervals that start at or before it
pub open spec fn iv_insert_pos<Data: IntervalData>(s: Seq<Interval<Data>>, x: u64) -> int
    decreases s.len(),
{
    if s.len() == 0 {
        0
    } else if s.last().start <= x {
        s.len() as int
    } else {
        iv_insert_pos(s.drop_last(), x)
    }
}

/// Intervals sorted by start, inserting from the last one (so that intervals with the same start
/// come out in reverse order)
pub open spec fn sort_ivals<Data: IntervalData>(s: Seq<Interval<Data>>) -> Seq<Interval<Data>>
    decreases s.len(),
{
    if s.len() == 0 {
        seq![]
    } else {
        let r = sort_ivals(s.drop_first());
        let p = iv_insert_pos(r, s[0].start);
        r.take(p) + seq![s[0]] + r.skip(p)
    }
}

/// The slot maps nothing and holds the empty interval
pub open spec fn slot_empty<Data: IntervalData>(iv: Interval<Data>) -> bool {
    iv.start == u64::MAX && iv.end == u64::MAX && iv.data.kind() == DataKind::Absent
}

/// The nodes hold the sorted intervals along the in-order positions, and nothing after them
pub open spec fn laid_out<Data: IntervalData>(nodes: Seq<ITreeNode<Data>>, srt: Seq<Interval<Data>>) -> bool {
    let n = nodes.len() as int;
    &&& n == (srt.len() + 2) / 3
    &&& nodes_wf(nodes)
    &&& forall|k: int| 0 <= k < srt.len() ==> slot_at(nodes, #[trigger] sub_pos(n, 0)[k]) == srt[k]
    &&& forall|k: int| srt.len() <= k < 3 * n ==> slot_empty(slot_at(nodes, #[trigger] sub_pos(n, 0)[k]))
}

/// Sort the intervals by start
fn sort_intervals<Data: IntervalData>(ivs: Vec<Interval<Data>>) -> (r: Vec<Interval<Data>>)
    ensures
        r@ == sort_ivals(ivs@),
{
    let ghost orig = ivs@;
    let mut ivs = ivs;
    let mut out: Vec<Interval<Data>> = Vec::new();
    assert(orig.skip(orig.len() as int) =~= Seq::<Interval<Data>>::empty());
    assert(orig.take(orig.len() as int) =~= orig);
    while ivs.len() > 0
        invariant
            ivs@.len() <= orig.len(),
            ivs@ == orig.take(ivs@.len() as int),
            out@ == sort_ivals(orig.skip(ivs@.len() as int)),
        decreases ivs@.len(),
    {
        let ghost l = ivs@.len() as int;
        let x = ivs.pop().unwrap();
        assert(x == orig[l - 1]);
        assert(ivs@ =~= orig.take(l - 1));
        let mut pos: usize = out.len();
        assert(out@.take(pos as int) =~= out@);
        while pos > 0 && out[pos - 1].start > x.start
            invariant
                pos <= out@.len(),
                iv_insert_pos(out@, x.start) == iv_insert_pos(out@.take(pos as int), x.start),
            decreases pos,
        {
            assert(out@.take(pos as int).drop_last() =~= out@.take(pos - 1));
            assert(out@.take(pos as int).last() == out@[pos - 1]);
            pos = pos - 1;
        }
        proof {
            if pos > 0 {
                assert(out@.take(pos as int).last() == out@[pos - 1]);
            }
            assert(iv_insert_pos(out@, x.start) == pos);
        }
        let ghost before = out@;
        out.insert(pos, x);
        proof {
            assert(orig.skip(l - 1)[0] == x);
            assert(orig.skip(l - 1).drop_first() =~= orig.skip(l));
            assert(out@ =~= before.take(pos as int) + seq![x] + before.skip(pos as int));
        }
    }
    assert(orig.skip(0) =~= orig);
    out
}

/// Lay the sorted intervals out on the in-order positions of a compact tree
#[verifier::rlimit(40)]
fn lay_out<Data: IntervalData>(srt: Vec<Interval<Data>>) -> (r: Vec<ITreeNode<Data>>)
    requires
        srt@.len() <= usize::MAX / 8,
    ensures
        laid_out(r@, srt@),
{
    let ghost orig = srt@;
    let m = srt.len();
    let n = (m + 2) / 3;
    let mut nodes: Vec<ITreeNode<Data>> = Vec::new();
    let mut i: usize = 0;
    while i < n
        invariant
            i <= n,
            nodes@.len() == i,
            forall|a: int| 0 <= a < i ==> (#[trigger] nodes@[a]).wf() && forall|b: int|
                0 <= b < 3 ==> slot_empty(#[trigger] nodes@[a].ranges@[b]),
        decreases n - i,
    {
        let node = ITreeNode::empty();
        nodes.push(node);
        i = i + 1;
    }
    let pos = all_positions(n);
    proof {
        lemma_sub_pos_len(n as int, 0);
        lemma_pos_valid(n as int, 0);
        lemma_pos_distinct(n as int, 0);
    }
    let mut srt = srt;
    let mut k: usize = m;
    assert(orig.take(m as int) =~= orig);
    while k > 0
        invariant
            k <= m,
            m == orig.len(),
            n == (m + 2) / 3,
            m <= 3 * n,
            nodes@.len() == n,
            pos@ == sub_pos(n as int, 0),
            pos@.len() == 3 * n,
            pos@.no_duplicates(),
            forall|j: int| 0 <= j < pos@.len() ==> 0 <= (#[trigger] pos@[j]).0 < n && pos@[j].1 < 3,
            srt@ == orig.take(k as int),
            nodes_wf(nodes@),
            forall|j: int| k <= j < m ==> slot_at(nodes@, #[trigger] pos@[j]) == orig[j],
            forall|j: int| (0 <= j < k || m <= j < 3 * n) ==> slot_empty(slot_at(nodes@, #[trigger] pos@[j])),
        decreases k,
    {
        k = k - 1;
        let iv = srt.pop().unwrap();
        assert(iv == orig[k as int]);
        assert(srt@ =~= orig.take(k as int));
        let (a, b) = pos[k];
        let ghost before = nodes@;
        assert(nodes@[a as int].wf());
        nodes[a].ranges[b] = iv;
        proof {
            assert forall|j: int| 0 <= j < pos@.len() && j != k implies slot_at(nodes@, #[trigger] pos@[j]) == slot_at(before, pos@[j]) by {
                assert(pos@[j] != pos@[k as int]);
            }
            assert forall|x: int| 0 <= x < nodes@.len() implies (#[trigger] nodes@[x]).wf() by {
                assert(before[x].wf());
            }
        }
    }
    nodes
}

/// The slots of a tree laid out from sorted intervals: the intervals, then empty slots
pub proof fn lemma_laid_out_slots<Data: IntervalData>(nodes: Seq<ITreeNode<Data>>, srt: Seq<Interval<Data>>)
    requires
        laid_out(nodes, srt),
        nodes.len() <= usize::MAX,
    ensures
        sub_slots(nodes, 0).len() == 3 * nodes.len(),
        forall|k: int| 0 <= k < srt.len() ==> #[trigger] sub_slots(nodes, 0)[k] == srt[k],
        forall|k: int| srt.len() <= k < 3 * nodes.len() ==> slot_empty(#[trigger] sub_slots(nodes, 0)[k]),
{
    let n = nodes.len() as int;
    lemma_slots_pos(nodes, 0);
    lemma_sub_pos_len(n, 0);
    assert forall|k: int| 0 <= k < srt.len() implies #[trigger] sub_slots(nodes, 0)[k] == srt[k] by {
        assert(sub_slots(nodes, 0)[k] == slot_at(nodes, sub_pos(n, 0)[k]));
    }
    assert forall|k: int| srt.len() <= k < 3 * n implies slot_empty(#[trigger] sub_slots(nodes, 0)[k]) by {
        assert(sub_slots(nodes, 0)[k] == slot_at(nodes, sub_pos(n, 0)[k]));
    }
}

/// When every interval maps something, a tree laid out from them traverses them in order
pub proof fn lemma_laid_out_in_order<Data: IntervalData>(nodes: Seq<ITreeNode<Data>>, srt: Seq<Interval<Data>>)
    requires
        laid_out(nodes, srt),
        nodes.len() <= usize::MAX,
        forall|k: int| 0 <= k < srt.len() ==> !(#[trigger] srt[k]).spec_is_none(),
    ensures
        sub_slots(nodes, 0).take(present_prefix_len(sub_slots(nodes, 0)) as int) == srt,
{
    let sl = sub_slots(nodes, 0);
    lemma_laid_out_slots(nodes, srt);
    let m = srt.len() as int;
    assert(m <= 3 * nodes.len()) by {
        assert(nodes.len() == (m + 2) / 3);
    }
    lemma_present_prefix_from(sl, m, 0);
    assert(sl.skip(0) =~= sl);
    assert(sl.take(m) =~= srt);
}

/// When the slots `j..m` map something and slot `m` does not (or is past the end), `m - j`
/// present slots lead from `j`
pub proof fn lemma_present_prefix_from<Data: IntervalData>(sl: Seq<Interval<Data>>, m: int, j: int)
    requires
        0 <= j <= m <= sl.len(),
        forall|i: int| j <= i < m ==> !(#[trigger] sl[i]).spec_is_none(),
        m == sl.len() || sl[m].spec_is_none(),
    ensures
        present_prefix_len(sl.skip(j)) == m - j,
    decreases m - j,
{
    if j == m {
        lemma_present_prefix_stop(sl, m);
    } else {
        lemma_present_prefix_step(sl, j);
        lemma_present_prefix_from(sl, m, j + 1);
    }
}

/// The insertion position lies within the list
pub proof fn lemma_iv_insert_pos_bounds<Data: IntervalData>(s: Seq<Interval<Data>>, x: u64)
    ensures
        0 <= iv_insert_pos(s, x) <= s.len(),
    decreases s.len(),
{
    if s.len() > 0 {
        lemma_iv_insert_pos_bounds(s.drop_last(), x);
    }
}

/// Sorting keeps the intervals: the same number, each one of the input
pub proof fn lemma_sort_ivals_elems<Data: IntervalData>(s: Seq<Interval<Data>>)
    ensures
        sort_ivals(s).len() == s.len(),
        forall|k: int| 0 <= k < s.len() ==> exists|j: int| 0 <= j < s.len() && #[trigger] sort_ivals(s)[k] == s[j],
    decreases s.len(),
{
    if s.len() > 0 {
        let t = s.drop_first();
        lemma_sort_ivals_elems(t);
        let r = sort_ivals(t);
        let p = iv_insert_pos(r, s[0].start);
        lemma_iv_insert_pos_bounds(r, s[0].start);
        let res = r.take(p) + seq![s[0]] + r.skip(p);
        assert forall|k: int| 0 <= k < s.len() implies exists|j: int| 0 <= j < s.len() && #[trigger] sort_ivals(s)[k] == s[j] by {
            if k < p {
                assert(res[k] == r[k]);
                let j = choose|j: int| 0 <= j < t.len() && r[k] == t[j];
                assert(t[j] == s[j + 1]);
            } else if k == p {
                assert(res[k] == s[0]);
            } else {
                assert(res[k] == r[k - 1]);
                let j = choose|j: int| 0 <= j < t.len() && r[k - 1] == t[j];
                assert(t[j] == s[j + 1]);
            }
        }
    }
}

/// Sum of a per-node measure over the nodes
pub open spec fn sum_nodes<Data: IntervalData>(nodes: Seq<ITreeNode<Data>>, f: spec_fn(Seq<Interval<Data>>) -> nat) -> nat
    decreases nodes.len(),
{
    if nodes.len() == 0 {
        0
    } else {
        sum_nodes(nodes.drop_last(), f) + f(nodes.last().ranges@)
    }
}

/// Partial sums of a per-node measure are bounded by the total
pub proof fn lemma_sum_nodes_prefix<Data: IntervalData>(
    nodes: Seq<ITreeNode<Data>>,
    f: spec_fn(Seq<Interval<Data>>) -> nat,
    k: int,
)
    requires
        0 <= k <= nodes.len(),
    ensures
        forall|j: int| 0 <= j <= k ==> sum_nodes(#[trigger] nodes.take(j), f) <= sum_nodes(nodes.take(k), f),
    decreases k,
{
    if k > 0 {
        lemma_sum_nodes_prefix(nodes, f, k - 1);
        assert(nodes.take(k).drop_last() =~= nodes.take(k - 1));
    }
}

/// One more node adds its measure
pub proof fn lemma_sum_nodes_step<Data: IntervalData>(
    nodes: Seq<ITreeNode<Data>>,
    f: spec_fn(Seq<Interval<Data>>) -> nat,
    i: int,
)
    requires
        0 <= i < nodes.len(),
    ensures
        sum_nodes(nodes.take(i + 1), f) == sum_nodes(nodes.take(i), f) + f(nodes[i].ranges@),
{
    assert(nodes.take(i + 1).drop_last() =~= nodes.take(i));
    assert(nodes.take(i + 1).last() == nodes[i]);
}

/// The deduper tokens referenced by the intervals, in order
pub open spec fn ref_tokens<Data: IntervalData>(s: Seq<Interval<Data>>) -> Seq<DedupToken>
    decreases s.len(),
{
    if s.len() == 0 {
        seq![]
    } else {
        ref_tokens(s.drop_last()) + if s.last().data.kind() == DataKind::Ref {
            seq![s.last().data.token()]
        } else {
            Seq::<DedupToken>::empty()
        }
    }
}

/// The gaps between consecutive bounds of a chain, where the first ends before the next starts
pub open spec fn chain_gaps(c: Seq<(u64, u64)>) -> Seq<(u64, u64)>
    decreases c.len(),
{
    if c.len() < 2 {
        seq![]
    } else {
        chain_gaps(c.drop_last()) + if c[c.len() - 2].1 < c[c.len() - 1].0 {
            seq![(c[c.len() - 2].1, c[c.len() - 1].0)]
        } else {
            Seq::<(u64, u64)>::empty()
        }
    }
}

/// The pages of a segment: its whole `PAGE_SIZE` chunks (a shorter tail is left out)
pub open spec fn pages_of(d: Seq<u8>) -> Seq<Seq<u8>> {
    Seq::new(
        d.len() / (PAGE_SIZE as nat),
        |i: int| d.subrange(i * (PAGE_SIZE as int), (i + 1) * (PAGE_SIZE as int)),
    )
}

/// The bytes an interval holds, directly or through the deduper
pub open spec fn data_bytes<Data: IntervalData>(iv: Interval<Data>, deduper: Deduper) -> Seq<u8> {
    if iv.data.kind() == DataKind::Owned {
        iv.data.owned_bytes()
    } else {
        deduper.data_of(iv.data.token())
    }
}

/// The pages of the data intervals, in order
pub open spec fn private_pages_of<Data: IntervalData>(s: Seq<Interval<Data>>, deduper: Deduper) -> Seq<Seq<u8>>
    decreases s.len(),
{
    if s.len() == 0 {
        seq![]
    } else {
        private_pages_of(s.drop_last(), deduper) + if s.last().data.kind() == DataKind::Owned
            || s.last().data.kind() == DataKind::Ref {
            pages_of(data_bytes(s.last(), deduper))
        } else {
            Seq::<Seq<u8>>::empty()
        }
    }
}

/// Every referenced token is held by the deduper
pub open spec fn refs_held<Data: IntervalData>(s: Seq<Interval<Data>>, deduper: Deduper) -> bool {
    forall|k: int| 0 <= k < s.len() ==> (#[trigger] s[k]).data.kind() == DataKind::Ref ==> deduper.has_token(s[k].data.token())
}

/// What deduplication does to a slot: owned data moves into the deduper, the rest stays
pub open spec fn dedup_slot<Data: IntervalData>(before: Interval<Data>, after: Interval<Data>, deduper: Deduper) -> bool {
    &&& after.start == before.start
    &&& after.end == before.end
    &&& before.data.kind() == DataKind::Owned ==> after.data.kind() == DataKind::Ref && deduper.has_token(after.data.token())
        && deduper.data_of(after.data.token()) == before.data.owned_bytes()
    &&& before.data.kind() != DataKind::Owned ==> after.data.kind() == before.data.kind() && after.data.token() == before.data.token()
}

/// At most one present interval per slot
pub proof fn lemma_count_present_le<Data: IntervalData>(s: Seq<Interval<Data>>)
    ensures
        count_present(s) <= s.len(),
    decreases s.len(),
{
    if s.len() > 0 {
        lemma_count_present_le(s.drop_last());
    }
}

/// At most one data interval per slot
pub proof fn lemma_count_data_le<Data: IntervalData>(s: Seq<Interval<Data>>)
    ensures
        count_data(s) <= s.len(),
    decreases s.len(),
{
    if s.len() > 0 {
        lemma_count_data_le(s.drop_last());
    }
}

/// Every referenced token of a slot is held by the deduper
pub open spec fn tree_refs_held<Data: IntervalData>(nodes: Seq<ITreeNode<Data>>, deduper: Deduper) -> bool {
    forall|a: int, b: int|
        0 <= a < nodes.len() && 0 <= b < 3 && (#[trigger] nodes[a].ranges@[b]).data.kind() == DataKind::Ref
            ==> deduper.has_token(nodes[a].ranges@[b].data.token())
}

/// The page of data backing `addr` that a lookup gives: when it found a data interval, the
/// page of its data holding the address (if the data reaches that far)
pub open spec fn resolved_page<Data: IntervalData>(
    res: Result<Interval<Data>, (u64, u64)>,
    addr: u64,
    deduper: Deduper,
) -> Option<Seq<u8>> {
    match res {
        Ok(iv) => if iv.data.kind() == DataKind::Owned || iv.data.kind() == DataKind::Ref {
            let off = spec_align_down(addr - iv.start, PAGE_SIZE as int);
            let d = data_bytes(iv, deduper);
            if off + PAGE_SIZE <= d.len() {
                Some(d.subrange(off, off + PAGE_SIZE))
            } else {
                None
            }
        } else {
            None
        },
        Err(_) => None,
    }
}

/// A tree of [`ITreeNode`]s laid out in an array: the children of node `i` are the nodes
/// `FANOUT * i + 1 ..= FANOUT * i + FANOUT`
///
/// Depending on the generic [`IntervalData`] parameter, the tree can either be "anonymous" or
/// "reference" if it is associated with an anonymous VMA or file-backed VMA, respectively.
///
/// For an **anonymous** virtual address range, looking up an address either finds an interval
/// with data, or nothing: the address is then backed by the zero page.
///
/// For a **file-backed** virtual address range, looking up an address either finds an interval
/// with data or with the zero page, or nothing: the address is then backed by the reference file.
#[derive(Debug)]
pub struct ITree<Data: IntervalData> {
    pub nodes: Vec<ITreeNode<Data>>,
    pub virtual_range: (u64, u64),
}

impl<Data: IntervalData> ITree<Data> {
    /// All slots, in order
    pub open spec fn slots(&self) -> Seq<Interval<Data>> {
        sub_slots(self.nodes@, 0)
    }

    /// The intervals met by an in-order traversal, which stops at the first empty slot
    pub open spec fn in_order(&self) -> Seq<Interval<Data>> {
        self.slots().take(present_prefix_len(self.slots()) as int)
    }

    /// The tree is a search tree: its slots are ordered and do not overlap
    pub open spec fn is_search_tree(&self) -> bool {
        sorted_bounds(sub_bounds(self.nodes@, 0))
    }

    /// Every node has three slots, every mapped interval has ordered bounds
    pub open spec fn wf(&self) -> bool {
        &&& nodes_wf(self.nodes@)
        &&& all_bounds_ok(flat(self.nodes@))
        &&& self.virtual_range.0 <= self.virtual_range.1
    }

    /// Virtual range spanned by the interval tree
    pub fn virtual_range(&self) -> (r: (u64, u64))
        ensures
            r == self.virtual_range,
    {
        self.virtual_range
    }

    /// Size of the [`ITree`] in number of nodes
    pub fn n_nodes(&self) -> (r: usize)
        ensures
            r == self.nodes@.len(),
    {
        self.nodes.len()
    }

    /// Positions of the intervals met by an in-order traversal
    pub fn in_order_positions(&self) -> (r: Vec<(usize, usize)>)
        requires
            nodes_wf(self.nodes@),
        ensures
            r@ == sub_pos(self.nodes@.len() as int, 0).take(present_prefix_len(self.slots()) as int),
            r@.map_values(|p: (usize, usize)| slot_at(self.nodes@, p)) == self.in_order(),
            forall|k: int| 0 <= k < r@.len() ==> 0 <= (#[trigger] r@[k]).0 < self.nodes@.len() && r@[k].1 < 3,
    {
        let all = all_positions(self.nodes.len());
        let ghost n = self.nodes@.len() as int;
        let ghost sl = self.slots();
        proof {
            lemma_pos_valid(n, 0);
            lemma_slots_pos(self.nodes@, 0);
        }
        let mut out: Vec<(usize, usize)> = Vec::new();
        let mut k: usize = 0;
        let mut done = false;
        assert(sl.skip(0) =~= sl);
        while !done && k < all.len()
            invariant
                k <= all@.len(),
                all@ == sub_pos(n, 0),
                n == self.nodes@.len(),
                sl == self.slots(),
                nodes_wf(self.nodes@),
                sl == all@.map_values(|p: (usize, usize)| slot_at(self.nodes@, p)),
                forall|j: int| 0 <= j < all@.len() ==> 0 <= (#[trigger] all@[j]).0 < n && all@[j].1 < 3,
                out@ == all@.take(k as int),
                present_prefix_len(sl) == k + present_prefix_len(sl.skip(k as int)),
                done ==> present_prefix_len(sl.skip(k as int)) == 0,
            decreases all@.len() - k + (if done { 0int } else { 1int }),
        {
            let (a, b) = all[k];
            assert(self.nodes@[a as int].wf());
            assert(sl[k as int] == slot_at(self.nodes@, all@[k as int]));
            if self.nodes[a].ranges[b].is_none() {
                proof {
                    lemma_present_prefix_stop(sl, k as int);
                }
                done = true;
            } else {
                proof {
                    lemma_present_prefix_step(sl, k as int);
                }
                out.push((a, b));
                assert(out@ =~= all@.take(k + 1));
                k = k + 1;
            }
        }
        proof {
            if !done {
                lemma_present_prefix_stop(sl, k as int);
            }
            assert(present_prefix_len(sl) == k);
            assert(out@.map_values(|p: (usize, usize)| slot_at(self.nodes@, p)) =~= self.in_order());
        }
        out
    }

    /// The intervals met by an in-order traversal
    pub fn in_order_intervals(&self) -> (r: Vec<&Interval<Data>>)
        requires
            nodes_wf(self.nodes@),
        ensures
            r@.len() == self.in_order().len(),
            forall|k: int| 0 <= k < r@.len() ==> *(#[trigger] r@[k]) == self.in_order()[k],
    {
        let pos = self.in_order_positions();
        let mut out: Vec<&Interval<Data>> = Vec::new();
        let mut k: usize = 0;
        while k < pos.len()
            invariant
                k <= pos@.len(),
                pos@.map_values(|p: (usize, usize)| slot_at(self.nodes@, p)) == self.in_order(),
                forall|j: int| 0 <= j < pos@.len() ==> 0 <= (#[trigger] pos@[j]).0 < self.nodes@.len() && pos@[j].1 < 3,
                nodes_wf(self.nodes@),
                out@.len() == k,
                forall|j: int| 0 <= j < k ==> *(#[trigger] out@[j]) == self.in_order()[j],
            decreases pos@.len() - k,
        {
            let (a, b) = pos[k];
            assert(self.nodes@[a as int].wf());
            assert(self.in_order()[k as int] == slot_at(self.nodes@, pos@[k as int]));
            out.push(&self.nodes[a].ranges[b]);
            k = k + 1;
        }
        out
    }


    /// Bounds of the intervals met by an in-order traversal
    pub fn in_order_bounds(&self) -> (r: Vec<(u64, u64)>)
        requires
            nodes_wf(self.nodes@),
        ensures
            r@ == self.in_order().map_values(|iv: Interval<Data>| bnd(iv)),
    {
        let pos = self.in_order_positions();
        let mut out: Vec<(u64, u64)> = Vec::new();
        let mut k: usize = 0;
        while k < pos.len()
            invariant
                k <= pos@.len(),
                pos@.map_values(|p: (usize, usize)| slot_at(self.nodes@, p)) == self.in_order(),
                forall|j: int| 0 <= j < pos@.len() ==> 0 <= (#[trigger] pos@[j]).0 < self.nodes@.len() && pos@[j].1 < 3,
                nodes_wf(self.nodes@),
                out@.len() == k,
                forall|j: int| 0 <= j < k ==> (#[trigger] out@[j]) == bnd(self.in_order()[j]),
            decreases pos@.len() - k,
        {
            let (a, b) = pos[k];
            assert(self.nodes@[a as int].wf());
            assert(self.in_order()[k as int] == slot_at(self.nodes@, pos@[k as int]));
            let iv = &self.nodes[a].ranges[b];
            out.push((iv.start, iv.end));
            k = k + 1;
        }
        assert(out@ =~= self.in_order().map_values(|iv: Interval<Data>| bnd(iv)));
        out
    }

    /// Number of intervals of the tree (the explicit ones)
    pub fn n_intervals(&self) -> (r: usize)
        requires
            nodes_wf(self.nodes@),
            self.nodes@.len() <= usize::MAX / 16,
        ensures
            r == sum_nodes(self.nodes@, |s: Seq<Interval<Data>>| count_present(s)),
    {
        self.n_explicit_intervals()
    }

    /// Number of logical intervals: the explicit intervals met by an in-order traversal, and the
    /// gaps before, between and after them
    pub fn n_logical_intervals(&self) -> (r: usize)
        requires
            nodes_wf(self.nodes@),
            self.nodes@.len() <= usize::MAX / 16,
        ensures
            r == logical_count(self.in_order().map_values(|iv: Interval<Data>| bnd(iv)), self.virtual_range),
    {
        let io = self.in_order_bounds();
        proof {
            assert(present_prefix_len(self.slots()) <= self.slots().len()) by {
                lemma_present_prefix_le(self.slots());
            }
            lemma_sub_pos_len(self.nodes@.len() as int, 0);
            lemma_slots_pos(self.nodes@, 0);
        }
        count_logical(&io, self.virtual_range)
    }

    /// How many [`ITreeNode`]s will be required given the number of intervals
    pub fn n_itree_nodes_from_intervals(n_intervals: usize) -> (r: usize)
        requires
            n_intervals <= usize::MAX - FANOUT,
        ensures
            r == (n_intervals + 2) / 3,
    {
        (n_intervals + FANOUT - 2) / (FANOUT - 1)
    }

    /// Construct a new interval tree, checking that it is well formed
    ///
    /// The mapped intervals (sorted by start) must lie within the virtual range and must not
    /// intersect, the tree must hold no more nodes than its logical intervals need, and the
    /// in-order traversal must be sorted.
    pub fn new(nodes: Vec<ITreeNode<Data>>, virtual_range: (u64, u64)) -> (r: ITreeResult<Self>)
        requires
            nodes_wf(nodes@),
            nodes@.len() <= usize::MAX / 16,
        ensures
            r matches Ok(t) ==> t.nodes@ == nodes@ && t.virtual_range == virtual_range,
            r is Ok <==> spec_check(nodes@, virtual_range) is Ok,
            r matches Err(e) ==> spec_check(nodes@, virtual_range) == Err::<(), ITreeError>(e),
    {
        let bounds = collect_present_bounds(&nodes);
        let sorted = sort_bounds(&bounds);
        proof {
            lemma_first_out_of_range_in(sorted@, virtual_range, 0);
            lemma_first_overlap_in(sorted@, 0);
        }
        match find_out_of_range(&sorted, virtual_range) {
            Some(k) => {
                return Err(ITreeError::IntervalOutOfRange { interval: sorted[k] });
            },
            None => {},
        }
        match find_overlap(&sorted) {
            Some(k) => {
                let n_sorted = sorted.len();
                assert(k + 1 < n_sorted);
                let k1 = k + 1;
                return Err(ITreeError::IntersectingInterval { interval_1: sorted[k], interval_2: sorted[k1] });
            },
            None => {},
        }
        let itree = ITree { nodes, virtual_range };
        let n_int = itree.n_logical_intervals();
        proof {
            lemma_logical_count_le(itree.in_order().map_values(|iv: Interval<Data>| bnd(iv)), virtual_range);
            lemma_present_prefix_le(itree.slots());
            lemma_sub_pos_len(itree.nodes@.len() as int, 0);
            lemma_slots_pos(itree.nodes@, 0);
        }
        let expected_n_nodes = Self::n_itree_nodes_from_intervals(n_int);
        if expected_n_nodes < itree.n_nodes() {
            return Err(ITreeError::NotCompact { expected_n_nodes, n_nodes: itree.n_nodes() });
        }
        let io = itree.in_order_bounds();
        proof {
            lemma_first_overlap_in(io@, 0);
        }
        match find_overlap(&io) {
            Some(k) => {
                let n_io = io.len();
                assert(k + 1 < n_io);
                let k1 = k + 1;
                return Err(ITreeError::NotInOrder { interval_1: io[k], interval_2: io[k1] });
            },
            None => {},
        }
        Ok(itree)
    }


    /// Build a new interval tree (by balancing the input [`Interval`]s)
    ///
    /// The intervals, sorted by start, are laid out on the in-order positions of a tree with as
    /// few nodes as they need; the tree is then checked as [`ITree::new`] does. Intervals that map
    /// something, are not empty, lie within the range and do not overlap always pass.
    pub fn build(intervals: Vec<Interval<Data>>, virtual_range: (u64, u64)) -> (r: ITreeResult<Self>)
        requires
            intervals@.len() <= usize::MAX / 8,
        ensures
            r matches Ok(t) ==> laid_out(t.nodes@, sort_ivals(intervals@)) && t.virtual_range == virtual_range
                && spec_check(t.nodes@, virtual_range) is Ok,
            r matches Err(e) ==> exists|nodes: Seq<ITreeNode<Data>>|
                laid_out(nodes, sort_ivals(intervals@)) && spec_check(nodes, virtual_range) == Err::<(), ITreeError>(e),
            r matches Ok(t) ==> ((forall|k: int| 0 <= k < intervals@.len() ==> !(#[trigger] intervals@[k]).spec_is_none())
                ==> t.in_order() == sort_ivals(intervals@)),
            r matches Ok(t) ==> ((forall|k: int|
                0 <= k < intervals@.len() ==> !(#[trigger] intervals@[k]).spec_is_none() && intervals@[k].start <= intervals@[k].end)
                ==> t.is_search_tree()),
            disjoint_intervals(intervals@, virtual_range) ==> r is Ok,
    {
        let ghost input = intervals@;
        proof {
            lemma_sort_ivals_elems(input);
        }
        let srt = sort_intervals(intervals);
        let nodes = lay_out(srt);
        proof {
            if disjoint_intervals(input, virtual_range) {
                lemma_sorted_disjoint(input, virtual_range);
                law_laid_out_accepted(nodes@, sort_ivals(input), virtual_range);
            }
        }
        let r = ITree::new(nodes, virtual_range);
        proof {
            if r is Ok {
                let t = r->Ok_0;
                if forall|k: int| 0 <= k < input.len() ==> !(#[trigger] input[k]).spec_is_none() {
                    let so = sort_ivals(input);
                    assert forall|k: int| 0 <= k < so.len() implies !(#[trigger] so[k]).spec_is_none() by {
                        let j = choose|j: int| 0 <= j < input.len() && so[k] == input[j];
                    }
                    lemma_laid_out_in_order(t.nodes@, so);
                }
                if forall|k: int|
                    0 <= k < input.len() ==> !(#[trigger] input[k]).spec_is_none() && input[k].start <= input[k].end {
                    law_built_search_tree(input, t, virtual_range);
                }
            }
        }
        r
    }


    /// A tree with a single interval spanning the whole range
    pub fn single(virtual_range: (u64, u64), data: Data) -> (r: Self)
        ensures
            r.virtual_range == virtual_range,
            r.nodes@.len() == 1,
            r.nodes@[0].wf(),
            r.nodes@[0].ranges@[0] == (Interval { start: virtual_range.0, end: virtual_range.1, data }),
            forall|i: int| 1 <= i < 3 ==> slot_empty(#[trigger] r.nodes@[0].ranges@[i]),
    {
        let mut nodes = Vec::new();
        nodes.push(ITreeNode::single(Interval { start: virtual_range.0, end: virtual_range.1, data }));
        ITree { nodes, virtual_range }
    }

    /// A tree with no interval: the whole range resolves implicitly
    pub fn single_default(virtual_range: (u64, u64)) -> (r: Self)
        ensures
            r.virtual_range == virtual_range,
            r.nodes@.len() == 0,
    {
        ITree { nodes: Vec::new(), virtual_range }
    }

    /// Take ownership of the [`ITree`], leaving it empty
    pub fn take(&mut self) -> (r: Self)
        ensures
            r.nodes@ == old(self).nodes@,
            r.virtual_range == old(self).virtual_range,
            final(self).nodes@.len() == 0,
            final(self).virtual_range == old(self).virtual_range,
    {
        let mut nodes = Vec::new();
        core::mem::swap(&mut nodes, &mut self.nodes);
        ITree { nodes, virtual_range: self.virtual_range }
    }

    /// Number of intervals in the [`ITree`]
    pub fn n_explicit_intervals(&self) -> (r: usize)
        requires
            nodes_wf(self.nodes@),
            self.nodes@.len() <= usize::MAX / 16,
        ensures
            r == sum_nodes(self.nodes@, |s: Seq<Interval<Data>>| count_present(s)),
    {
        let ghost f = |s: Seq<Interval<Data>>| count_present(s);
        let mut acc: usize = 0;
        let mut i: usize = 0;
        while i < self.nodes.len()
            invariant
                i <= self.nodes@.len(),
                f == (|s: Seq<Interval<Data>>| count_present(s)),
                self.nodes@.len() <= usize::MAX / 16,
                nodes_wf(self.nodes@),
                acc == sum_nodes(self.nodes@.take(i as int), f),
                acc <= 3 * i,
            decreases self.nodes@.len() - i,
        {
            proof {
                lemma_sum_nodes_step(self.nodes@, f, i as int);
                lemma_count_present_le(self.nodes@[i as int].ranges@);
                assert(self.nodes@[i as int].wf());
            }
            acc = acc + self.nodes[i].n_intervals();
            i = i + 1;
        }
        assert(self.nodes@.take(i as int) =~= self.nodes@);
        acc
    }

    /// Number of data holding intervals in the [`ITree`]
    pub fn n_data_intervals(&self) -> (r: usize)
        requires
            nodes_wf(self.nodes@),
            self.nodes@.len() <= usize::MAX / 16,
        ensures
            r == sum_nodes(self.nodes@, |s: Seq<Interval<Data>>| count_data(s)),
    {
        let ghost f = |s: Seq<Interval<Data>>| count_data(s);
        let mut acc: usize = 0;
        let mut i: usize = 0;
        while i < self.nodes.len()
            invariant
                i <= self.nodes@.len(),
                f == (|s: Seq<Interval<Data>>| count_data(s)),
                self.nodes@.len() <= usize::MAX / 16,
                nodes_wf(self.nodes@),
                acc == sum_nodes(self.nodes@.take(i as int), f),
                acc <= 3 * i,
            decreases self.nodes@.len() - i,
        {
            proof {
                lemma_sum_nodes_step(self.nodes@, f, i as int);
                lemma_count_data_le(self.nodes@[i as int].ranges@);
                assert(self.nodes@[i as int].wf());
            }
            acc = acc + self.nodes[i].n_data_intervals();
            i = i + 1;
        }
        assert(self.nodes@.take(i as int) =~= self.nodes@);
        acc
    }

    /// How much of the interval tree consists of zero page mappings
    pub fn zero_byte_size(&self) -> (r: u64)
        requires
            forall|i: int| 0 <= i < self.nodes@.len() ==> all_bounds_ok(#[trigger] self.nodes@[i].ranges@),
            sum_nodes(self.nodes@, |s: Seq<Interval<Data>>| zero_size(s)) <= u64::MAX,
        ensures
            r == sum_nodes(self.nodes@, |s: Seq<Interval<Data>>| zero_size(s)),
    {
        let ghost f = |s: Seq<Interval<Data>>| zero_size(s);
        let mut acc: u64 = 0;
        let mut i: usize = 0;
        proof {
            lemma_sum_nodes_prefix(self.nodes@, f, self.nodes@.len() as int);
            assert(self.nodes@.take(self.nodes@.len() as int) =~= self.nodes@);
        }
        while i < self.nodes.len()
            invariant
                i <= self.nodes@.len(),
                f == (|s: Seq<Interval<Data>>| zero_size(s)),
                forall|i: int| 0 <= i < self.nodes@.len() ==> all_bounds_ok(#[trigger] self.nodes@[i].ranges@),
                acc == sum_nodes(self.nodes@.take(i as int), f),
                forall|j: int| 0 <= j <= self.nodes@.len() ==> sum_nodes(#[trigger] self.nodes@.take(j), f) <= sum_nodes(self.nodes@, f),
                sum_nodes(self.nodes@, f) <= u64::MAX,
            decreases self.nodes@.len() - i,
        {
            proof {
                lemma_sum_nodes_step(self.nodes@, f, i as int);
            }
            acc = acc + self.nodes[i].zero_byte_size();
            i = i + 1;
        }
        assert(self.nodes@.take(i as int) =~= self.nodes@);
        acc
    }

    /// How much of the interval tree consists of private page mappings (i.e., data in the JIF)
    pub fn private_data_size(&self) -> (r: u64)
        requires
            forall|i: int| 0 <= i < self.nodes@.len() ==> all_bounds_ok(#[trigger] self.nodes@[i].ranges@),
            sum_nodes(self.nodes@, |s: Seq<Interval<Data>>| data_size(s)) <= u64::MAX,
        ensures
            r == sum_nodes(self.nodes@, |s: Seq<Interval<Data>>| data_size(s)),
    {
        let ghost f = |s: Seq<Interval<Data>>| data_size(s);
        let mut acc: u64 = 0;
        let mut i: usize = 0;
        proof {
            lemma_sum_nodes_prefix(self.nodes@, f, self.nodes@.len() as int);
            assert(self.nodes@.take(self.nodes@.len() as int) =~= self.nodes@);
        }
        while i < self.nodes.len()
            invariant
                i <= self.nodes@.len(),
                f == (|s: Seq<Interval<Data>>| data_size(s)),
                forall|i: int| 0 <= i < self.nodes@.len() ==> all_bounds_ok(#[trigger] self.nodes@[i].ranges@),
                acc == sum_nodes(self.nodes@.take(i as int), f),
                forall|j: int| 0 <= j <= self.nodes@.len() ==> sum_nodes(#[trigger] self.nodes@.take(j), f) <= sum_nodes(self.nodes@, f),
                sum_nodes(self.nodes@, f) <= u64::MAX,
            decreases self.nodes@.len() - i,
        {
            proof {
                lemma_sum_nodes_step(self.nodes@, f, i as int);
            }
            acc = acc + self.nodes[i].private_data_size();
            i = i + 1;
        }
        assert(self.nodes@.take(i as int) =~= self.nodes@);
        acc
    }

    /// How much of a particular `[start; end)` sub-interval of the address space does the interval
    /// tree explicitely map
    pub fn explicitely_mapped_subregion_size(&self, start: u64, end: u64) -> (r: u64)
        requires
            sum_nodes(self.nodes@, |s: Seq<Interval<Data>>| mapped_in(s, start, end)) <= u64::MAX,
        ensures
            r == sum_nodes(self.nodes@, |s: Seq<Interval<Data>>| mapped_in(s, start, end)),
    {
        let ghost f = |s: Seq<Interval<Data>>| mapped_in(s, start, end);
        let mut acc: u64 = 0;
        let mut i: usize = 0;
        proof {
            lemma_sum_nodes_prefix(self.nodes@, f, self.nodes@.len() as int);
            assert(self.nodes@.take(self.nodes@.len() as int) =~= self.nodes@);
        }
        while i < self.nodes.len()
            invariant
                i <= self.nodes@.len(),
                acc == sum_nodes(self.nodes@.take(i as int), f),
                forall|j: int| 0 <= j <= self.nodes@.len() ==> sum_nodes(#[trigger] self.nodes@.take(j), f) <= sum_nodes(self.nodes@, f),
                sum_nodes(self.nodes@, f) <= u64::MAX,
                f == (|s: Seq<Interval<Data>>| mapped_in(s, start, end)),
            decreases self.nodes@.len() - i,
        {
            proof {
                lemma_sum_nodes_step(self.nodes@, f, i as int);
            }
            acc = acc + self.nodes[i].explicitely_mapped_subregion_size(start, end);
            i = i + 1;
        }
        assert(self.nodes@.take(i as int) =~= self.nodes@);
        acc
    }

    /// How much of a particular `[start; end)` sub-interval of the address space
    /// does this interval tree map implicitely
    pub fn implicitely_mapped_subregion_size(&self, start: u64, end: u64) -> (r: u64)
        requires
            start <= end,
            sum_nodes(self.nodes@, |s: Seq<Interval<Data>>| mapped_in(s, start, end)) <= end - start,
        ensures
            r == (end - start) - sum_nodes(self.nodes@, |s: Seq<Interval<Data>>| mapped_in(s, start, end)),
    {
        (end - start) - self.explicitely_mapped_subregion_size(start, end)
    }

    /// The intervals of the tree, node after node
    pub fn into_iter_intervals(self) -> (r: Vec<Interval<Data>>)
        ensures
            r@ == flat(self.nodes@),
    {
        let ghost nodes = self.nodes@;
        let mut rest = self.nodes;
        let total = rest.len();
        let mut rev: Vec<ITreeNode<Data>> = Vec::new();
        // take the nodes out from the back, then put their intervals in node order
        while rest.len() > 0
            invariant
                total == nodes.len(),
                rest@.len() <= nodes.len(),
                rest@ == nodes.take(rest@.len() as int),
                rev@.len() == nodes.len() - rest@.len(),
                forall|j: int| 0 <= j < rev@.len() ==> #[trigger] rev@[j] == nodes[nodes.len() - 1 - j],
            decreases rest@.len(),
        {
            let ghost l = rest@.len() as int;
            let node = rest.pop().unwrap();
            assert(rest@ =~= nodes.take(l - 1));
            rev.push(node);
        }
        let mut out: Vec<Interval<Data>> = Vec::new();
        let mut i: usize = 0;
        assert(flat(nodes.take(0)) =~= Seq::<Interval<Data>>::empty());
        while rev.len() > 0
            invariant
                i <= nodes.len(),
                total == nodes.len(),
                rev@.len() == nodes.len() - i,
                forall|j: int| 0 <= j < rev@.len() ==> #[trigger] rev@[j] == nodes[nodes.len() - 1 - j],
                out@ == flat(nodes.take(i as int)),
            decreases rev@.len(),
        {
            let node = rev.pop().unwrap();
            assert(node == nodes[i as int]);
            let mut ranges = node.ranges;
            proof {
                lemma_flat_step(nodes, i as int);
            }
            out.append(&mut ranges);
            i = i + 1;
        }
        assert(nodes.take(nodes.len() as int) =~= nodes);
        out
    }

    /// Bring owned data into the deduper
    ///
    /// Every interval that owned its data now references a segment of the deduper that holds
    /// the same bytes; the other intervals are left as they were, and the deduper keeps what it
    /// held.
    pub fn dedup(&mut self, deduper: &mut Deduper)
        requires
            nodes_wf(old(self).nodes@),
        ensures
            final(self).virtual_range == old(self).virtual_range,
            final(self).nodes@.len() == old(self).nodes@.len(),
            nodes_wf(final(self).nodes@),
            forall|a: int, b: int| 0 <= a < old(self).nodes@.len() && 0 <= b < 3 ==> dedup_slot(
                #[trigger] old(self).nodes@[a].ranges@[b],
                final(self).nodes@[a].ranges@[b],
                *final(deduper),
            ),
            forall|t: DedupToken| #[trigger] old(deduper).has_token(t) ==> final(deduper).has_token(t)
                && final(deduper).data_of(t) == old(deduper).data_of(t),
    {
        let ghost n0 = self.nodes@;
        let ghost d0 = *deduper;
        let mut a: usize = 0;
        while a < self.nodes.len()
            invariant
                a <= self.nodes@.len(),
                self.nodes@.len() == n0.len(),
                nodes_wf(self.nodes@),
                nodes_wf(n0),
                self.virtual_range == old(self).virtual_range,
                n0 == old(self).nodes@,
                d0 == *old(deduper),
                forall|x: int, b: int| 0 <= x < a && 0 <= b < 3 ==> dedup_slot(
                    #[trigger] n0[x].ranges@[b],
                    self.nodes@[x].ranges@[b],
                    *deduper,
                ),
                forall|x: int| a <= x < n0.len() ==> #[trigger] self.nodes@[x] == n0[x],
                forall|t: DedupToken| #[trigger] d0.has_token(t) ==> deduper.has_token(t) && deduper.data_of(t) == d0.data_of(t),
            decreases self.nodes@.len() - a,
        {
            let mut b: usize = 0;
            assert(self.nodes@[a as int].wf());
            while b < 3
                invariant
                    a < self.nodes@.len(),
                    b <= 3,
                    self.nodes@.len() == n0.len(),
                    nodes_wf(self.nodes@),
                    nodes_wf(n0),
                    self.virtual_range == old(self).virtual_range,
                    n0 == old(self).nodes@,
                    d0 == *old(deduper),
                    forall|x: int, bb: int| 0 <= x < a && 0 <= bb < 3 ==> dedup_slot(
                        #[trigger] n0[x].ranges@[bb],
                        self.nodes@[x].ranges@[bb],
                        *deduper,
                    ),
                    forall|bb: int| 0 <= bb < b ==> dedup_slot(
                        #[trigger] n0[a as int].ranges@[bb],
                        self.nodes@[a as int].ranges@[bb],
                        *deduper,
                    ),
                    forall|bb: int| b <= bb < 3 ==> #[trigger] self.nodes@[a as int].ranges@[bb] == n0[a as int].ranges@[bb],
                    forall|x: int| a < x < n0.len() ==> #[trigger] self.nodes@[x] == n0[x],
                    forall|t: DedupToken| #[trigger] d0.has_token(t) ==> deduper.has_token(t) && deduper.data_of(t) == d0.data_of(t),
                decreases 3 - b,
            {
                let ghost dbefore = *deduper;
                let ghost sbefore = self.nodes@;
                self.nodes[a].ranges[b].data.dedup(deduper);
                proof {
                    lemma_insert_keeps(dbefore@, n0[a as int].ranges@[b as int].data.owned_bytes());
                    assert forall|t: DedupToken| #[trigger] dbefore.has_token(t) implies deduper.has_token(t)
                        && deduper.data_of(t) == dbefore.data_of(t) by {
                        if n0[a as int].ranges@[b as int].data.kind() == DataKind::Owned {
                            assert(deduper@[t.index()] == dbefore@[t.index()]);
                        }
                    }
                    assert forall|x: int, bb: int| 0 <= x < a && 0 <= bb < 3 implies dedup_slot(
                        #[trigger] n0[x].ranges@[bb],
                        self.nodes@[x].ranges@[bb],
                        *deduper,
                    ) by {
                        assert(self.nodes@[x] == sbefore[x]);
                        assert(dedup_slot(n0[x].ranges@[bb], sbefore[x].ranges@[bb], dbefore));
                    }
                    assert forall|bb: int| 0 <= bb <= b implies dedup_slot(
                        #[trigger] n0[a as int].ranges@[bb],
                        self.nodes@[a as int].ranges@[bb],
                        *deduper,
                    ) by {
                        if bb < b {
                            assert(self.nodes@[a as int].ranges@[bb] == sbefore[a as int].ranges@[bb]);
                            assert(dedup_slot(n0[a as int].ranges@[bb], sbefore[a as int].ranges@[bb], dbefore));
                        }
                    }
                    assert forall|x: int| 0 <= x < self.nodes@.len() implies (#[trigger] self.nodes@[x]).wf() by {
                        assert(sbefore[x].wf());
                    }
                }
                b = b + 1;
            }
            a = a + 1;
        }
    }

    /// Report the deduper tokens being used, node after node
    pub fn add_tokens_in_use(&self, tokens_in_use: &mut Vec<DedupToken>)
        requires
            nodes_wf(self.nodes@),
        ensures
            final(tokens_in_use)@ == old(tokens_in_use)@ + ref_tokens(flat(self.nodes@)),
    {
        let mut i: usize = 0;
        let ghost start = tokens_in_use@;
        assert(flat(self.nodes@.take(0)) =~= Seq::<Interval<Data>>::empty());
        assert(ref_tokens(Seq::<Interval<Data>>::empty()) =~= Seq::<DedupToken>::empty());
        assert(start + Seq::<DedupToken>::empty() =~= start);
        while i < self.nodes.len()
            invariant
                i <= self.nodes@.len(),
                nodes_wf(self.nodes@),
                start == old(tokens_in_use)@,
                tokens_in_use@ == start + ref_tokens(flat(self.nodes@.take(i as int))),
            decreases self.nodes@.len() - i,
        {
            let node = &self.nodes[i];
            assert(self.nodes@[i as int].wf());
            let ghost base = flat(self.nodes@.take(i as int));
            let mut j: usize = 0;
            assert(base + node.ranges@.take(0) =~= base);
            while j < 3
                invariant
                    j <= 3,
                    node.ranges@.len() == 3,
                    tokens_in_use@ == start + ref_tokens(base + node.ranges@.take(j as int)),
                decreases 3 - j,
            {
                assert((base + node.ranges@.take(j + 1)).drop_last() =~= base + node.ranges@.take(j as int));
                assert((base + node.ranges@.take(j + 1)).last() == node.ranges@[j as int]);
                match node.ranges[j].data.dedup_token() {
                    Some(tok) => {
                        tokens_in_use.push(tok);
                    },
                    None => {},
                }
                let ghost before = ref_tokens(base + node.ranges@.take(j as int));
                assert(tokens_in_use@ =~= start + ref_tokens(base + node.ranges@.take(j + 1)));
                j = j + 1;
            }
            proof {
                lemma_flat_step(self.nodes@, i as int);
                assert(node.ranges@.take(3) =~= node.ranges@);
            }
            i = i + 1;
        }
        assert(self.nodes@.take(self.nodes@.len() as int) =~= self.nodes@);
    }

    /// The private pages of the interval tree, in order
    pub fn iter_private_pages<'a>(&'a self, deduper: &'a Deduper) -> (r: Vec<&'a [u8]>)
        requires
            nodes_wf(self.nodes@),
            refs_held(self.in_order(), *deduper),
        ensures
            r@.len() == private_pages_of(self.in_order(), *deduper).len(),
            forall|k: int| 0 <= k < r@.len() ==> (#[trigger] r@[k])@ == private_pages_of(self.in_order(), *deduper)[k],
    {
        let ivs = self.in_order_intervals();
        let ghost io = self.in_order();
        let mut out: Vec<&'a [u8]> = Vec::new();
        let mut k: usize = 0;
        assert(io.take(0) =~= Seq::<Interval<Data>>::empty());
        while k < ivs.len()
            invariant
                k <= ivs@.len(),
                ivs@.len() == io.len(),
                forall|j: int| 0 <= j < ivs@.len() ==> *(#[trigger] ivs@[j]) == io[j],
                refs_held(io, *deduper),
                out@.len() == private_pages_of(io.take(k as int), *deduper).len(),
                forall|j: int| 0 <= j < out@.len() ==> (#[trigger] out@[j])@ == private_pages_of(io.take(k as int), *deduper)[j],
            decreases ivs@.len() - k,
        {
            let iv = ivs[k];
            assert(io.take(k + 1).drop_last() =~= io.take(k as int));
            assert(io.take(k + 1).last() == io[k as int]);
            assert(*iv == io[k as int]);
            if iv.data.is_data() {
                let d = iv.data.get_data(deduper).unwrap();
                let ghost pages = pages_of(d@);
                let ghost before = private_pages_of(io.take(k as int), *deduper);
                assert(d@ == data_bytes(*iv, *deduper));
                let dl = d.len();
                let n = dl / PAGE_SIZE;
                let mut p: usize = 0;
                while p < n
                    invariant
                        p <= n,
                        dl == d@.len(),
                        n == dl / 4096,
                        n == d@.len() / (PAGE_SIZE as nat),
                        out@.len() == before.len() + p,
                        forall|j: int| 0 <= j < before.len() ==> (#[trigger] out@[j])@ == before[j],
                        forall|j: int| 0 <= j < p ==> (#[trigger] out@[before.len() + j])@ == pages[j],
                        pages == pages_of(d@),
                    decreases n - p,
                {
                    assert(p * 4096 + 4096 <= dl) by (nonlinear_arith)
                        requires
                            p < n,
                            n == dl / 4096,
                    ;
                    let lo = p * PAGE_SIZE;
                    let hi = lo + PAGE_SIZE;
                    assert(lo == p * (PAGE_SIZE as int) && hi == (p + 1) * (PAGE_SIZE as int)) by (nonlinear_arith)
                        requires
                            lo == p * 4096,
                            hi == lo + 4096,
                            PAGE_SIZE == 4096,
                    ;
                    let page = vstd::slice::slice_subrange(d, lo, hi);
                    out.push(page);
                    p = p + 1;
                }
                assert forall|j: int| 0 <= j < out@.len() implies (#[trigger] out@[j])@ == private_pages_of(io.take(k + 1), *deduper)[j] by {
                    if j >= before.len() {
                        assert(out@[before.len() + (j - before.len())] == out@[j]);
                    }
                }
            }
            k = k + 1;
        }
        assert(io.take(ivs@.len() as int) =~= io);
        out
    }

    /// The unmapped regions: the gaps between the intervals met in order, from address zero to
    /// the end of the address space
    pub fn iter_unmapped_regions(&self) -> (r: Vec<(u64, u64)>)
        requires
            nodes_wf(self.nodes@),
        ensures
            r@ == chain_gaps(seq![(0u64, self.virtual_range.0)] + self.in_order().map_values(|iv: Interval<Data>| bnd(iv))
                + seq![(self.virtual_range.1, u64::MAX)]),
    {
        let io = self.in_order_bounds();
        let mut chain: Vec<(u64, u64)> = Vec::new();
        chain.push((0u64, self.virtual_range.0));
        let mut k: usize = 0;
        while k < io.len()
            invariant
                k <= io@.len(),
                chain@ == seq![(0u64, self.virtual_range.0)] + io@.take(k as int),
            decreases io@.len() - k,
        {
            chain.push(io[k]);
            assert(chain@ =~= seq![(0u64, self.virtual_range.0)] + io@.take(k + 1));
            k = k + 1;
        }
        assert(io@.take(io@.len() as int) =~= io@);
        chain.push((self.virtual_range.1, u64::MAX));
        assert(chain@ =~= seq![(0u64, self.virtual_range.0)] + io@ + seq![(self.virtual_range.1, u64::MAX)]);
        let ghost c = chain@;
        let mut out: Vec<(u64, u64)> = Vec::new();
        let mut j: usize = 1;
        assert(chain_gaps(c.take(1)) =~= Seq::<(u64, u64)>::empty());
        while j < chain.len()
            invariant
                1 <= j <= c.len(),
                chain@ == c,
                out@ == chain_gaps(c.take(j as int)),
            decreases c.len() - j,
        {
            assert(c.take(j + 1).drop_last() =~= c.take(j as int));
            assert(c.take(j + 1)[j - 1] == c[j - 1]);
            assert(c.take(j + 1)[j as int] == c[j as int]);
            if chain[j - 1].1 < chain[j].0 {
                out.push((chain[j - 1].1, chain[j].0));
            }
            j = j + 1;
        }
        assert(c.take(c.len() as int) =~= c);
        out
    }

    /// Resolve an address in the interval tree, or into the gap in the interval tree it belongs to
    ///
    /// The interval found holds the address. In a search tree, an interval is found exactly when
    /// one holds the address; otherwise the gap runs from the last interval end at or before the
    /// address (or the start of the virtual range) to the first interval start after it (or the
    /// end of the virtual range).
    pub fn resolve(&self, addr: u64) -> (r: Result<&Interval<Data>, (u64, u64)>)
        requires
            nodes_wf(self.nodes@),
        ensures
            r matches Ok(iv) ==> iv.start <= addr < iv.end && exists|a: int, b: int|
                0 <= a < self.nodes@.len() && 0 <= b < 3 && self.nodes@[a].ranges@[b] == *iv,
            self.is_search_tree() ==> (r is Ok <==> holds_addr(sub_bounds(self.nodes@, 0), addr)),
            self.is_search_tree() ==> (r matches Err(g) ==> g == (
                gap_lo(sub_bounds(self.nodes@, 0), addr, self.virtual_range.0),
                gap_hi(sub_bounds(self.nodes@, 0), addr, self.virtual_range.1),
            )),
            match r {
                Ok(iv) => self.spec_resolve(addr) == Ok::<Interval<Data>, (u64, u64)>(*iv),
                Err(g) => self.spec_resolve(addr) == Err::<Interval<Data>, (u64, u64)>(g),
            },
    {
        resolve_aux(&self.nodes, addr, 0, self.virtual_range.0, self.virtual_range.1)
    }


    /// Resolve an address into the page of private data that backs it, if any
    pub fn resolve_data<'a>(&'a self, addr: u64, deduper: &'a Deduper) -> (r: Option<&'a [u8]>)
        requires
            nodes_wf(self.nodes@),
            tree_refs_held(self.nodes@, *deduper),
        ensures
            match resolved_page(self.spec_resolve(addr), addr, *deduper) {
                Some(p) => r matches Some(d) && d@ == p,
                None => r is None,
            },
    {
        match self.resolve(addr) {
            Ok(iv) => {
                if iv.is_data() {
                    let d = iv.data.get_data(deduper).unwrap();
                    let off = page_align_down(addr - iv.start);
                    let dl = d.len() as u64;
                    if off <= dl && dl - off >= PAGE_SIZE as u64 {
                        let lo = off as usize;
                        let hi = lo + PAGE_SIZE;
                        Some(vstd::slice::slice_subrange(d, lo, hi))
                    } else {
                        None
                    }
                } else {
                    None
                }
            },
            Err(_) => None,
        }
    }

    /// What looking `addr` up in the tree gives: the interval holding it, or the gap it falls in
    pub open spec fn spec_resolve(&self, addr: u64) -> Result<Interval<Data>, (u64, u64)> {
        match spec_resolve_at(self.nodes@, addr, 0, self.virtual_range.0, self.virtual_range.1) {
            Ok(p) => Ok(self.nodes@[p.0].ranges@[p.1]),
            Err(g) => Err(g),
        }
    }
}

/// The leading present slots are no more than the slots
pub proof fn lemma_present_prefix_le<Data: IntervalData>(s: Seq<Interval<Data>>)
    ensures
        present_prefix_len(s) <= s.len(),
    decreases s.len(),
{
    if s.len() > 0 && !s[0].spec_is_none() {
        lemma_present_prefix_le(s.drop_first());
    }
}

/// Node `j` lies in the subtree rooted at node `a`
pub open spec fn descends(j: int, a: int) -> bool
    decreases j,
{
    if j < 0 {
        false
    } else if j == a {
        true
    } else if j == 0 {
        false
    } else {
        descends((j - 1) / 4, a)
    }
}

/// A descendant is never smaller than its ancestor
pub proof fn lemma_descends_ge(j: int, a: int)
    requires
        descends(j, a),
    ensures
        j >= a,
    decreases j,
{
    if j != a && j > 0 {
        lemma_descends_ge((j - 1) / 4, a);
    }
}

/// A descendant of a node descends from its parent
pub proof fn lemma_descends_parent(j: int, c: int)
    requires
        descends(j, c),
        c > 0,
    ensures
        descends(j, (c - 1) / 4),
    decreases j,
{
    if j != c {
        lemma_descends_parent((j - 1) / 4, c);
    } else {
        assert(descends((c - 1) / 4, (c - 1) / 4));
    }
}

/// The ancestors of a node form a chain
pub proof fn lemma_descends_chain(j: int, a: int, b: int)
    requires
        descends(j, a),
        descends(j, b),
    ensures
        descends(a, b) || descends(b, a),
    decreases j,
{
    if j != a && j != b {
        lemma_descends_chain((j - 1) / 4, a, b);
    }
}

/// Two distinct children of a node share no descendant
pub proof fn lemma_siblings_disjoint(j: int, i: int, k1: int, k2: int)
    requires
        0 <= i,
        0 <= k1 < 4,
        0 <= k2 < 4,
        k1 != k2,
    ensures
        !(descends(j, 4 * i + 1 + k1) && descends(j, 4 * i + 1 + k2)),
{
    let c1 = 4 * i + 1 + k1;
    let c2 = 4 * i + 1 + k2;
    if !(descends(j, c1) && descends(j, c2)) {
        return;
    }
    lemma_descends_chain(j, c1, c2);
    assert((c1 - 1) / 4 == i);
    assert((c2 - 1) / 4 == i);
    if descends(c1, c2) {
        lemma_descends_parent(c1, c2);
        assert(descends((c1 - 1) / 4, c2)) by {
            assert(c1 != c2);
        }
        lemma_descends_ge(i, c2);
    } else {
        assert(descends((c2 - 1) / 4, c1)) by {
            assert(c1 != c2);
        }
        lemma_descends_ge(i, c1);
    }
}

/// Every position of the subtree rooted at node `i` is on a node descending from `i`
pub proof fn lemma_pos_descends(n: int, i: int)
    requires
        0 <= i,
        n <= usize::MAX,
    ensures
        forall|k: int| 0 <= k < sub_pos(n, i).len() ==> descends((#[trigger] sub_pos(n, i)[k]).0 as int, i),
    decreases n - i,
{
    if 0 <= i < n {
        let p0 = if 4 * i + 1 < n { sub_pos(n, 4 * i + 1) } else { Seq::<(usize, usize)>::empty() };
        let p1 = if 4 * i + 2 < n { sub_pos(n, 4 * i + 2) } else { Seq::<(usize, usize)>::empty() };
        let p2 = if 4 * i + 3 < n { sub_pos(n, 4 * i + 3) } else { Seq::<(usize, usize)>::empty() };
        let p3 = if 4 * i + 4 < n { sub_pos(n, 4 * i + 4) } else { Seq::<(usize, usize)>::empty() };
        if 4 * i + 1 < n { lemma_pos_descends(n, 4 * i + 1); }
        if 4 * i + 2 < n { lemma_pos_descends(n, 4 * i + 2); }
        if 4 * i + 3 < n { lemma_pos_descends(n, 4 * i + 3); }
        if 4 * i + 4 < n { lemma_pos_descends(n, 4 * i + 4); }
        let iu = i as usize;
        let whole = sub_pos(n, i);
        assert(whole == p0 + seq![(iu, 0usize)] + p1 + seq![(iu, 1usize)] + p2 + seq![(iu, 2usize)] + p3);
        assert forall|k: int| 0 <= k < whole.len() implies descends((#[trigger] whole[k]).0 as int, i) by {
            let l0 = p0.len() as int;
            let l1 = p1.len() as int;
            let l2 = p2.len() as int;
            if k < l0 {
                assert(whole[k] == p0[k]);
                lemma_descends_parent(p0[k].0 as int, 4 * i + 1);
                assert((4 * i + 1 - 1) / 4 == i);
            } else if k == l0 || k == l0 + 1 + l1 || k == l0 + 2 + l1 + l2 {
            } else if k < l0 + 1 + l1 {
                assert(whole[k] == p1[k - l0 - 1]);
                lemma_descends_parent(p1[k - l0 - 1].0 as int, 4 * i + 2);
                assert((4 * i + 2 - 1) / 4 == i);
            } else if k < l0 + 2 + l1 + l2 {
                assert(whole[k] == p2[k - l0 - 2 - l1]);
                lemma_descends_parent(p2[k - l0 - 2 - l1].0 as int, 4 * i + 3);
                assert((4 * i + 3 - 1) / 4 == i);
            } else {
                assert(whole[k] == p3[k - l0 - 3 - l1 - l2]);
                lemma_descends_parent(p3[k - l0 - 3 - l1 - l2].0 as int, 4 * i + 4);
                assert((4 * i + 4 - 1) / 4 == i);
            }
        }
    }
}

/// The positions of a subtree are distinct
#[verifier::rlimit(60)]
pub proof fn lemma_pos_distinct(n: int, i: int)
    requires
        0 <= i,
        n <= usize::MAX,
    ensures
        sub_pos(n, i).no_duplicates(),
    decreases n - i,
{
    if 0 <= i < n {
        let ps = |k: int| if 4 * i + 1 + k < n { sub_pos(n, 4 * i + 1 + k) } else { Seq::<(usize, usize)>::empty() };
        assert forall|k: int| 0 <= k < 4 implies (#[trigger] ps(k)).no_duplicates() && forall|x: int|
            0 <= x < ps(k).len() ==> descends((#[trigger] ps(k)[x]).0 as int, 4 * i + 1 + k) by {
            if 4 * i + 1 + k < n {
                lemma_pos_distinct(n, 4 * i + 1 + k);
                lemma_pos_descends(n, 4 * i + 1 + k);
            }
        }
        let iu = i as usize;
        let q = |k: int| seq![(iu, k as usize)];
        // every element of the part built so far is a slot of node `i` or lies under an earlier child
        let a1 = ps(0) + q(0);
        let a2 = a1 + ps(1);
        let a3 = a2 + q(1);
        let a4 = a3 + ps(2);
        let a5 = a4 + q(2);
        let a6 = a5 + ps(3);
        assert forall|k: int, x: int| #![trigger ps(k)[x]] 0 <= k < 4 && 0 <= x < ps(k).len() implies ps(k)[x].0 != iu by {
            if ps(k)[x].0 == iu {
                lemma_descends_ge(i, 4 * i + 1 + k);
            }
        }
        assert forall|k1: int, k2: int, x: int, y: int|
            0 <= k1 < k2 < 4 && 0 <= x < ps(k1).len() && 0 <= y < ps(k2).len() implies #[trigger] ps(k1)[x] != #[trigger] ps(k2)[y] by {
            if ps(k1)[x] == ps(k2)[y] {
                lemma_siblings_disjoint(ps(k1)[x].0 as int, i, k1, k2);
            }
        }
        vstd::seq_lib::lemma_no_dup_in_concat(ps(0), q(0));
        assert forall|x: int, y: int| #![trigger a1[x], ps(1)[y]] 0 <= x < a1.len() && 0 <= y < ps(1).len() implies a1[x] != ps(1)[y] by {
            if x < ps(0).len() {
                assert(a1[x] == ps(0)[x]);
            }
        }
        vstd::seq_lib::lemma_no_dup_in_concat(a1, ps(1));
        assert forall|x: int, y: int| #![trigger a2[x], q(1)[y]] 0 <= x < a2.len() && 0 <= y < q(1).len() implies a2[x] != q(1)[y] by {
            if x < ps(0).len() {
                assert(a2[x] == ps(0)[x]);
            } else if x == ps(0).len() {
            } else {
                assert(a2[x] == ps(1)[x - ps(0).len() - 1]);
            }
        }
        vstd::seq_lib::lemma_no_dup_in_concat(a2, q(1));
        assert forall|x: int, y: int| #![trigger a3[x], ps(2)[y]] 0 <= x < a3.len() && 0 <= y < ps(2).len() implies a3[x] != ps(2)[y] by {
            if x < ps(0).len() {
                assert(a3[x] == ps(0)[x]);
            } else if x == ps(0).len() || x == a3.len() - 1 {
            } else {
                assert(a3[x] == ps(1)[x - ps(0).len() - 1]);
            }
        }
        vstd::seq_lib::lemma_no_dup_in_concat(a3, ps(2));
        assert forall|x: int, y: int| #![trigger a4[x], q(2)[y]] 0 <= x < a4.len() && 0 <= y < q(2).len() implies a4[x] != q(2)[y] by {
            let l0 = ps(0).len() as int;
            let l1 = ps(1).len() as int;
            if x < l0 {
                assert(a4[x] == ps(0)[x]);
            } else if x == l0 || x == l0 + 1 + l1 {
            } else if x < l0 + 1 + l1 {
                assert(a4[x] == ps(1)[x - l0 - 1]);
            } else {
                assert(a4[x] == ps(2)[x - l0 - 2 - l1]);
            }
        }
        vstd::seq_lib::lemma_no_dup_in_concat(a4, q(2));
        assert forall|x: int, y: int| #![trigger a5[x], ps(3)[y]] 0 <= x < a5.len() && 0 <= y < ps(3).len() implies a5[x] != ps(3)[y] by {
            let l0 = ps(0).len() as int;
            let l1 = ps(1).len() as int;
            let l2 = ps(2).len() as int;
            if x < l0 {
                assert(a5[x] == ps(0)[x]);
            } else if x == l0 || x == l0 + 1 + l1 || x == l0 + 2 + l1 + l2 {
            } else if x < l0 + 1 + l1 {
                assert(a5[x] == ps(1)[x - l0 - 1]);
            } else if x < l0 + 2 + l1 + l2 {
                assert(a5[x] == ps(2)[x - l0 - 2 - l1]);
            }
        }
        vstd::seq_lib::lemma_no_dup_in_concat(a5, ps(3));
        assert(sub_pos(n, i) == a6);
    }
}

/// Every node descends from the root
pub proof fn lemma_descends_root(j: int)
    requires
        j >= 0,
    ensures
        descends(j, 0),
    decreases j,
{
    if j > 0 {
        lemma_descends_root((j - 1) / 4);
    }
}

/// A proper descendant of node `i` descends from one of its children
pub proof fn lemma_descends_child(j: int, i: int) -> (k: int)
    requires
        i >= 0,
        descends(j, i),
        j != i,
    ensures
        0 <= k < 4,
        descends(j, 4 * i + 1 + k),
    decreases j,
{
    let p = (j - 1) / 4;
    if p == i {
        assert(descends(j, j));
        j - 1 - 4 * i
    } else {
        let k = lemma_descends_child(p, i);
        if j != 4 * i + 1 + k {
            assert(descends(j, 4 * i + 1 + k) == descends(p, 4 * i + 1 + k));
        }
        k
    }
}

/// Every slot of a node under node `i` is a position of the subtree rooted at `i`
#[verifier::rlimit(40)]
pub proof fn lemma_pos_contains(n: int, i: int, j: int, b: int)
    requires
        0 <= i <= j < n,
        n <= usize::MAX,
        descends(j, i),
        0 <= b < 3,
    ensures
        sub_pos(n, i).contains((j as usize, b as usize)),
    decreases j - i,
{
    let p0 = if 4 * i + 1 < n { sub_pos(n, 4 * i + 1) } else { Seq::<(usize, usize)>::empty() };
    let p1 = if 4 * i + 2 < n { sub_pos(n, 4 * i + 2) } else { Seq::<(usize, usize)>::empty() };
    let p2 = if 4 * i + 3 < n { sub_pos(n, 4 * i + 3) } else { Seq::<(usize, usize)>::empty() };
    let p3 = if 4 * i + 4 < n { sub_pos(n, 4 * i + 4) } else { Seq::<(usize, usize)>::empty() };
    let iu = i as usize;
    let whole = sub_pos(n, i);
    let l0 = p0.len() as int;
    let l1 = p1.len() as int;
    let l2 = p2.len() as int;
    assert(whole == p0 + seq![(iu, 0usize)] + p1 + seq![(iu, 1usize)] + p2 + seq![(iu, 2usize)] + p3);
    let e = (j as usize, b as usize);
    if j == i {
        if b == 0 {
            assert(whole[l0] == e);
        } else if b == 1 {
            assert(whole[l0 + 1 + l1] == e);
        } else {
            assert(whole[l0 + 2 + l1 + l2] == e);
        }
    } else {
        let k = lemma_descends_child(j, i);
        let c = 4 * i + 1 + k;
        lemma_descends_ge(j, c);
        lemma_pos_contains(n, c, j, b);
        let x = choose|x: int| 0 <= x < sub_pos(n, c).len() && sub_pos(n, c)[x] == e;
        if k == 0 {
            assert(whole[x] == e);
        } else if k == 1 {
            assert(whole[l0 + 1 + x] == e);
        } else if k == 2 {
            assert(whole[l0 + 2 + l1 + x] == e);
        } else {
            assert(whole[l0 + 3 + l1 + l2 + x] == e);
        }
    }
}

/// An `n`-node tree has three positions per node
pub proof fn lemma_sub_pos_len(n: int, i: int)
    requires
        0 <= n <= usize::MAX,
        i == 0,
    ensures
        sub_pos(n, i).len() == 3 * n,
{
    let s = sub_pos(n, 0);
    lemma_pos_distinct(n, 0);
    lemma_pos_valid(n, 0);
    let f = |p: (usize, usize)| 3 * (p.0 as int) + (p.1 as int);
    let m = s.map_values(f);
    assert forall|x: int, y: int| 0 <= x < y < m.len() implies m[x] != m[y] by {
        assert(s[x] != s[y]);
        assert(s[x].1 < 3 && s[y].1 < 3);
    }
    assert(m.no_duplicates());
    m.unique_seq_to_set();
    let r = vstd::set_lib::set_int_range(0, 3 * n);
    assert forall|v: int| m.to_set().contains(v) implies r.contains(v) by {
        let x = choose|x: int| 0 <= x < m.len() && m[x] == v;
        assert(s[x].0 < n && s[x].1 < 3);
    }
    assert forall|v: int| r.contains(v) implies m.to_set().contains(v) by {
        let j = v / 3;
        let b = v % 3;
        lemma_descends_root(j);
        lemma_pos_contains(n, 0, j, b);
        let x = choose|x: int| 0 <= x < s.len() && s[x] == (j as usize, b as usize);
        assert(m[x] == v);
    }
    vstd::set_lib::lemma_int_range(0, 3 * n);
    vstd::set_lib::lemma_len_subset(m.to_set(), r);
    vstd::set_lib::lemma_len_subset(r, m.to_set());
}

/// Each position contributes at most two logical intervals, and the ends at most two more
pub proof fn lemma_logical_count_le(s: Seq<(u64, u64)>, vr: (u64, u64))
    ensures
        logical_count(s, vr) <= 2 * s.len() + 2,
{
    lemma_share_upto_le(s, s.len() as int);
}

/// Partial sums of contributions are at most two per position
pub proof fn lemma_share_upto_le(s: Seq<(u64, u64)>, m: int)
    ensures
        m >= 0 ==> share_upto(s, m) <= 2 * m,
    decreases m,
{
    if m > 0 {
        lemma_share_upto_le(s, m - 1);
    }
}

} // verus!
