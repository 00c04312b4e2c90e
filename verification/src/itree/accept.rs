//! Trees laid out from intervals that do not overlap pass the checks of [`ITree::new`]
//!
//! [`ITree::new`]: crate::itree::tree::ITree::new

use vstd::prelude::*;
use vstd::multiset::Multiset;
use crate::itree::interval::{Interval, IntervalData};
use crate::itree::itree_node::ITreeNode;
use crate::itree::tree::{bnd, iv_insert_pos, lemma_iv_insert_pos_bounds, lemma_sort_ivals_elems, sort_ivals, first_out_of_range, first_overlap, flat, insert_pos, laid_out, lemma_descends_root,
    lemma_laid_out_in_order, lemma_laid_out_slots, lemma_pos_contains, lemma_slots_pos, lemma_sorted_member,
    lemma_sub_pos_len, logical_count, present_bounds, present_prefix_len, share_upto, sort_by_start, spec_check,
    sub_pos, sub_slots};
use crate::fragment::{lemma_flat_index, lemma_flat_len, lemma_insert_pos_bounds};

verus! {

/// Each bound of the mapped slots is that of a mapped slot
pub proof fn lemma_present_bounds_from<Data: IntervalData>(s: Seq<Interval<Data>>, x: (u64, u64)) -> (j: int)
    requires
        present_bounds(s).contains(x),
    ensures
        0 <= j < s.len(),
        !s[j].spec_is_none(),
        bnd(s[j]) == x,
    decreases s.len(),
{
    if s.len() == 0 {
        assert(present_bounds(s).len() == 0);
        assert(false);
        0
    } else {
        let t = s.drop_last();
        let pt = present_bounds(t);
        if pt.contains(x) {
            let j = lemma_present_bounds_from(t, x);
            assert(s[j] == t[j]);
            j
        } else {
            let i = choose|i: int| 0 <= i < present_bounds(s).len() && present_bounds(s)[i] == x;
            if s.last().spec_is_none() {
                assert(present_bounds(s) =~= pt);
                assert(pt[i] == x);
                assert(false);
            } else {
                assert(present_bounds(s) == pt + seq![bnd(s.last())]);
                if i < pt.len() {
                    assert(pt[i] == x);
                    assert(false);
                }
            }
            s.len() - 1
        }
    }
}

/// A mapped slot of a laid-out tree holds one of the intervals laid out, at its node and slot
pub proof fn lemma_laid_out_flat<Data: IntervalData>(nodes: Seq<ITreeNode<Data>>, srt: Seq<Interval<Data>>, j: int) -> (q: int)
    requires
        laid_out(nodes, srt),
        nodes.len() <= usize::MAX,
        0 <= j < flat(nodes).len(),
        !flat(nodes)[j].spec_is_none(),
    ensures
        0 <= q < srt.len(),
        flat(nodes)[j] == srt[q],
        sub_pos(nodes.len() as int, 0)[q] == ((j / 3) as usize, (j % 3) as usize),
{
    let n = nodes.len() as int;
    lemma_flat_len(nodes);
    let i = j / 3;
    let c = j % 3;
    assert(3 * i + c == j);
    lemma_flat_index(nodes, i, c);
    lemma_descends_root(i);
    lemma_pos_contains(n, 0, i, c);
    let ps = sub_pos(n, 0);
    let q = choose|q: int| 0 <= q < ps.len() && ps[q] == (i as usize, c as usize);
    lemma_sub_pos_len(n, 0);
    lemma_laid_out_slots(nodes, srt);
    lemma_slots_pos(nodes, 0);
    assert(sub_slots(nodes, 0)[q] == nodes[i].ranges@[c]);
    if q >= srt.len() {
        assert(flat(nodes)[j].start == u64::MAX);
        assert(false);
    }
    q
}

/// Intervals that are not empty, each ending at or before the next one starts, end at or before
/// any later one starts
proof fn lemma_chain<Data: IntervalData>(srt: Seq<Interval<Data>>, a: int, b: int)
    requires
        forall|k: int| 0 <= k < srt.len() ==> (#[trigger] srt[k]).start < srt[k].end,
        forall|k: int| 0 <= k && k + 1 < srt.len() ==> (#[trigger] srt[k]).end <= srt[k + 1].start,
        0 <= a < b < srt.len(),
    ensures
        srt[a].end <= srt[b].start,
    decreases b - a,
{
    if b > a + 1 {
        lemma_chain(srt, a, b - 1);
    }
}

/// Slots whose bounds differ pairwise give bounds that occur once each
proof fn lemma_present_bounds_distinct<Data: IntervalData>(s: Seq<Interval<Data>>)
    requires
        forall|a: int, b: int| 0 <= a < b < s.len() && !(#[trigger] s[a]).spec_is_none() && !(#[trigger] s[b]).spec_is_none()
            ==> bnd(s[a]) != bnd(s[b]),
    ensures
        present_bounds(s).no_duplicates(),
    decreases s.len(),
{
    if s.len() > 0 {
        let t = s.drop_last();
        assert forall|a: int, b: int| 0 <= a < b < t.len() && !(#[trigger] t[a]).spec_is_none() && !(#[trigger] t[b]).spec_is_none()
            implies bnd(t[a]) != bnd(t[b]) by {
            assert(t[a] == s[a] && t[b] == s[b]);
        }
        lemma_present_bounds_distinct(t);
        let pt = present_bounds(t);
        if s.last().spec_is_none() {
            assert(present_bounds(s) =~= pt);
        } else {
            let x = bnd(s.last());
            if pt.contains(x) {
                let j = lemma_present_bounds_from(t, x);
                assert(s[j] == t[j]);
                assert(s[s.len() - 1] == s.last());
                assert(false);
            }
            assert(present_bounds(s) == pt + seq![x]);
            vstd::seq_lib::lemma_no_dup_in_concat(pt, seq![x]);
        }
    }
}

/// Sorting keeps every bound as many times as it occurs
proof fn lemma_sort_to_multiset(s: Seq<(u64, u64)>)
    ensures
        sort_by_start(s).to_multiset() =~= s.to_multiset(),
    decreases s.len(),
{
    broadcast use vstd::seq_lib::group_to_multiset_ensures, vstd::multiset::group_multiset_axioms;
    if s.len() > 0 {
        let t = sort_by_start(s.drop_last());
        let x = s.last();
        lemma_sort_to_multiset(s.drop_last());
        lemma_insert_pos_bounds(t, x);
        let q = insert_pos(t, x);
        let a = t.take(q);
        let b = t.skip(q);
        assert(sort_by_start(s) == a + seq![x] + b);
        vstd::seq_lib::lemma_multiset_commutative(a + seq![x], b);
        vstd::seq_lib::lemma_multiset_commutative(a, seq![x]);
        vstd::seq_lib::lemma_multiset_commutative(a, b);
        assert(a + b =~= t);
        assert(s.drop_last().push(x) =~= s);
        assert(Seq::<(u64, u64)>::empty().push(x) =~= seq![x]);
        assert(seq![x].to_multiset() =~= Multiset::<(u64, u64)>::empty().insert(x));
    }
}

/// Sorting a list with no bound twice gives a list with no bound twice
proof fn lemma_sort_no_dup(s: Seq<(u64, u64)>)
    requires
        s.no_duplicates(),
    ensures
        sort_by_start(s).no_duplicates(),
{
    lemma_sort_to_multiset(s);
    s.lemma_multiset_has_no_duplicates();
    sort_by_start(s).lemma_multiset_has_no_duplicates_conv();
}

/// Where a bound goes in a list sorted by start: after those that start at or before it, before
/// the one that starts after it
proof fn lemma_insert_pos_between(t: Seq<(u64, u64)>, x: (u64, u64))
    requires
        forall|k: int| 0 <= k && k + 1 < t.len() ==> (#[trigger] t[k]).0 <= t[k + 1].0,
    ensures
        0 <= insert_pos(t, x) <= t.len(),
        insert_pos(t, x) > 0 ==> t[insert_pos(t, x) - 1].0 <= x.0,
        insert_pos(t, x) < t.len() ==> x.0 < t[insert_pos(t, x)].0,
    decreases t.len(),
{
    if t.len() > 0 && t.last().0 > x.0 {
        let u = t.drop_last();
        assert forall|k: int| 0 <= k && k + 1 < u.len() implies (#[trigger] u[k]).0 <= u[k + 1].0 by {
            assert(u[k] == t[k] && u[k + 1] == t[k + 1]);
        }
        lemma_insert_pos_between(u, x);
        let q = insert_pos(u, x);
        if q > 0 {
            assert(u[q - 1] == t[q - 1]);
        }
        if q < u.len() {
            assert(u[q] == t[q]);
        }
    }
}

/// Sorting orders the bounds by start
proof fn lemma_sort_ordered(s: Seq<(u64, u64)>)
    ensures
        forall|k: int| 0 <= k && k + 1 < sort_by_start(s).len() ==> (#[trigger] sort_by_start(s)[k]).0 <= sort_by_start(s)[k + 1].0,
    decreases s.len(),
{
    if s.len() > 0 {
        let t = sort_by_start(s.drop_last());
        let x = s.last();
        lemma_sort_ordered(s.drop_last());
        lemma_insert_pos_between(t, x);
        let q = insert_pos(t, x);
        let r = sort_by_start(s);
        assert(r == t.take(q) + seq![x] + t.skip(q));
        assert forall|k: int| 0 <= k && k + 1 < r.len() implies (#[trigger] r[k]).0 <= r[k + 1].0 by {
            if k + 1 < q {
                assert(r[k] == t[k] && r[k + 1] == t[k + 1]);
            } else if k + 1 == q {
                assert(r[k] == t[k] && r[k + 1] == x);
            } else if k == q {
                assert(r[k] == x && r[k + 1] == t[q]);
            } else {
                assert(r[k] == t[k - 1] && r[k + 1] == t[k]);
            }
        }
    }
}

/// Bounds that all lie within the range leave none out of it
proof fn lemma_none_out_of_range(s: Seq<(u64, u64)>, vr: (u64, u64), j: int)
    requires
        0 <= j,
        forall|k: int| 0 <= k < s.len() ==> vr.0 <= (#[trigger] s[k]).0 && s[k].1 <= vr.1,
    ensures
        first_out_of_range(s, vr, j) is None,
    decreases s.len() - j,
{
    if j < s.len() {
        lemma_none_out_of_range(s, vr, j + 1);
    }
}

/// Bounds that each end at or before the next one starts have no overlap
proof fn lemma_none_overlap(s: Seq<(u64, u64)>, j: int)
    requires
        0 <= j,
        forall|k: int| 0 <= k && k + 1 < s.len() ==> (#[trigger] s[k]).1 <= s[k + 1].0,
    ensures
        first_overlap(s, j) is None,
    decreases s.len() - j,
{
    if j + 1 < s.len() {
        lemma_none_overlap(s, j + 1);
    }
}

/// Each bound in order counts as at least one logical interval
proof fn lemma_share_upto_ge(s: Seq<(u64, u64)>, m: int)
    requires
        0 <= m,
    ensures
        share_upto(s, m) >= m,
    decreases m,
{
    if m > 0 {
        lemma_share_upto_ge(s, m - 1);
    }
}

/// The requirements on the intervals laid out: each maps something, is not empty, lies within
/// the range and ends at or before the next one starts
pub open spec fn disjoint_in_range<Data: IntervalData>(srt: Seq<Interval<Data>>, vr: (u64, u64)) -> bool {
    &&& forall|k: int| 0 <= k < srt.len() ==> !(#[trigger] srt[k]).spec_is_none() && vr.0 <= srt[k].start && srt[k].start
        < srt[k].end && srt[k].end <= vr.1
    &&& forall|k: int| 0 <= k && k + 1 < srt.len() ==> (#[trigger] srt[k]).end <= srt[k + 1].start
}

/// The bound is that of one of the intervals
spec fn bound_laid_out<Data: IntervalData>(x: (u64, u64), srt: Seq<Interval<Data>>) -> bool {
    exists|q: int| 0 <= q < srt.len() && x == bnd(srt[q])
}

/// The mapped slots of a laid-out tree, sorted by start, are the bounds of the intervals laid
/// out, in order and each once
proof fn lemma_sorted_slots<Data: IntervalData>(nodes: Seq<ITreeNode<Data>>, srt: Seq<Interval<Data>>, vr: (u64, u64))
    requires
        laid_out(nodes, srt),
        nodes.len() <= usize::MAX,
        disjoint_in_range(srt, vr),
    ensures
        sort_by_start(present_bounds(flat(nodes))).no_duplicates(),
        forall|k: int| 0 <= k && k + 1 < sort_by_start(present_bounds(flat(nodes))).len() ==> (#[trigger] sort_by_start(
            present_bounds(flat(nodes)),
        )[k]).0 <= sort_by_start(present_bounds(flat(nodes)))[k + 1].0,
        forall|k: int| 0 <= k < sort_by_start(present_bounds(flat(nodes))).len() ==> bound_laid_out(
            #[trigger] sort_by_start(present_bounds(flat(nodes)))[k],
            srt,
        ),
{
    let fl = flat(nodes);
    let pb = present_bounds(fl);
    let sorted = sort_by_start(pb);
    lemma_flat_len(nodes);
    assert forall|a: int, b: int| 0 <= a < b < fl.len() && !(#[trigger] fl[a]).spec_is_none() && !(#[trigger] fl[b]).spec_is_none()
        implies bnd(fl[a]) != bnd(fl[b]) by {
        let qa = lemma_laid_out_flat(nodes, srt, a);
        let qb = lemma_laid_out_flat(nodes, srt, b);
        assert(3 * (a / 3) + a % 3 == a && 3 * (b / 3) + b % 3 == b);
        assert(qa != qb);
        if qa < qb {
            lemma_chain(srt, qa, qb);
        } else {
            lemma_chain(srt, qb, qa);
        }
    }
    lemma_present_bounds_distinct(fl);
    lemma_sort_no_dup(pb);
    lemma_sort_ordered(pb);
    assert forall|k: int| 0 <= k < sorted.len() implies bound_laid_out(#[trigger] sorted[k], srt) by {
        lemma_sorted_member(pb, sorted[k]);
        let j = lemma_present_bounds_from(fl, sorted[k]);
        let q = lemma_laid_out_flat(nodes, srt, j);
        assert(0 <= q < srt.len() && sorted[k] == bnd(srt[q]));
    }
    assert(sorted.no_duplicates());
}

/// The mapped slots of a laid-out tree, sorted by start, lie within the range and do not overlap
proof fn lemma_sorted_slots_ok<Data: IntervalData>(nodes: Seq<ITreeNode<Data>>, srt: Seq<Interval<Data>>, vr: (u64, u64))
    requires
        laid_out(nodes, srt),
        nodes.len() <= usize::MAX,
        disjoint_in_range(srt, vr),
    ensures
        first_out_of_range(sort_by_start(present_bounds(flat(nodes))), vr, 0) is None,
        first_overlap(sort_by_start(present_bounds(flat(nodes))), 0) is None,
{
    let sorted = sort_by_start(present_bounds(flat(nodes)));
    lemma_sorted_slots(nodes, srt, vr);
    assert forall|k: int| 0 <= k < sorted.len() implies vr.0 <= (#[trigger] sorted[k]).0 && sorted[k].1 <= vr.1 by {
        let q = choose|q: int| 0 <= q < srt.len() && sorted[k] == bnd(srt[q]);
    }
    lemma_none_out_of_range(sorted, vr, 0);
    assert forall|k: int| 0 <= k && k + 1 < sorted.len() implies (#[trigger] sorted[k]).1 <= sorted[k + 1].0 by {
        let qa = choose|q: int| 0 <= q < srt.len() && sorted[k] == bnd(srt[q]);
        let qb = choose|q: int| 0 <= q < srt.len() && sorted[k + 1] == bnd(srt[q]);
        assert(sorted[k] != sorted[k + 1]);
        if qa < qb {
            lemma_chain(srt, qa, qb);
        } else {
            assert(qb < qa);
            lemma_chain(srt, qb, qa);
        }
    }
    lemma_none_overlap(sorted, 0);
}

/// The in-order traversal of a laid-out tree meets the intervals laid out, in order, and counts
/// enough logical intervals for its nodes
proof fn lemma_in_order_ok<Data: IntervalData>(nodes: Seq<ITreeNode<Data>>, srt: Seq<Interval<Data>>, vr: (u64, u64))
    requires
        laid_out(nodes, srt),
        nodes.len() <= usize::MAX,
        disjoint_in_range(srt, vr),
    ensures
        ({
            let slots = sub_slots(nodes, 0);
            let io = slots.take(present_prefix_len(slots) as int).map_values(|iv: Interval<Data>| bnd(iv));
            &&& first_overlap(io, 0) is None
            &&& nodes.len() <= (logical_count(io, vr) + 2) / 3
        }),
{
    let slots = sub_slots(nodes, 0);
    lemma_laid_out_in_order(nodes, srt);
    let io = slots.take(present_prefix_len(slots) as int).map_values(|iv: Interval<Data>| bnd(iv));
    assert(io == srt.map_values(|iv: Interval<Data>| bnd(iv)));
    assert forall|k: int| 0 <= k && k + 1 < io.len() implies (#[trigger] io[k]).1 <= io[k + 1].0 by {
        assert(io[k] == bnd(srt[k]) && io[k + 1] == bnd(srt[k + 1]));
    }
    lemma_none_overlap(io, 0);
    let m = srt.len() as int;
    if m > 0 {
        lemma_share_upto_ge(io, m);
        assert(logical_count(io, vr) >= m);
    }
    assert(nodes.len() == (m + 2) / 3);
}

/// A tree laid out from intervals that map something, are not empty, lie within the range and
/// each end at or before the next one starts passes the checks
pub proof fn law_laid_out_accepted<Data: IntervalData>(nodes: Seq<ITreeNode<Data>>, srt: Seq<Interval<Data>>, vr: (u64, u64))
    requires
        laid_out(nodes, srt),
        nodes.len() <= usize::MAX,
        disjoint_in_range(srt, vr),
    ensures
        spec_check(nodes, vr) is Ok,
{
    lemma_sorted_slots_ok(nodes, srt, vr);
    lemma_in_order_ok(nodes, srt, vr);
}

/// Where an interval goes in a list sorted by start: after those that start at or before it,
/// before the one that starts after it
proof fn lemma_iv_insert_pos_between<Data: IntervalData>(t: Seq<Interval<Data>>, x: u64)
    requires
        forall|k: int| 0 <= k && k + 1 < t.len() ==> (#[trigger] t[k]).start <= t[k + 1].start,
    ensures
        0 <= iv_insert_pos(t, x) <= t.len(),
        iv_insert_pos(t, x) > 0 ==> t[iv_insert_pos(t, x) - 1].start <= x,
        iv_insert_pos(t, x) < t.len() ==> x < t[iv_insert_pos(t, x)].start,
    decreases t.len(),
{
    if t.len() > 0 && t.last().start > x {
        let u = t.drop_last();
        assert forall|k: int| 0 <= k && k + 1 < u.len() implies (#[trigger] u[k]).start <= u[k + 1].start by {
            assert(u[k] == t[k] && u[k + 1] == t[k + 1]);
        }
        lemma_iv_insert_pos_between(u, x);
        let q = iv_insert_pos(u, x);
        if q > 0 {
            assert(u[q - 1] == t[q - 1]);
        }
        if q < u.len() {
            assert(u[q] == t[q]);
        }
    }
}

/// Sorting intervals orders them by start
proof fn lemma_sort_ivals_ordered<Data: IntervalData>(s: Seq<Interval<Data>>)
    ensures
        forall|k: int| 0 <= k && k + 1 < sort_ivals(s).len() ==> (#[trigger] sort_ivals(s)[k]).start <= sort_ivals(s)[k + 1].start,
    decreases s.len(),
{
    if s.len() > 0 {
        let t = sort_ivals(s.drop_first());
        let x = s[0];
        lemma_sort_ivals_ordered(s.drop_first());
        lemma_iv_insert_pos_between(t, x.start);
        let q = iv_insert_pos(t, x.start);
        let r = sort_ivals(s);
        assert(r == t.take(q) + seq![x] + t.skip(q));
        assert forall|k: int| 0 <= k && k + 1 < r.len() implies (#[trigger] r[k]).start <= r[k + 1].start by {
            if k + 1 < q {
                assert(r[k] == t[k] && r[k + 1] == t[k + 1]);
            } else if k + 1 == q {
                assert(r[k] == t[k] && r[k + 1] == x);
            } else if k == q {
                assert(r[k] == x && r[k + 1] == t[q]);
            } else {
                assert(r[k] == t[k - 1] && r[k + 1] == t[k]);
            }
        }
    }
}

/// Sorting intervals keeps each as many times as it occurs
proof fn lemma_sort_ivals_to_multiset<Data: IntervalData>(s: Seq<Interval<Data>>)
    ensures
        sort_ivals(s).to_multiset() =~= s.to_multiset(),
    decreases s.len(),
{
    broadcast use vstd::seq_lib::group_to_multiset_ensures, vstd::multiset::group_multiset_axioms;
    if s.len() > 0 {
        let t = sort_ivals(s.drop_first());
        let x = s[0];
        lemma_sort_ivals_to_multiset(s.drop_first());
        lemma_iv_insert_pos_bounds(t, x.start);
        let q = iv_insert_pos(t, x.start);
        let a = t.take(q);
        let b = t.skip(q);
        assert(sort_ivals(s) == a + seq![x] + b);
        vstd::seq_lib::lemma_multiset_commutative(a + seq![x], b);
        vstd::seq_lib::lemma_multiset_commutative(a, seq![x]);
        vstd::seq_lib::lemma_multiset_commutative(a, b);
        vstd::seq_lib::lemma_multiset_commutative(seq![x], s.drop_first());
        assert(a + b =~= t);
        assert(seq![x] + s.drop_first() =~= s);
    }
}

/// Intervals that map something, are not empty, lie within the range and do not overlap
pub open spec fn disjoint_intervals<Data: IntervalData>(ivs: Seq<Interval<Data>>, vr: (u64, u64)) -> bool {
    &&& forall|k: int| 0 <= k < ivs.len() ==> !(#[trigger] ivs[k]).spec_is_none() && vr.0 <= ivs[k].start && ivs[k].start
        < ivs[k].end && ivs[k].end <= vr.1
    &&& forall|i: int, j: int| 0 <= i < j < ivs.len() ==> (#[trigger] ivs[i]).end <= (#[trigger] ivs[j]).start || ivs[j].end
        <= ivs[i].start
}

/// Intervals that do not overlap and are not empty occur once each
proof fn lemma_disjoint_no_dup<Data: IntervalData>(ivs: Seq<Interval<Data>>, vr: (u64, u64))
    requires
        disjoint_intervals(ivs, vr),
    ensures
        ivs.no_duplicates(),
{
    assert forall|i: int, j: int| 0 <= i < ivs.len() && 0 <= j < ivs.len() && i != j implies ivs[i] != ivs[j] by {
        if i < j {
            assert(ivs[i].end <= ivs[j].start || ivs[j].end <= ivs[i].start);
        } else {
            assert(ivs[j].end <= ivs[i].start || ivs[i].end <= ivs[j].start);
        }
    }
}

/// Sorting intervals that occur once each gives intervals that occur once each
proof fn lemma_sort_ivals_no_dup<Data: IntervalData>(ivs: Seq<Interval<Data>>)
    requires
        ivs.no_duplicates(),
    ensures
        sort_ivals(ivs).no_duplicates(),
{
    lemma_sort_ivals_to_multiset(ivs);
    ivs.lemma_multiset_has_no_duplicates();
    sort_ivals(ivs).lemma_multiset_has_no_duplicates_conv();
}

/// Intervals that do not overlap, sorted by start, each map something, are not empty and lie
/// within the range
proof fn lemma_sorted_each<Data: IntervalData>(ivs: Seq<Interval<Data>>, vr: (u64, u64))
    requires
        disjoint_intervals(ivs, vr),
    ensures
        forall|k: int| 0 <= k < sort_ivals(ivs).len() ==> !(#[trigger] sort_ivals(ivs)[k]).spec_is_none() && vr.0
            <= sort_ivals(ivs)[k].start && sort_ivals(ivs)[k].start < sort_ivals(ivs)[k].end && sort_ivals(ivs)[k].end <= vr.1,
{
    let srt = sort_ivals(ivs);
    lemma_sort_ivals_elems(ivs);
    assert forall|k: int| 0 <= k < srt.len() implies !(#[trigger] srt[k]).spec_is_none() && vr.0 <= srt[k].start
        && srt[k].start < srt[k].end && srt[k].end <= vr.1 by {
        let j = choose|j: int| 0 <= j < ivs.len() && srt[k] == ivs[j];
    }
}

/// Two different intervals that do not overlap, the first starting at or before the second, end
/// and start in that order
proof fn lemma_sorted_pair<Data: IntervalData>(ivs: Seq<Interval<Data>>, vr: (u64, u64), x: Interval<Data>, y: Interval<Data>)
    requires
        disjoint_intervals(ivs, vr),
        ivs.contains(x),
        ivs.contains(y),
        x != y,
        x.start <= y.start,
    ensures
        x.end <= y.start,
{
    let i = choose|i: int| 0 <= i < ivs.len() && ivs[i] == x;
    let j = choose|j: int| 0 <= j < ivs.len() && ivs[j] == y;
    if i < j {
        assert(ivs[i].end <= ivs[j].start || ivs[j].end <= ivs[i].start);
    } else {
        assert(ivs[j].end <= ivs[i].start || ivs[i].end <= ivs[j].start);
    }
}

/// Intervals that do not overlap, sorted by start, each end at or before the next one starts
pub proof fn lemma_sorted_disjoint<Data: IntervalData>(ivs: Seq<Interval<Data>>, vr: (u64, u64))
    requires
        disjoint_intervals(ivs, vr),
    ensures
        disjoint_in_range(sort_ivals(ivs), vr),
{
    let srt = sort_ivals(ivs);
    lemma_sorted_each(ivs, vr);
    lemma_sort_ivals_ordered(ivs);
    lemma_disjoint_no_dup(ivs, vr);
    lemma_sort_ivals_no_dup(ivs);
    assert forall|k: int| 0 <= k && k + 1 < srt.len() implies (#[trigger] srt[k]).end <= srt[k + 1].start by {
        lemma_sort_ivals_elems(ivs);
        let i = choose|i: int| 0 <= i < ivs.len() && srt[k] == ivs[i];
        let j = choose|j: int| 0 <= j < ivs.len() && srt[k + 1] == ivs[j];
        assert(ivs.contains(srt[k]) && ivs.contains(srt[k + 1]));
        assert(srt[k] != srt[k + 1]);
        lemma_sorted_pair(ivs, vr, srt[k], srt[k + 1]);
    }
}

} // verus!
