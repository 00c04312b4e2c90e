//! Interval tree building logic: from the contents of a region (and of the file it maps), the
//! intervals that describe it

use vstd::prelude::*;
use crate::itree::interval::{AnonIntervalData, DataKind, Interval, IntervalData, RawInterval, RefIntervalData};
use crate::utils::{PAGE_SIZE, PageCmp, compare_pages, is_zero, spec_all_zero, spec_compare_pages};

verus! {

/// Page `i` of `d`
pub open spec fn page(d: Seq<u8>, i: int) -> Seq<u8> {
    d.subrange(i * (PAGE_SIZE as int), (i + 1) * (PAGE_SIZE as int))
}

/// Each page of the overlay is classified by its bytes: a page of zeroes is a zero page whatever
/// the base holds; any other page matches where the base holds the same page, and differs where
/// it holds another one or none
pub proof fn law_diff_classes(base: Seq<u8>, overlay: Seq<u8>)
    ensures
        diff_classes(base, overlay).len() == overlay.len() / (PAGE_SIZE as nat),
        forall|i: int| 0 <= i < diff_classes(base, overlay).len() && spec_all_zero(#[trigger] page(overlay, i))
            ==> diff_classes(base, overlay)[i] == PageCmp::Zero,
        forall|i: int| 0 <= i < diff_classes(base, overlay).len() && !spec_all_zero(#[trigger] page(overlay, i)) && i < base.len()
            / (PAGE_SIZE as nat) && page(base, i) == page(overlay, i) ==> diff_classes(base, overlay)[i] == PageCmp::Same,
        forall|i: int| 0 <= i < diff_classes(base, overlay).len() && !spec_all_zero(#[trigger] page(overlay, i)) && (i >= base.len()
            / (PAGE_SIZE as nat) || page(base, i) != page(overlay, i)) ==> diff_classes(base, overlay)[i] == PageCmp::Diff,
{
    let nb = base.len() / (PAGE_SIZE as nat);
    let no = overlay.len() / (PAGE_SIZE as nat);
    let d = diff_classes(base, overlay);
    if nb < no {
        assert(overlay.len() > base.len()) by (nonlinear_arith)
            requires
                nb < no,
                nb == base.len() / 4096,
                no == overlay.len() / 4096,
        ;
    }
    assert forall|i: int| 0 <= i < d.len() implies (#[trigger] d[i]) == (if i < nb && i < no {
        spec_compare_pages(page(base, i), page(overlay, i))
    } else if spec_all_zero(page(overlay, i)) {
        PageCmp::Zero
    } else {
        PageCmp::Diff
    }) by {}
}

/// The maximal runs of pages of the same class, leaving out the pages that match (`Same`):
/// first page, end page and class of each run, in order
pub open spec fn runs(cls: Seq<PageCmp>) -> Seq<(nat, nat, PageCmp)>
    decreases cls.len(),
{
    if cls.len() == 0 {
        seq![]
    } else {
        let r = runs(cls.drop_last());
        let c = cls.last();
        let n = (cls.len() - 1) as nat;
        if c == PageCmp::Same {
            r
        } else if r.len() > 0 && r.last().1 == n && r.last().2 == c {
            r.update(r.len() - 1, (r.last().0, n + 1, c))
        } else {
            r.push((n, n + 1, c))
        }
    }
}

/// Each run holds pages of its class only, and the pages that do not match (and those alone) lie
/// in a run: a page of zeroes in a run of zero pages, a differing page in a run of data pages
pub proof fn law_runs_cover(cls: Seq<PageCmp>)
    ensures
        forall|k: int, i: int| 0 <= k < runs(cls).len() && (#[trigger] runs(cls)[k]).0 <= i < runs(cls)[k].1 ==> i < cls.len()
            && #[trigger] cls[i] == runs(cls)[k].2,
        forall|i: int| 0 <= i < cls.len() && #[trigger] cls[i] != PageCmp::Same ==> exists|k: int|
            0 <= k < runs(cls).len() && (#[trigger] runs(cls)[k]).0 <= i < runs(cls)[k].1,
    decreases cls.len(),
{
    if cls.len() > 0 {
        let p = cls.drop_last();
        let r = runs(p);
        let c = cls.last();
        let n = p.len() as int;
        law_runs_cover(p);
        lemma_runs_wf(p);
        let rs = runs(cls);
        assert forall|i: int| 0 <= i < n implies #[trigger] cls[i] == p[i] by {}
        assert(cls[n] == c);
        if c == PageCmp::Same {
            assert(rs == r);
        } else if r.len() > 0 && r.last().1 == n && r.last().2 == c {
            let m = r.len() - 1;
            assert(rs == r.update(m, (r.last().0, (n + 1) as nat, c)));
            assert forall|k: int, i: int| 0 <= k < rs.len() && (#[trigger] rs[k]).0 <= i < rs[k].1 implies i < cls.len()
                && #[trigger] cls[i] == rs[k].2 by {
                if k < m {
                    assert(rs[k] == r[k]);
                    assert(p[i] == r[k].2);
                } else if i < n {
                    assert(r[m] == r.last());
                    assert(p[i] == r[m].2);
                }
            }
            assert forall|i: int| 0 <= i < cls.len() && #[trigger] cls[i] != PageCmp::Same implies exists|k: int|
                0 <= k < rs.len() && (#[trigger] rs[k]).0 <= i < rs[k].1 by {
                if i < n {
                    assert(p[i] != PageCmp::Same);
                    let k = choose|k: int| 0 <= k < r.len() && (#[trigger] r[k]).0 <= i < r[k].1;
                    if k == m {
                        assert(rs[m].0 <= i < rs[m].1);
                    } else {
                        assert(rs[k] == r[k]);
                    }
                } else {
                    assert(rs[m].0 <= i < rs[m].1) by {
                        assert(r[m] == r.last());
                        assert(r[m].0 < r[m].1);
                    }
                }
            }
        } else {
            assert(rs == r.push(((n as nat), (n + 1) as nat, c)));
            assert forall|k: int, i: int| 0 <= k < rs.len() && (#[trigger] rs[k]).0 <= i < rs[k].1 implies i < cls.len()
                && #[trigger] cls[i] == rs[k].2 by {
                if k < r.len() {
                    assert(rs[k] == r[k]);
                    assert(p[i] == r[k].2);
                }
            }
            assert forall|i: int| 0 <= i < cls.len() && #[trigger] cls[i] != PageCmp::Same implies exists|k: int|
                0 <= k < rs.len() && (#[trigger] rs[k]).0 <= i < rs[k].1 by {
                if i < n {
                    assert(p[i] != PageCmp::Same);
                    let k = choose|k: int| 0 <= k < r.len() && (#[trigger] r[k]).0 <= i < r[k].1;
                    assert(rs[k] == r[k]);
                } else {
                    assert(rs[r.len() as int].0 <= i < rs[r.len() as int].1);
                }
            }
        }
    }
}

/// The raw interval standing for a run of pages of a region starting at `vb`
pub open spec fn run_raw(r: (nat, nat, PageCmp), vb: u64) -> RawInterval {
    RawInterval {
        start: (vb + r.0 * (PAGE_SIZE as int)) as u64,
        end: (vb + r.1 * (PAGE_SIZE as int)) as u64,
        offset: if r.2 == PageCmp::Zero {
            u64::MAX
        } else {
            (r.0 * (PAGE_SIZE as int)) as u64
        },
    }
}

/// The raw intervals standing for the runs
pub open spec fn runs_raw(cls: Seq<PageCmp>, vb: u64) -> Seq<RawInterval> {
    runs(cls).map_values(|r: (nat, nat, PageCmp)| run_raw(r, vb))
}

/// Runs are non-empty, lie within the pages and do not hold matching pages
pub proof fn lemma_runs_wf(cls: Seq<PageCmp>)
    ensures
        forall|k: int| 0 <= k < runs(cls).len() ==> (#[trigger] runs(cls)[k]).0 < runs(cls)[k].1 <= cls.len()
            && runs(cls)[k].2 != PageCmp::Same,
        runs(cls).len() > 0 && cls.len() > 0 && cls.last() != PageCmp::Same ==> runs(cls).last().1 == cls.len()
            && runs(cls).last().2 == cls.last(),
        runs(cls).len() > 0 && cls.len() > 0 && cls.last() == PageCmp::Same ==> runs(cls).last().1 < cls.len(),
        cls.len() > 0 && cls.last() != PageCmp::Same ==> runs(cls).len() > 0,
    decreases cls.len(),
{
    if cls.len() > 0 {
        lemma_runs_wf(cls.drop_last());
    }
}

/// Page classes of an anonymous region: zero pages match (they need no interval)
pub open spec fn anon_classes(data: Seq<u8>) -> Seq<PageCmp> {
    Seq::new(
        data.len() / (PAGE_SIZE as nat),
        |i: int|
            if spec_all_zero(page(data, i)) {
                PageCmp::Same
            } else {
                PageCmp::Diff
            },
    )
}

/// Page classes of a file-backed region saved whole: zero pages map the zero page
pub open spec fn zero_classes(data: Seq<u8>) -> Seq<PageCmp> {
    Seq::new(
        data.len() / (PAGE_SIZE as nat),
        |i: int|
            if spec_all_zero(page(data, i)) {
                PageCmp::Zero
            } else {
                PageCmp::Diff
            },
    )
}

/// Page classes of an overlay diffed against a base: pages both have are compared; when the
/// overlay is longer, its pages past the end of the base are classified by whether they are
/// zero (zero page or private data)
pub open spec fn diff_classes(base: Seq<u8>, overlay: Seq<u8>) -> Seq<PageCmp> {
    let nb = base.len() / (PAGE_SIZE as nat);
    let no = overlay.len() / (PAGE_SIZE as nat);
    let common = if nb < no {
        nb
    } else {
        no
    };
    let skip = common as int;
    let head = Seq::new(common, |i: int| spec_compare_pages(page(base, i), page(overlay, i)));
    let tail = if overlay.len() > base.len() && skip < no {
        Seq::new(
            (no - skip) as nat,
            |t: int|
                if spec_all_zero(page(overlay, skip + t)) {
                    PageCmp::Zero
                } else {
                    PageCmp::Diff
                },
        )
    } else {
        Seq::<PageCmp>::empty()
    };
    head + tail
}

/// What materializing a raw interval over `data` gives
pub open spec fn materialized<Data: IntervalData>(iv: Interval<Data>, raw: RawInterval, data: Seq<u8>) -> bool {
    if raw.spec_is_empty() {
        iv.start == u64::MAX && iv.end == u64::MAX && iv.data.kind() == DataKind::Absent
    } else if raw.spec_is_zero() {
        iv.start == raw.start && iv.end == raw.end && iv.data.kind() == DataKind::Zero
    } else {
        iv.start == raw.start && iv.end == raw.end && iv.data.kind() == DataKind::Owned && iv.data.owned_bytes()
            == data.subrange(raw.offset as int, raw.offset + raw.end - raw.start)
    }
}

/// The accumulation state: outside a run, or inside a run of data or zero pages
#[derive(Debug, Clone, Copy, PartialEq, Eq, Structural)]
enum DiffState {
    Initial,
    AccumulatingData,
    AccumulatingZero,
}

/// The state and the open interval agree with the runs of the classes seen so far
spec fn acc_ok(state: DiffState, interval: RawInterval, raw: Seq<RawInterval>, cls: Seq<PageCmp>, vb: u64) -> bool {
    let rs = runs(cls);
    &&& (state == DiffState::Initial) == (cls.len() == 0 || cls.last() == PageCmp::Same)
    &&& (state == DiffState::AccumulatingData) == (cls.len() > 0 && cls.last() == PageCmp::Diff)
    &&& (state == DiffState::AccumulatingZero) == (cls.len() > 0 && cls.last() == PageCmp::Zero)
    &&& state == DiffState::Initial ==> raw == runs_raw(cls, vb)
    &&& state != DiffState::Initial ==> {
        &&& rs.len() > 0
        &&& raw == rs.drop_last().map_values(|r: (nat, nat, PageCmp)| run_raw(r, vb))
        &&& interval.start == run_raw(rs.last(), vb).start
        &&& interval.offset == run_raw(rs.last(), vb).offset
    }
}

/// Account for one more page, of class `c`, at `offset` bytes into the region
fn step(
    state: &mut DiffState,
    interval: &mut RawInterval,
    raw: &mut Vec<RawInterval>,
    c: PageCmp,
    vb: u64,
    offset: u64,
    Ghost(cls): Ghost<Seq<PageCmp>>,
)
    requires
        acc_ok(*old(state), *old(interval), old(raw)@, cls, vb),
        offset == cls.len() * (PAGE_SIZE as int),
        vb + offset + PAGE_SIZE <= u64::MAX,
    ensures
        acc_ok(*final(state), *final(interval), final(raw)@, cls.push(c), vb),
{
    let ghost rs = runs(cls);
    let ghost f = |r: (nat, nat, PageCmp)| run_raw(r, vb);
    proof {
        lemma_runs_wf(cls);
        assert(cls.push(c).drop_last() =~= cls);
        assert(cls.push(c).last() == c);
    }
    let virtual_offset = vb + offset;
    let ghost n = cls.len() as nat;
    match (*state, c) {
        (DiffState::Initial, PageCmp::Same) => {},
        (DiffState::Initial, PageCmp::Diff) => {
            interval.start = virtual_offset;
            interval.offset = offset;
            *state = DiffState::AccumulatingData;
            proof {
                assert(runs(cls.push(c)) == rs.push((n, n + 1, c)));
                assert(rs.push((n, n + 1, c)).drop_last() =~= rs);
            }
        },
        (DiffState::Initial, PageCmp::Zero) => {
            interval.start = virtual_offset;
            interval.offset = u64::MAX;
            *state = DiffState::AccumulatingZero;
            proof {
                assert(runs(cls.push(c)) == rs.push((n, n + 1, c)));
                assert(rs.push((n, n + 1, c)).drop_last() =~= rs);
            }
        },
        (DiffState::AccumulatingData, PageCmp::Diff) | (DiffState::AccumulatingZero, PageCmp::Zero) => {
            proof {
                let nr = rs.update(rs.len() - 1, (rs.last().0, n + 1, c));
                assert(runs(cls.push(c)) == nr);
                assert(nr.drop_last() =~= rs.drop_last());
            }
        },
        (_, _) => {
            // close the open run
            interval.end = virtual_offset;
            raw.push(*interval);
            proof {
                assert(rs.drop_last().push(rs.last()) =~= rs);
                assert(raw@ =~= rs.map_values(f));
            }
            if c == PageCmp::Same {
                *interval = RawInterval::default();
                *state = DiffState::Initial;
            } else if c == PageCmp::Zero {
                *interval = RawInterval::new(virtual_offset, 0, u64::MAX);
                *state = DiffState::AccumulatingZero;
                proof {
                    assert(runs(cls.push(c)) == rs.push((n, n + 1, c)));
                    assert(rs.push((n, n + 1, c)).drop_last() =~= rs);
                }
            } else {
                *interval = RawInterval::new(virtual_offset, 0, offset);
                *state = DiffState::AccumulatingData;
                proof {
                    assert(runs(cls.push(c)) == rs.push((n, n + 1, c)));
                    assert(rs.push((n, n + 1, c)).drop_last() =~= rs);
                }
            }
        },
    }
}

/// Close the run still open after the last page
fn finish(
    state: DiffState,
    interval: RawInterval,
    raw: &mut Vec<RawInterval>,
    vb: u64,
    offset: u64,
    Ghost(cls): Ghost<Seq<PageCmp>>,
)
    requires
        acc_ok(state, interval, old(raw)@, cls, vb),
        offset == cls.len() * (PAGE_SIZE as int),
        vb + offset <= u64::MAX,
    ensures
        final(raw)@ == runs_raw(cls, vb),
{
    if state != DiffState::Initial {
        let ghost rs = runs(cls);
        proof {
            lemma_runs_wf(cls);
        }
        let mut interval = interval;
        interval.end = vb + offset;
        raw.push(interval);
        proof {
            assert(rs.drop_last().push(rs.last()) =~= rs);
            assert(raw@ =~= runs_raw(cls, vb));
        }
    }
}

/// Page `i` of a slice
fn page_of(d: &[u8], i: usize) -> (r: &[u8])
    requires
        (i + 1) * PAGE_SIZE <= d@.len(),
    ensures
        r@ == page(d@, i as int),
        r@.len() == PAGE_SIZE,
{
    let dl = d.len();
    assert(i * 4096 + 4096 <= dl) by (nonlinear_arith)
        requires
            (i + 1) * PAGE_SIZE <= dl,
            PAGE_SIZE == 4096,
    ;
    let lo = i * PAGE_SIZE;
    let hi = lo + PAGE_SIZE;
    assert(lo == i * (PAGE_SIZE as int) && hi == (i + 1) * (PAGE_SIZE as int)) by (nonlinear_arith)
        requires
            lo == i * 4096,
            hi == lo + 4096,
            PAGE_SIZE == 4096,
    ;
    vstd::slice::slice_subrange(d, lo, hi)
}

/// Every run of pages of a region lies within it
pub proof fn lemma_run_within(cls: Seq<PageCmp>, k: int, len: nat)
    requires
        0 <= k < runs(cls).len(),
        cls.len() * PAGE_SIZE <= len,
    ensures
        runs(cls)[k].1 * (PAGE_SIZE as int) <= len,
        runs(cls)[k].0 * (PAGE_SIZE as int) < runs(cls)[k].1 * (PAGE_SIZE as int),
{
    lemma_runs_wf(cls);
    let r = runs(cls)[k];
    assert(r.1 * 4096 <= cls.len() * 4096) by (nonlinear_arith)
        requires
            r.1 <= cls.len(),
    ;
    assert(r.0 * 4096 < r.1 * 4096) by (nonlinear_arith)
        requires
            r.0 < r.1,
    ;
}

/// Materialize the raw intervals of the runs of an anonymous region, taking data from `data`
fn materialize_raw_anon_intervals(
    raw_intervals: Vec<RawInterval>,
    data: &[u8],
    intervals: &mut Vec<Interval<AnonIntervalData>>,
    Ghost(cls): Ghost<Seq<PageCmp>>,
    vb: u64,
)
    requires
        raw_intervals@ == runs_raw(cls, vb),
        cls.len() * PAGE_SIZE <= data@.len(),
        vb + data@.len() <= u64::MAX,
        forall|k: int| 0 <= k < runs(cls).len() ==> (#[trigger] runs(cls)[k]).2 != PageCmp::Zero,
    ensures
        final(intervals)@.len() == old(intervals)@.len() + runs(cls).len(),
        forall|k: int| 0 <= k < old(intervals)@.len() ==> #[trigger] final(intervals)@[k] == old(intervals)@[k],
        forall|k: int| 0 <= k < runs(cls).len() ==> materialized(
            #[trigger] final(intervals)@[old(intervals)@.len() + k],
            runs_raw(cls, vb)[k],
            data@,
        ),
{
    let ghost start = intervals@;
    let dl = data.len();
    let mut k: usize = 0;
    proof {
        lemma_runs_wf(cls);
    }
    while k < raw_intervals.len()
        invariant
            k <= raw_intervals@.len(),
            raw_intervals@ == runs_raw(cls, vb),
            raw_intervals@.len() == runs(cls).len(),
            dl == data@.len(),
            cls.len() * PAGE_SIZE <= data@.len(),
            vb + data@.len() <= u64::MAX,
            forall|k: int| 0 <= k < runs(cls).len() ==> (#[trigger] runs(cls)[k]).2 != PageCmp::Zero,
            intervals@.len() == start.len() + k,
            forall|j: int| 0 <= j < start.len() ==> #[trigger] intervals@[j] == start[j],
            forall|j: int| 0 <= j < k ==> materialized(#[trigger] intervals@[start.len() + j], runs_raw(cls, vb)[j], data@),
        decreases raw_intervals@.len() - k,
    {
        let raw = raw_intervals[k];
        proof {
            lemma_run_within(cls, k as int, data@.len());
            let r = runs(cls)[k as int];
            assert(raw == run_raw(r, vb));
            assert(r.0 * (PAGE_SIZE as int) < r.1 * (PAGE_SIZE as int) <= data@.len());
            assert(raw.start == vb + r.0 * (PAGE_SIZE as int));
            assert(raw.end == vb + r.1 * (PAGE_SIZE as int));
            assert(raw.offset != u64::MAX ==> raw.offset == r.0 * (PAGE_SIZE as int));
        }
        let iv = if raw.is_empty() {
            Interval::empty()
        } else {
            let len = raw.len();
            assert(raw.offset + len <= dl);
            let data_begin = raw.offset as usize;
            let data_end = (raw.offset + len) as usize;
            let bytes = vstd::slice::slice_to_vec(vstd::slice::slice_subrange(data, data_begin, data_end));
            Interval::new(raw.start, raw.end, AnonIntervalData::Owned(bytes))
        };
        intervals.push(iv);
        k = k + 1;
    }
}

/// Materialize the raw intervals of the runs of a file-backed region, taking data from `data`
fn materialize_raw_ref_intervals(
    raw_intervals: Vec<RawInterval>,
    data: &[u8],
    intervals: &mut Vec<Interval<RefIntervalData>>,
    Ghost(cls): Ghost<Seq<PageCmp>>,
    vb: u64,
)
    requires
        raw_intervals@ == runs_raw(cls, vb),
        cls.len() * PAGE_SIZE <= data@.len(),
        vb + data@.len() <= u64::MAX,
    ensures
        final(intervals)@.len() == old(intervals)@.len() + runs(cls).len(),
        forall|k: int| 0 <= k < old(intervals)@.len() ==> #[trigger] final(intervals)@[k] == old(intervals)@[k],
        forall|k: int| 0 <= k < runs(cls).len() ==> materialized(
            #[trigger] final(intervals)@[old(intervals)@.len() + k],
            runs_raw(cls, vb)[k],
            data@,
        ),
{
    let ghost start = intervals@;
    let dl = data.len();
    let mut k: usize = 0;
    proof {
        lemma_runs_wf(cls);
    }
    while k < raw_intervals.len()
        invariant
            k <= raw_intervals@.len(),
            raw_intervals@ == runs_raw(cls, vb),
            raw_intervals@.len() == runs(cls).len(),
            dl == data@.len(),
            cls.len() * PAGE_SIZE <= data@.len(),
            vb + data@.len() <= u64::MAX,
                intervals@.len() == start.len() + k,
            forall|j: int| 0 <= j < start.len() ==> #[trigger] intervals@[j] == start[j],
            forall|j: int| 0 <= j < k ==> materialized(#[trigger] intervals@[start.len() + j], runs_raw(cls, vb)[j], data@),
        decreases raw_intervals@.len() - k,
    {
        let raw = raw_intervals[k];
        proof {
            lemma_run_within(cls, k as int, data@.len());
            let r = runs(cls)[k as int];
            assert(raw == run_raw(r, vb));
            assert(r.0 * (PAGE_SIZE as int) < r.1 * (PAGE_SIZE as int) <= data@.len());
            assert(raw.start == vb + r.0 * (PAGE_SIZE as int));
            assert(raw.end == vb + r.1 * (PAGE_SIZE as int));
            assert(raw.offset != u64::MAX ==> raw.offset == r.0 * (PAGE_SIZE as int));
        }
        let iv = if raw.is_empty() {
            Interval::empty()
        } else if raw.is_zero() {
            Interval::new(raw.start, raw.end, RefIntervalData::Zero)
        } else {
            let len = raw.len();
            assert(raw.offset + len <= dl);
            let data_begin = raw.offset as usize;
            let data_end = (raw.offset + len) as usize;
            let bytes = vstd::slice::slice_to_vec(vstd::slice::slice_subrange(data, data_begin, data_end));
            Interval::new(raw.start, raw.end, RefIntervalData::Owned(bytes))
        };
        intervals.push(iv);
        k = k + 1;
    }
}

/// Accumulate the runs of pages of the given classes into raw intervals
fn accumulate(classes: &Vec<PageCmp>, vb: u64) -> (r: Vec<RawInterval>)
    requires
        vb + classes@.len() * PAGE_SIZE <= u64::MAX,
    ensures
        r@ == runs_raw(classes@, vb),
{
    let mut raw: Vec<RawInterval> = Vec::new();
    let mut interval = RawInterval::default();
    let mut state = DiffState::Initial;
    let mut offset: u64 = 0;
    let mut i: usize = 0;
    assert(classes@.take(0) =~= Seq::<PageCmp>::empty());
    assert(runs_raw(Seq::<PageCmp>::empty(), vb) =~= Seq::<RawInterval>::empty());
    while i < classes.len()
        invariant
            i <= classes@.len(),
            offset == i * PAGE_SIZE,
            vb + classes@.len() * PAGE_SIZE <= u64::MAX,
            acc_ok(state, interval, raw@, classes@.take(i as int), vb),
        decreases classes@.len() - i,
    {
        assert(vb + offset + PAGE_SIZE <= u64::MAX) by (nonlinear_arith)
            requires
                offset == i * PAGE_SIZE,
                i < classes@.len(),
                vb + classes@.len() * PAGE_SIZE <= u64::MAX,
        ;
        step(&mut state, &mut interval, &mut raw, classes[i], vb, offset, Ghost(classes@.take(i as int)));
        assert(classes@.take(i as int).push(classes@[i as int]) =~= classes@.take(i + 1));
        offset = offset + PAGE_SIZE as u64;
        i = i + 1;
    }
    assert(classes@.take(i as int) =~= classes@);
    finish(state, interval, &mut raw, vb, offset, Ghost(classes@));
    raw
}

/// Classes of the pages of `data`: `Same` or `Zero` for zero pages, `Diff` for the others
fn classify(data: &[u8], zero_class: PageCmp) -> (r: Vec<PageCmp>)
    requires
        data@.len() % (PAGE_SIZE as nat) == 0,
    ensures
        r@.len() == data@.len() / (PAGE_SIZE as nat),
        forall|i: int| 0 <= i < r@.len() ==> #[trigger] r@[i] == if spec_all_zero(page(data@, i)) {
            zero_class
        } else {
            PageCmp::Diff
        },
{
    let n = data.len() / PAGE_SIZE;
    let mut out: Vec<PageCmp> = Vec::new();
    let mut i: usize = 0;
    while i < n
        invariant
            i <= n,
            n == data@.len() / (PAGE_SIZE as nat),
            out@.len() == i,
            forall|j: int| 0 <= j < i ==> #[trigger] out@[j] == if spec_all_zero(page(data@, j)) {
                zero_class
            } else {
                PageCmp::Diff
            },
        decreases n - i,
    {
        assert((i + 1) * 4096 <= data@.len()) by (nonlinear_arith)
            requires
                i < n,
                n == data@.len() / 4096,
        ;
        let p = page_of(data, i);
        if is_zero(p) {
            out.push(zero_class);
        } else {
            out.push(PageCmp::Diff);
        }
        i = i + 1;
    }
    out
}

/// Create the intervals of a privately mapped region (by removing zero pages)
pub fn create_anon_itree_from_zero_page(data: &[u8], virtual_base: u64, intervals: &mut Vec<Interval<AnonIntervalData>>)
    requires
        data@.len() % (PAGE_SIZE as nat) == 0,
        virtual_base + data@.len() <= u64::MAX,
    ensures
        final(intervals)@.len() == old(intervals)@.len() + runs(anon_classes(data@)).len(),
        forall|k: int| 0 <= k < old(intervals)@.len() ==> #[trigger] final(intervals)@[k] == old(intervals)@[k],
        forall|k: int| 0 <= k < runs(anon_classes(data@)).len() ==> materialized(
            #[trigger] final(intervals)@[old(intervals)@.len() + k],
            runs_raw(anon_classes(data@), virtual_base)[k],
            data@,
        ),
{
    let classes = classify(data, PageCmp::Same);
    proof {
        assert(classes@ =~= anon_classes(data@));
        assert(classes@.len() * PAGE_SIZE <= data@.len()) by (nonlinear_arith)
            requires
                classes@.len() == data@.len() / 4096,
        ;
        lemma_runs_wf(classes@);
        assert forall|k: int| 0 <= k < runs(classes@).len() implies (#[trigger] runs(classes@)[k]).2 != PageCmp::Zero by {
            lemma_runs_member(classes@, k);
        }
    }
    let raw_intervals = accumulate(&classes, virtual_base);
    materialize_raw_anon_intervals(raw_intervals, data, intervals, Ghost(classes@), virtual_base);
}

/// Create the intervals of a file-backed region saved whole (zero pages map the zero page)
pub fn create_ref_itree_from_zero_page(data: &[u8], virtual_base: u64, intervals: &mut Vec<Interval<RefIntervalData>>)
    requires
        data@.len() % (PAGE_SIZE as nat) == 0,
        virtual_base + data@.len() <= u64::MAX,
    ensures
        final(intervals)@.len() == old(intervals)@.len() + runs(zero_classes(data@)).len(),
        forall|k: int| 0 <= k < old(intervals)@.len() ==> #[trigger] final(intervals)@[k] == old(intervals)@[k],
        forall|k: int| 0 <= k < runs(zero_classes(data@)).len() ==> materialized(
            #[trigger] final(intervals)@[old(intervals)@.len() + k],
            runs_raw(zero_classes(data@), virtual_base)[k],
            data@,
        ),
{
    let classes = classify(data, PageCmp::Zero);
    proof {
        assert(classes@ =~= zero_classes(data@));
        assert(classes@.len() * PAGE_SIZE <= data@.len()) by (nonlinear_arith)
            requires
                classes@.len() == data@.len() / 4096,
        ;
    }
    let raw_intervals = accumulate(&classes, virtual_base);
    materialize_raw_ref_intervals(raw_intervals, data, intervals, Ghost(classes@), virtual_base);
}

/// Create the intervals of a file-backed region by diffing a base (the reference file) with an
/// overlay (the saved data)
pub fn create_itree_from_diff(
    base: &[u8],
    overlay: &[u8],
    virtual_base: u64,
    intervals: &mut Vec<Interval<RefIntervalData>>,
)
    requires
        overlay@.len() % (PAGE_SIZE as nat) == 0,
        base@.len() % (PAGE_SIZE as nat) == 0,
        virtual_base + overlay@.len() <= u64::MAX,
    ensures
        final(intervals)@.len() == old(intervals)@.len() + runs(diff_classes(base@, overlay@)).len(),
        forall|k: int| 0 <= k < old(intervals)@.len() ==> #[trigger] final(intervals)@[k] == old(intervals)@[k],
        forall|k: int| 0 <= k < runs(diff_classes(base@, overlay@)).len() ==> materialized(
            #[trigger] final(intervals)@[old(intervals)@.len() + k],
            runs_raw(diff_classes(base@, overlay@), virtual_base)[k],
            overlay@,
        ),
{
    let nb = base.len() / PAGE_SIZE;
    let no = overlay.len() / PAGE_SIZE;
    let common = if nb < no {
        nb
    } else {
        no
    };
    let mut classes: Vec<PageCmp> = Vec::new();
    let mut i: usize = 0;
    while i < common
        invariant
            i <= common,
            common <= nb,
            common <= no,
            nb == base@.len() / (PAGE_SIZE as nat),
            no == overlay@.len() / (PAGE_SIZE as nat),
            classes@.len() == i,
            forall|j: int| 0 <= j < i ==> #[trigger] classes@[j] == spec_compare_pages(page(base@, j), page(overlay@, j)),
        decreases common - i,
    {
        assert((i + 1) * 4096 <= base@.len() && (i + 1) * 4096 <= overlay@.len()) by (nonlinear_arith)
            requires
                i < common,
                common <= nb,
                common <= no,
                nb == base@.len() / 4096,
                no == overlay@.len() / 4096,
        ;
        let bp = page_of(base, i);
        let op = page_of(overlay, i);
        classes.push(compare_pages(bp, op));
        i = i + 1;
    }
    let ghost head = classes@;
    assert(forall|j: int| 0 <= j < common ==> #[trigger] head[j] == spec_compare_pages(page(base@, j), page(overlay@, j)));
    assert(classes@.take(common as int) =~= head);
    let ghost skip_spec = common as int;
    if overlay.len() > base.len() {
        let skip = common as u64;
        let mut p: u64 = skip;
        while p < no as u64
            invariant
                skip <= p,
                skip == skip_spec,
                no == overlay@.len() / (PAGE_SIZE as nat),
                p <= no || p == skip,
                head == classes@.take(common as int),
                classes@.len() == common + (p - skip),
                forall|t: int| 0 <= t < p - skip ==> #[trigger] classes@[common + t] == if spec_all_zero(page(overlay@, skip + t)) {
                    PageCmp::Zero
                } else {
                    PageCmp::Diff
                },
            decreases no - p,
        {
            let pi = p as usize;
            assert((pi + 1) * 4096 <= overlay@.len()) by (nonlinear_arith)
                requires
                    pi < no,
                    no == overlay@.len() / 4096,
            ;
            let op = page_of(overlay, pi);
            if is_zero(op) {
                classes.push(PageCmp::Zero);
            } else {
                classes.push(PageCmp::Diff);
            }
            assert(classes@.take(common as int) =~= head);
            p = p + 1;
        }
    }
    proof {
        let d = diff_classes(base@, overlay@);
        assert(classes@.len() == d.len());
        assert forall|j: int| 0 <= j < d.len() implies #[trigger] classes@[j] == d[j] by {
            if j < common {
                assert(classes@.take(common as int)[j] == classes@[j]);
                assert(head[j] == spec_compare_pages(page(base@, j), page(overlay@, j)));
            } else {
                assert(classes@[common + (j - common)] == classes@[j]);
            }
        }
        assert(classes@ =~= d);
        assert(d.len() * PAGE_SIZE <= overlay@.len()) by (nonlinear_arith)
            requires
                d.len() <= no,
                no == overlay@.len() / 4096,
        ;
    }
    let raw_intervals = accumulate(&classes, virtual_base);
    materialize_raw_ref_intervals(raw_intervals, overlay, intervals, Ghost(classes@), virtual_base);
}

/// Every run takes the class of one of its pages
pub proof fn lemma_runs_member(cls: Seq<PageCmp>, k: int)
    requires
        0 <= k < runs(cls).len(),
    ensures
        exists|i: int| 0 <= i < cls.len() && cls[i] == (#[trigger] runs(cls)[k]).2,
    decreases cls.len(),
{
    let r = runs(cls.drop_last());
    if k < r.len() && !(cls.last() != PageCmp::Same && r.len() > 0 && r.last().1 == cls.len() - 1 && r.last().2 == cls.last() && k == r.len() - 1) {
        lemma_runs_member(cls.drop_last(), k);
        let i = choose|i: int| 0 <= i < cls.drop_last().len() && cls.drop_last()[i] == r[k].2;
        assert(cls[i] == cls.drop_last()[i]);
    } else {
        assert(cls[cls.len() - 1] == cls.last());
    }
}

} // verus!
