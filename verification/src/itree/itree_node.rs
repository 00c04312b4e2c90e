//! Nodes in the interval tree

use vstd::prelude::*;
use crate::deduper::{DedupToken, Deduper, lemma_token_at, spec_insert, token_at};
use crate::error::{IntervalError, ITreeNodeError, ITreeNodeResult};
use crate::itree::interval::{AnonIntervalData, DataKind, IntermediateInterval, IntermediateIntervalData, Interval, IntervalData, RawInterval, RefIntervalData, spec_intersect};

verus! {

/// Number of children of a node
pub const FANOUT: usize = 4;

/// Number of intervals in a node
pub const IVAL_PER_NODE: usize = 3;

/// Number of intervals of `s` that map something
pub open spec fn count_present<Data: IntervalData>(s: Seq<Interval<Data>>) -> nat
    decreases s.len(),
{
    if s.len() == 0 {
        0
    } else {
        count_present(s.drop_last()) + if !s.last().spec_is_none() {
            1nat
        } else {
            0nat
        }
    }
}

/// Number of intervals of `s` that hold data
pub open spec fn count_data<Data: IntervalData>(s: Seq<Interval<Data>>) -> nat
    decreases s.len(),
{
    if s.len() == 0 {
        0
    } else {
        count_data(s.drop_last()) + if s.last().data.kind() == DataKind::Owned || s.last().data.kind()
            == DataKind::Ref {
            1nat
        } else {
            0nat
        }
    }
}

/// Bytes mapped by the intervals of `s` that map the zero page
pub open spec fn zero_size<Data: IntervalData>(s: Seq<Interval<Data>>) -> nat
    decreases s.len(),
{
    if s.len() == 0 {
        0
    } else {
        zero_size(s.drop_last()) + if s.last().data.kind() == DataKind::Zero {
            s.last().spec_len()
        } else {
            0nat
        }
    }
}

/// Bytes mapped by the intervals of `s` that hold data
pub open spec fn data_size<Data: IntervalData>(s: Seq<Interval<Data>>) -> nat
    decreases s.len(),
{
    if s.len() == 0 {
        0
    } else {
        data_size(s.drop_last()) + if s.last().data.kind() == DataKind::Owned || s.last().data.kind()
            == DataKind::Ref {
            s.last().spec_len()
        } else {
            0nat
        }
    }
}

/// Bytes of `[start; end)` mapped by the intervals of `s` that map something
pub open spec fn mapped_in<Data: IntervalData>(s: Seq<Interval<Data>>, start: u64, end: u64) -> nat
    decreases s.len(),
{
    if s.len() == 0 {
        0
    } else {
        mapped_in(s.drop_last(), start, end) + if !s.last().spec_is_none() {
            match spec_intersect(s.last().start, s.last().end, start, end) {
                Some((a, b)) => (b - a) as nat,
                None => 0nat,
            }
        } else {
            0nat
        }
    }
}

/// Every interval of `s` that maps something has ordered bounds
pub open spec fn all_bounds_ok<Data: IntervalData>(s: Seq<Interval<Data>>) -> bool {
    forall|i: int| 0 <= i < s.len() ==> !(#[trigger] s[i]).spec_is_none() ==> s[i].bounds_ok()
}

/// Node in a [`crate::itree::ITree`]
///
/// Encodes a series of [`Interval`]s
#[derive(Debug, PartialEq, Eq)]
pub struct ITreeNode<Data: IntervalData> {
    pub ranges: Vec<Interval<Data>>,
}

impl<Data: IntervalData> ITreeNode<Data> {
    /// The node holds exactly [`IVAL_PER_NODE`] intervals
    pub open spec fn wf(&self) -> bool {
        self.ranges@.len() == IVAL_PER_NODE
    }

    /// A node holding no interval
    pub fn empty() -> (r: Self)
        ensures
            r.wf(),
            forall|i: int| 0 <= i < 3 ==> (#[trigger] r.ranges@[i]).start == u64::MAX && r.ranges@[i].end
                == u64::MAX && r.ranges@[i].data.kind() == DataKind::Absent && r.ranges@[i].data.kind_ok(),
    {
        let mut ranges = Vec::new();
        ranges.push(Interval::empty());
        ranges.push(Interval::empty());
        ranges.push(Interval::empty());
        ITreeNode { ranges }
    }

    /// Construct a node holding a single interval
    pub fn single(interval: Interval<Data>) -> (r: Self)
        ensures
            r.wf(),
            r.ranges@[0] == interval,
            forall|i: int| 1 <= i < 3 ==> (#[trigger] r.ranges@[i]).start == u64::MAX && r.ranges@[i].end
                == u64::MAX && r.ranges@[i].data.kind() == DataKind::Absent && r.ranges@[i].data.kind_ok(),
    {
        let mut ranges = Vec::new();
        ranges.push(interval);
        ranges.push(Interval::empty());
        ranges.push(Interval::empty());
        ITreeNode { ranges }
    }

    /// Access the ranges within
    pub fn ranges(&self) -> (r: &[Interval<Data>])
        ensures
            r@ == self.ranges@,
    {
        self.ranges.as_slice()
    }

    /// Count the number of (non-empty) intervals
    pub fn n_intervals(&self) -> (r: usize)
        ensures
            r == count_present(self.ranges@),
    {
        let s = self.ranges.as_slice();
        let mut i: usize = 0;
        let mut n: usize = 0;
        while i < s.len()
            invariant
                i <= s@.len(),
                s@ == self.ranges@,
                n == count_present(s@.take(i as int)),
                n <= i,
            decreases s@.len() - i,
        {
            assert(s@.take(i + 1).drop_last() =~= s@.take(i as int));
            if !s[i].is_none() {
                n = n + 1;
            }
            i = i + 1;
        }
        assert(s@.take(s@.len() as int) =~= s@);
        n
    }

    /// Count the number of data intervals
    pub fn n_data_intervals(&self) -> (r: usize)
        ensures
            r == count_data(self.ranges@),
    {
        let s = self.ranges.as_slice();
        let mut i: usize = 0;
        let mut n: usize = 0;
        while i < s.len()
            invariant
                i <= s@.len(),
                s@ == self.ranges@,
                n == count_data(s@.take(i as int)),
                n <= i,
            decreases s@.len() - i,
        {
            assert(s@.take(i + 1).drop_last() =~= s@.take(i as int));
            if s[i].is_data() {
                n = n + 1;
            }
            i = i + 1;
        }
        assert(s@.take(s@.len() as int) =~= s@);
        n
    }

    /// For this node, find how many virtual address space bytes are backed by the zero page
    pub fn zero_byte_size(&self) -> (r: u64)
        requires
            all_bounds_ok(self.ranges@),
            zero_size(self.ranges@) <= u64::MAX,
        ensures
            r == zero_size(self.ranges@),
    {
        let s = self.ranges.as_slice();
        let mut i: usize = 0;
        let mut n: u64 = 0;
        proof {
            lemma_zero_size_prefix(s@, s@.len() as int);
            assert(s@.take(s@.len() as int) =~= s@);
        }
        while i < s.len()
            invariant
                i <= s@.len(),
                s@ == self.ranges@,
                all_bounds_ok(s@),
                n == zero_size(s@.take(i as int)),
                forall|j: int| 0 <= j <= s@.len() ==> zero_size(#[trigger] s@.take(j)) <= zero_size(s@),
                zero_size(s@) <= u64::MAX,
            decreases s@.len() - i,
        {
            assert(s@.take(i + 1).drop_last() =~= s@.take(i as int));
            assert(s@.take(i + 1).last() == s@[i as int]);
            if s[i].is_zero() {
                n = n + s[i].len();
            }
            i = i + 1;
        }
        assert(s@.take(s@.len() as int) =~= s@);
        n
    }

    /// For this node, find how many virtual address space bytes are backed by the private data
    /// (contained in the JIF)
    pub fn private_data_size(&self) -> (r: u64)
        requires
            all_bounds_ok(self.ranges@),
            data_size(self.ranges@) <= u64::MAX,
        ensures
            r == data_size(self.ranges@),
    {
        let s = self.ranges.as_slice();
        let mut i: usize = 0;
        let mut n: u64 = 0;
        proof {
            lemma_data_size_prefix(s@, s@.len() as int);
            assert(s@.take(s@.len() as int) =~= s@);
        }
        while i < s.len()
            invariant
                i <= s@.len(),
                s@ == self.ranges@,
                all_bounds_ok(s@),
                n == data_size(s@.take(i as int)),
                forall|j: int| 0 <= j <= s@.len() ==> data_size(#[trigger] s@.take(j)) <= data_size(s@),
                data_size(s@) <= u64::MAX,
            decreases s@.len() - i,
        {
            assert(s@.take(i + 1).drop_last() =~= s@.take(i as int));
            assert(s@.take(i + 1).last() == s@[i as int]);
            if s[i].is_data() {
                n = n + s[i].len();
            }
            i = i + 1;
        }
        assert(s@.take(s@.len() as int) =~= s@);
        n
    }

    /// For this node, find how many virtual address space bytes are explicitely mapped within
    /// a particular sub interval
    pub fn explicitely_mapped_subregion_size(&self, start: u64, end: u64) -> (r: u64)
        requires
            mapped_in(self.ranges@, start, end) <= u64::MAX,
        ensures
            r == mapped_in(self.ranges@, start, end),
    {
        let s = self.ranges.as_slice();
        let mut i: usize = 0;
        let mut n: u64 = 0;
        proof {
            lemma_mapped_in_prefix(s@, start, end, s@.len() as int);
            assert(s@.take(s@.len() as int) =~= s@);
        }
        while i < s.len()
            invariant
                i <= s@.len(),
                s@ == self.ranges@,
                n == mapped_in(s@.take(i as int), start, end),
                forall|j: int|
                    0 <= j <= s@.len() ==> mapped_in(#[trigger] s@.take(j), start, end) <= mapped_in(
                        s@,
                        start,
                        end,
                    ),
                mapped_in(s@, start, end) <= u64::MAX,
            decreases s@.len() - i,
        {
            assert(s@.take(i + 1).drop_last() =~= s@.take(i as int));
            assert(s@.take(i + 1).last() == s@[i as int]);
            if !s[i].is_none() {
                match s[i].intersect(start, end) {
                    Some((a, b)) => {
                        n = n + (b - a);
                    },
                    None => {},
                }
            }
            i = i + 1;
        }
        assert(s@.take(s@.len() as int) =~= s@);
        n
    }
}

/// Prefix sums of zero sizes are bounded by the total
pub proof fn lemma_zero_size_prefix<Data: IntervalData>(s: Seq<Interval<Data>>, k: int)
    requires
        0 <= k <= s.len(),
    ensures
        forall|j: int| 0 <= j <= k ==> zero_size(#[trigger] s.take(j)) <= zero_size(s.take(k)),
    decreases k,
{
    if k > 0 {
        lemma_zero_size_prefix(s, k - 1);
        assert(s.take(k).drop_last() =~= s.take(k - 1));
    }
    if k == s.len() {
        assert(s.take(k) =~= s);
    }
}

/// Prefix sums of data sizes are bounded by the total
pub proof fn lemma_data_size_prefix<Data: IntervalData>(s: Seq<Interval<Data>>, k: int)
    requires
        0 <= k <= s.len(),
    ensures
        forall|j: int| 0 <= j <= k ==> data_size(#[trigger] s.take(j)) <= data_size(s.take(k)),
    decreases k,
{
    if k > 0 {
        lemma_data_size_prefix(s, k - 1);
        assert(s.take(k).drop_last() =~= s.take(k - 1));
    }
    if k == s.len() {
        assert(s.take(k) =~= s);
    }
}

/// Prefix sums of mapped sizes are bounded by the total
pub proof fn lemma_mapped_in_prefix<Data: IntervalData>(s: Seq<Interval<Data>>, start: u64, end: u64, k: int)
    requires
        0 <= k <= s.len(),
    ensures
        forall|j: int| 0 <= j <= k ==> mapped_in(#[trigger] s.take(j), start, end) <= mapped_in(s.take(k), start, end),
    decreases k,
{
    if k > 0 {
        lemma_mapped_in_prefix(s, start, end, k - 1);
        assert(s.take(k).drop_last() =~= s.take(k - 1));
    }
    if k == s.len() {
        assert(s.take(k) =~= s);
    }
}

/// The first token recorded for a data range
pub open spec fn spec_lookup(idx: Seq<((u64, u64), DedupToken)>, range: (u64, u64)) -> Option<DedupToken>
    decreases idx.len(),
{
    if idx.len() == 0 {
        None
    } else if idx[0].0 == range {
        Some(idx[0].1)
    } else {
        spec_lookup(idx.drop_first(), range)
    }
}

/// Find the token recorded for a data range
pub fn lookup_token(idx: &Vec<((u64, u64), DedupToken)>, range: (u64, u64)) -> (r: Option<DedupToken>)
    ensures
        r == spec_lookup(idx@, range),
{
    let mut i: usize = 0;
    assert(idx@.skip(0) =~= idx@);
    while i < idx.len()
        invariant
            i <= idx@.len(),
            spec_lookup(idx@, range) == spec_lookup(idx@.skip(i as int), range),
        decreases idx@.len() - i,
    {
        assert(idx@.skip(i as int).drop_first() =~= idx@.skip(i + 1));
        if idx[i].0.0 == range.0 && idx[i].0.1 == range.1 {
            return Some(idx[i].1);
        }
        i = i + 1;
    }
    None
}

/// The data range (relative to the data section) referenced by a raw data interval
pub open spec fn raw_data_range(raw: RawInterval, data_offset: u64) -> (u64, u64) {
    ((raw.offset - data_offset) as u64, (raw.offset + (raw.end - raw.start) - data_offset) as u64)
}

/// A raw data interval whose data range lies in the data section and has a recorded segment of
/// the right length
pub open spec fn raw_data_resolvable(
    raw: RawInterval,
    data_offset: u64,
    deduper: Deduper,
    idx: Seq<((u64, u64), DedupToken)>,
) -> bool {
    raw.spec_is_data() ==> {
        &&& raw.start <= raw.end
        &&& data_offset <= raw.offset
        &&& raw.offset + (raw.end - raw.start) <= u64::MAX
        &&& spec_lookup(idx, raw_data_range(raw, data_offset)) matches Some(tok) && deduper.has_token(tok)
            && deduper.data_of(tok).len() == raw.end - raw.start
    }
}

/// The reference-tree interval a raw interval stands for
pub open spec fn spec_ref_from_raw(
    raw: RawInterval,
    data_offset: u64,
    idx: Seq<((u64, u64), DedupToken)>,
) -> Interval<RefIntervalData> {
    if raw.spec_is_empty() {
        Interval { start: u64::MAX, end: u64::MAX, data: RefIntervalData::NoData }
    } else if raw.spec_is_zero() {
        Interval { start: raw.start, end: raw.end, data: RefIntervalData::Zero }
    } else {
        Interval {
            start: raw.start,
            end: raw.end,
            data: RefIntervalData::Ref(spec_lookup(idx, raw_data_range(raw, data_offset))->Some_0),
        }
    }
}

/// The anonymous-tree interval a raw interval stands for (anonymous trees cannot hold
/// explicit zero intervals)
pub open spec fn spec_anon_from_raw(
    raw: RawInterval,
    data_offset: u64,
    idx: Seq<((u64, u64), DedupToken)>,
) -> Result<Interval<AnonIntervalData>, IntervalError> {
    if raw.spec_is_empty() {
        Ok(Interval { start: u64::MAX, end: u64::MAX, data: AnonIntervalData::NoData })
    } else if raw.spec_is_zero() {
        Err(IntervalError::ZeroIntervalInAnon)
    } else {
        Ok(
            Interval {
                start: raw.start,
                end: raw.end,
                data: AnonIntervalData::Ref(spec_lookup(idx, raw_data_range(raw, data_offset))->Some_0),
            },
        )
    }
}

fn data_token(raw: &RawInterval, data_offset: u64, deduper: &Deduper, offset_idx: &Vec<((u64, u64), DedupToken)>) -> (r: DedupToken)
    requires
        raw.spec_is_data(),
        raw_data_resolvable(*raw, data_offset, *deduper, offset_idx@),
    ensures
        r == spec_lookup(offset_idx@, raw_data_range(*raw, data_offset))->Some_0,
{
    let len = raw.end - raw.start;
    let range = (raw.offset - data_offset, raw.offset + len - data_offset);
    lookup_token(offset_idx, range).unwrap()
}

impl Interval<AnonIntervalData> {
    /// Construct an interval from a raw interval
    pub fn from_raw_anon(
        raw: &RawInterval,
        data_offset: u64,
        deduper: &Deduper,
        offset_idx: &Vec<((u64, u64), DedupToken)>,
    ) -> (r: Result<Self, IntervalError>)
        requires
            raw_data_resolvable(*raw, data_offset, *deduper, offset_idx@),
        ensures
            r == spec_anon_from_raw(*raw, data_offset, offset_idx@),
    {
        if raw.is_empty() {
            Ok(Interval { start: u64::MAX, end: u64::MAX, data: AnonIntervalData::NoData })
        } else if raw.is_zero() {
            Err(IntervalError::ZeroIntervalInAnon)
        } else {
            let tok = data_token(raw, data_offset, deduper, offset_idx);
            Ok(Interval { start: raw.start, end: raw.end, data: AnonIntervalData::Ref(tok) })
        }
    }
}

impl Interval<RefIntervalData> {
    /// Construct an interval from a raw interval
    pub fn from_raw_ref(
        raw: &RawInterval,
        data_offset: u64,
        deduper: &Deduper,
        offset_idx: &Vec<((u64, u64), DedupToken)>,
    ) -> (r: Self)
        requires
            raw_data_resolvable(*raw, data_offset, *deduper, offset_idx@),
        ensures
            r == spec_ref_from_raw(*raw, data_offset, offset_idx@),
    {
        if raw.is_empty() {
            Interval { start: u64::MAX, end: u64::MAX, data: RefIntervalData::NoData }
        } else if raw.is_zero() {
            Interval { start: raw.start, end: raw.end, data: RefIntervalData::Zero }
        } else {
            let tok = data_token(raw, data_offset, deduper, offset_idx);
            Interval { start: raw.start, end: raw.end, data: RefIntervalData::Ref(tok) }
        }
    }
}

/// Node in a raw interval tree
///
/// Encodes a series of [`RawInterval`]s
#[derive(Debug, Clone, PartialEq, Eq)]
pub struct RawITreeNode {
    pub ranges: Vec<RawInterval>,
}

impl RawITreeNode {
    /// The node holds exactly [`IVAL_PER_NODE`] intervals
    pub open spec fn wf(&self) -> bool {
        self.ranges@.len() == IVAL_PER_NODE
    }

    /// Size of the [`RawITreeNode`] when serialized
    pub fn serialized_size() -> (r: usize)
        ensures
            r == 72,
    {
        IVAL_PER_NODE * RawInterval::serialized_size()
    }

    /// Build an [`RawITreeNode`]
    pub fn new(ranges: Vec<RawInterval>) -> (r: Self)
        requires
            ranges@.len() == IVAL_PER_NODE,
        ensures
            r.ranges == ranges,
            r.wf(),
    {
        RawITreeNode { ranges }
    }

    /// Access the ranges within
    pub fn ranges(&self) -> (r: &[RawInterval])
        ensures
            r@ == self.ranges@,
    {
        self.ranges.as_slice()
    }
}

impl Default for RawITreeNode {
    fn default() -> (r: Self)
        ensures
            r.wf(),
            forall|i: int| 0 <= i < 3 ==> #[trigger] r.ranges@[i] == RawInterval::spec_default(),
    {
        let mut ranges = Vec::new();
        ranges.push(RawInterval::default());
        ranges.push(RawInterval::default());
        ranges.push(RawInterval::default());
        RawITreeNode { ranges }
    }
}

impl ITreeNode<AnonIntervalData> {
    /// Build an [`ITreeNode`] for an anonymous segment
    pub fn from_raw_anon(
        raw: &RawITreeNode,
        data_offset: u64,
        deduper: &Deduper,
        offset_idx: &Vec<((u64, u64), DedupToken)>,
    ) -> (r: ITreeNodeResult<Self>)
        requires
            raw.wf(),
            forall|i: int| 0 <= i < 3 ==> raw_data_resolvable(#[trigger] raw.ranges@[i], data_offset, *deduper, offset_idx@),
        ensures
            match r {
                Ok(node) => node.wf() && forall|i: int| 0 <= i < 3 ==> spec_anon_from_raw(#[trigger] raw.ranges@[i], data_offset, offset_idx@) == Ok::<_, IntervalError>(node.ranges@[i]),
                Err(e) => exists|i: int| 0 <= i < 3 && e == ITreeNodeError::Interval { interval_idx: i as usize, interval_err: IntervalError::ZeroIntervalInAnon }
                    && spec_anon_from_raw(raw.ranges@[i], data_offset, offset_idx@) is Err
                    && forall|j: int| 0 <= j < i ==> spec_anon_from_raw(#[trigger] raw.ranges@[j], data_offset, offset_idx@) is Ok,
            },
    {
        let mut ranges: Vec<Interval<AnonIntervalData>> = Vec::new();
        let mut i: usize = 0;
        while i < 3
            invariant
                i <= 3,
                raw.wf(),
                forall|k: int| 0 <= k < 3 ==> raw_data_resolvable(#[trigger] raw.ranges@[k], data_offset, *deduper, offset_idx@),
                ranges@.len() == i,
                forall|k: int| 0 <= k < i ==> spec_anon_from_raw(#[trigger] raw.ranges@[k], data_offset, offset_idx@) == Ok::<_, IntervalError>(ranges@[k]),
            decreases 3 - i,
        {
            match Interval::from_raw_anon(&raw.ranges[i], data_offset, deduper, offset_idx) {
                Ok(ival) => ranges.push(ival),
                Err(interval_err) => {
                    return Err(ITreeNodeError::Interval { interval_idx: i, interval_err });
                },
            }
            i = i + 1;
        }
        Ok(ITreeNode { ranges })
    }
}

impl ITreeNode<RefIntervalData> {
    /// Build an [`ITreeNode`] for an reference segment
    pub fn from_raw_ref(
        raw: &RawITreeNode,
        data_offset: u64,
        deduper: &Deduper,
        offset_idx: &Vec<((u64, u64), DedupToken)>,
    ) -> (r: Self)
        requires
            raw.wf(),
            forall|i: int| 0 <= i < 3 ==> raw_data_resolvable(#[trigger] raw.ranges@[i], data_offset, *deduper, offset_idx@),
        ensures
            r.wf(),
            forall|i: int| 0 <= i < 3 ==> #[trigger] r.ranges@[i] == spec_ref_from_raw(raw.ranges@[i], data_offset, offset_idx@),
    {
        let mut ranges: Vec<Interval<RefIntervalData>> = Vec::new();
        let mut i: usize = 0;
        while i < 3
            invariant
                i <= 3,
                raw.wf(),
                forall|k: int| 0 <= k < 3 ==> raw_data_resolvable(#[trigger] raw.ranges@[k], data_offset, *deduper, offset_idx@),
                ranges@.len() == i,
                forall|k: int| 0 <= k < i ==> #[trigger] ranges@[k] == spec_ref_from_raw(raw.ranges@[k], data_offset, offset_idx@),
            decreases 3 - i,
        {
            ranges.push(Interval::from_raw_ref(&raw.ranges[i], data_offset, deduper, offset_idx));
            i = i + 1;
        }
        ITreeNode { ranges }
    }
}

/// Lowering an interval: the intermediate interval it becomes, and the deduper's slots once its
/// owned data (if any) moved in
pub open spec fn lower_iv<Data: IntervalData>(iv: Interval<Data>, d: Seq<Option<Seq<u8>>>) -> (
    IntermediateInterval,
    Seq<Option<Seq<u8>>>,
) {
    match iv.data.kind() {
        DataKind::Absent => (IntermediateInterval::spec_empty(), d),
        DataKind::Zero => (IntermediateInterval { start: iv.start, end: iv.end, data: IntermediateIntervalData::Zero }, d),
        DataKind::Ref => (
            IntermediateInterval { start: iv.start, end: iv.end, data: IntermediateIntervalData::Ref(iv.data.token()) },
            d,
        ),
        DataKind::Owned => {
            let (s, t) = spec_insert(d, iv.data.owned_bytes());
            (IntermediateInterval { start: iv.start, end: iv.end, data: IntermediateIntervalData::Ref(token_at(t)) }, s)
        },
    }
}

/// Lowering a sequence of intervals, one after the other
pub open spec fn lower_seq<Data: IntervalData>(s: Seq<Interval<Data>>, d: Seq<Option<Seq<u8>>>) -> (
    Seq<IntermediateInterval>,
    Seq<Option<Seq<u8>>>,
)
    decreases s.len(),
{
    if s.len() == 0 {
        (seq![], d)
    } else {
        let p = lower_seq(s.drop_last(), d);
        let l = lower_iv(s.last(), p.1);
        (p.0.push(l.0), l.1)
    }
}

/// Lowering a concatenation lowers one part, then the other
pub proof fn lemma_lower_seq_concat<Data: IntervalData>(a: Seq<Interval<Data>>, b: Seq<Interval<Data>>, d: Seq<Option<Seq<u8>>>)
    ensures
        lower_seq(a + b, d).0 == lower_seq(a, d).0 + lower_seq(b, lower_seq(a, d).1).0,
        lower_seq(a + b, d).1 == lower_seq(b, lower_seq(a, d).1).1,
    decreases b.len(),
{
    if b.len() == 0 {
        assert(a + b =~= a);
        assert(lower_seq(a, d).0 + Seq::<IntermediateInterval>::empty() =~= lower_seq(a, d).0);
    } else {
        assert((a + b).drop_last() =~= a + b.drop_last());
        assert((a + b).last() == b.last());
        lemma_lower_seq_concat(a, b.drop_last(), d);
        let pa = lower_seq(a, d);
        let pb = lower_seq(b.drop_last(), pa.1);
        let l = lower_iv(b.last(), pb.1);
        assert(pa.0 + pb.0.push(l.0) =~= (pa.0 + pb.0).push(l.0));
    }
}

/// Intermediate node: holds [`IntermediateInterval`]s, before the data is ordered
/// What lowering the slots `orig` into `r` gives, owned data now held by `d`
pub open spec fn lowered<Data: IntervalData>(orig: Seq<Interval<Data>>, r: Seq<IntermediateInterval>, d: Deduper) -> bool {
    &&& forall|i: int| 0 <= i < 3 ==> (#[trigger] r[i]).start == (if orig[i].data.kind() == DataKind::Absent { u64::MAX } else { orig[i].start })
    &&& forall|i: int| 0 <= i < 3 ==> (#[trigger] r[i]).end == (if orig[i].data.kind() == DataKind::Absent { u64::MAX } else { orig[i].end })
    &&& forall|i: int| 0 <= i < 3 ==> ((#[trigger] r[i]).data is NoData <==> orig[i].data.kind() == DataKind::Absent)
    &&& forall|i: int| 0 <= i < 3 ==> ((#[trigger] r[i]).data is Zero <==> orig[i].data.kind() == DataKind::Zero)
    &&& forall|i: int| 0 <= i < 3 ==> orig[i].data.kind() == DataKind::Ref ==> (#[trigger] r[i]).data == IntermediateIntervalData::Ref(orig[i].data.token())
    &&& forall|i: int| 0 <= i < 3 ==> orig[i].data.kind() == DataKind::Owned ==> ((#[trigger] r[i]).data matches IntermediateIntervalData::Ref(t) && d.has_token(t) && d.data_of(t) == orig[i].data.owned_bytes())
}

#[derive(Debug, Clone, PartialEq, Eq)]
pub struct IntermediateITreeNode {
    pub ranges: Vec<IntermediateInterval>,
}

impl Default for IntermediateITreeNode {
    fn default() -> (r: Self)
        ensures
            r.wf(),
            forall|i: int| 0 <= i < 3 ==> #[trigger] r.ranges@[i] == IntermediateInterval::spec_empty(),
    {
        let mut ranges = Vec::new();
        ranges.push(IntermediateInterval::empty());
        ranges.push(IntermediateInterval::empty());
        ranges.push(IntermediateInterval::empty());
        IntermediateITreeNode { ranges }
    }
}

impl IntermediateITreeNode {
    /// The node holds exactly [`IVAL_PER_NODE`] intervals
    pub open spec fn wf(&self) -> bool {
        self.ranges@.len() == IVAL_PER_NODE
    }

    /// Lower a materialized node: each interval is lowered in turn, owned data moving into the
    /// deduper
    pub fn from_materialized<Data: IntervalData>(node: ITreeNode<Data>, deduper: &mut Deduper) -> (r: Self)
        requires
            node.wf(),
        ensures
            r.wf(),
            lowered(node.ranges@, r.ranges@, *final(deduper)),
            forall|t: DedupToken| #[trigger] old(deduper).has_token(t) ==> final(deduper).has_token(t) && final(deduper).data_of(t) == old(deduper).data_of(t),
            r.ranges@ == lower_seq(node.ranges@, old(deduper)@).0,
            final(deduper)@ == lower_seq(node.ranges@, old(deduper)@).1,
    {
        let ghost d0 = deduper@;
        let mut node = node;
        let mut out: Vec<IntermediateInterval> = Vec::new();
        let ghost orig = node.ranges@;
        let mut rev: Vec<Interval<Data>> = Vec::new();
        while node.ranges.len() > 0
            invariant
                rev@.len() + node.ranges@.len() == 3,
                node.ranges@ == orig.subrange(0, node.ranges@.len() as int),
                orig.len() == 3,
                forall|k: int| 0 <= k < rev@.len() ==> #[trigger] rev@[k] == orig[2 - k],
            decreases node.ranges@.len(),
        {
            let e = node.ranges.pop().unwrap();
            rev.push(e);
        }
        let mut i: usize = 0;
        while rev.len() > 0
            invariant
                i + rev@.len() == 3,
                orig.len() == 3,
                forall|k: int| 0 <= k < rev@.len() ==> #[trigger] rev@[k] == orig[2 - k],
                out@.len() == i,
                forall|k: int| 0 <= k < i ==> (#[trigger] out@[k]).start == (if orig[k].data.kind() == DataKind::Absent { u64::MAX } else { orig[k].start }),
                forall|k: int| 0 <= k < i ==> (#[trigger] out@[k]).end == (if orig[k].data.kind() == DataKind::Absent { u64::MAX } else { orig[k].end }),
                forall|k: int| 0 <= k < i ==> ((#[trigger] out@[k]).data is NoData <==> orig[k].data.kind() == DataKind::Absent),
                forall|k: int| 0 <= k < i ==> ((#[trigger] out@[k]).data is Zero <==> orig[k].data.kind() == DataKind::Zero),
                forall|k: int| 0 <= k < i ==> orig[k].data.kind() == DataKind::Ref ==> (#[trigger] out@[k]).data == IntermediateIntervalData::Ref(orig[k].data.token()),
                forall|t: DedupToken| old(deduper).has_token(t) ==> #[trigger] deduper.has_token(t) && deduper.data_of(t) == old(deduper).data_of(t),
                forall|k: int| 0 <= k < i ==> orig[k].data.kind() == DataKind::Owned ==> ((#[trigger] out@[k]).data matches IntermediateIntervalData::Ref(t) && deduper.has_token(t) && deduper.data_of(t) == orig[k].data.owned_bytes()),
                out@ == lower_seq(orig.take(i as int), d0).0,
                deduper@ == lower_seq(orig.take(i as int), d0).1,
                d0 == old(deduper)@,
            decreases rev@.len(),
        {
            let ival = rev.pop().unwrap();
            proof {
                assert(orig.take(i + 1).drop_last() =~= orig.take(i as int));
                assert(orig.take(i + 1).last() == ival);
            }
            let ghost before = *deduper;
            let inter = IntermediateInterval::from_materialized(ival, deduper);
            proof {
                crate::deduper::lemma_find_holds(before@, ival.data.owned_bytes(), 0);
                crate::deduper::lemma_insert_keeps(before@, ival.data.owned_bytes());
                assert forall|t: DedupToken| before.has_token(t) implies #[trigger] deduper.has_token(t) && deduper.data_of(t) == before.data_of(t) by {
                    if ival.data.kind() == DataKind::Owned {
                        assert(deduper@[t.index()] == before@[t.index()]);
                    }
                }
                if ival.data.kind() == DataKind::Owned {
                    let t = inter.data->Ref_0;
                    assert(deduper.has_token(t));
                    lemma_token_at(t);
                }
            }
            out.push(inter);
            i = i + 1;
        }
        assert(orig.take(3) =~= orig);
        IntermediateITreeNode { ranges: out }
    }

    /// Lower an anonymous node
    pub fn from_materialized_anon(node: ITreeNode<AnonIntervalData>, deduper: &mut Deduper) -> (r: Self)
        requires
            node.wf(),
        ensures
            r.wf(),
            lowered(node.ranges@, r.ranges@, *final(deduper)),
            forall|t: DedupToken| #[trigger] old(deduper).has_token(t) ==> final(deduper).has_token(t) && final(deduper).data_of(t) == old(deduper).data_of(t),
            r.ranges@ == lower_seq(node.ranges@, old(deduper)@).0,
            final(deduper)@ == lower_seq(node.ranges@, old(deduper)@).1,
    {
        Self::from_materialized(node, deduper)
    }

    /// Lower a reference node
    pub fn from_materialized_ref(node: ITreeNode<RefIntervalData>, deduper: &mut Deduper) -> (r: Self)
        requires
            node.wf(),
        ensures
            r.wf(),
            lowered(node.ranges@, r.ranges@, *final(deduper)),
            forall|t: DedupToken| #[trigger] old(deduper).has_token(t) ==> final(deduper).has_token(t) && final(deduper).data_of(t) == old(deduper).data_of(t),
            r.ranges@ == lower_seq(node.ranges@, old(deduper)@).0,
            final(deduper)@ == lower_seq(node.ranges@, old(deduper)@).1,
    {
        Self::from_materialized(node, deduper)
    }
}

} // verus!
