//! Interval representation

use vstd::prelude::*;
use crate::deduper::{DedupToken, Deduper, spec_insert};
use crate::utils::copy_bytes;
use core::cmp::Ordering;

verus! {

/// Data source resolved by the [`crate::itree::ITree`]
#[derive(Clone, Copy, Debug, PartialEq, Eq, Structural)]
pub enum DataSource {
    Zero,
    Shared,
    Private,
}

/// A logical interval, i.e.: what the generic interval tree resolves to
///
/// Internally, the interval tree can resolve to nothing (i.e., the resolution is surmised from the
/// itree type). However, it is generally useful to understand what the implied interval is
#[derive(Clone, Copy, Debug, PartialEq, Eq, Structural)]
pub struct LogicalInterval {
    pub start: u64,
    pub end: u64,
    pub source: DataSource,
}

/// The shape of the data attached to an interval
#[derive(Clone, Copy, Debug, PartialEq, Eq, Structural)]
pub enum DataKind {
    /// The data is held by the interval
    Owned,
    /// The data is held by a deduper
    Ref,
    /// The interval maps the zero page
    Zero,
    /// The interval maps nothing
    Absent,
}

/// Generic Interval Data
pub trait IntervalData: Sized {
    /// The shape of the data
    spec fn kind(&self) -> DataKind;

    /// The bytes held, when the data is owned
    spec fn owned_bytes(&self) -> Seq<u8>;

    /// The deduper token, when the data is referenced
    spec fn token(&self) -> DedupToken;

    /// What an address that falls in no interval of such a tree resolves to
    spec fn implicit_source() -> DataSource;

    /// Whether the data may take the zero-page shape
    spec fn allows_zero() -> bool;

    /// The data can take the given shape
    spec fn kind_ok(&self) -> bool;

    /// Check if it references the zero page
    fn is_zero(&self) -> (r: bool)
        ensures
            r == (self.kind() == DataKind::Zero),
    ;

    /// Check if it a non-existing interval
    fn is_none(&self) -> (r: bool)
        ensures
            r == (self.kind() == DataKind::Absent),
    ;

    /// Check if it has data
    fn is_data(&self) -> (r: bool)
        ensures
            r == (self.kind() == DataKind::Owned || self.kind() == DataKind::Ref),
    ;

    /// Check if the data is owned
    fn is_owned(&self) -> (r: bool)
        ensures
            r == (self.kind() == DataKind::Owned),
    ;

    /// Check if the data is referenced
    fn is_ref(&self) -> (r: bool)
        ensures
            r == (self.kind() == DataKind::Ref),
    ;

    /// Remove the data, if owned (the data is left owning nothing)
    fn take_data(&mut self) -> (r: Option<Vec<u8>>)
        ensures
            old(self).kind() == DataKind::Owned ==> (r matches Some(v) && v@ == old(
                self,
            ).owned_bytes() && final(self).kind() == DataKind::Owned && final(self).owned_bytes()
                == Seq::<u8>::empty()),
            old(self).kind() != DataKind::Owned ==> r is None && final(self).kind() == old(
                self,
            ).kind() && final(self).token() == old(self).token(),
    ;

    /// Dedup data, if owned
    fn dedup(&mut self, deduper: &mut Deduper)
        ensures
            old(self).kind() == DataKind::Owned ==> ({
                let (s, t) = spec_insert(old(deduper)@, old(self).owned_bytes());
                &&& final(self).kind() == DataKind::Ref
                &&& final(deduper)@ == s
                &&& final(self).token().index() == t
            }),
            old(self).kind() != DataKind::Owned ==> final(self).kind() == old(self).kind()
                && final(self).token() == old(self).token() && final(deduper)@ == old(deduper)@,
    ;

    /// View the data (whether owned or referenced)
    fn get_data<'a>(&'a self, deduper: &'a Deduper) -> (r: Option<&'a [u8]>)
        requires
            self.kind() == DataKind::Ref ==> deduper.has_token(self.token()),
        ensures
            self.kind() == DataKind::Owned ==> (r matches Some(d) && d@ == self.owned_bytes()),
            self.kind() == DataKind::Ref ==> (r matches Some(d) && d@ == deduper.data_of(
                self.token(),
            )),
            self.kind() == DataKind::Zero || self.kind() == DataKind::Absent ==> r is None,
    ;

    /// Return the dedup token if it is a reference
    fn dedup_token(&self) -> (r: Option<DedupToken>)
        ensures
            self.kind() == DataKind::Ref ==> r == Some(self.token()),
            self.kind() != DataKind::Ref ==> r is None,
    ;

    /// Data that maps nothing
    fn none() -> (r: Self)
        ensures
            r.kind() == DataKind::Absent,
            r.kind_ok(),
    ;

    /// Data owning the given bytes
    fn owned(v: Vec<u8>) -> (r: Self)
        ensures
            r.kind() == DataKind::Owned,
            r.owned_bytes() == v@,
            r.kind_ok(),
    ;

    /// Data that references a deduped segment
    fn reference(token: DedupToken) -> (r: Self)
        ensures
            r.kind() == DataKind::Ref,
            r.token() == token,
            r.kind_ok(),
    ;

    /// A copy of the data
    fn duplicate(&self) -> (r: Self)
        ensures
            r.kind() == self.kind(),
            r.owned_bytes() == self.owned_bytes(),
            r.token() == self.token(),
            r.kind_ok() == self.kind_ok(),
    ;

    /// The source resolved by an interval holding this data
    fn source(&self) -> (r: DataSource)
        ensures
            r == (match self.kind() {
                DataKind::Owned => DataSource::Private,
                DataKind::Ref => DataSource::Private,
                DataKind::Zero => DataSource::Zero,
                DataKind::Absent => Self::implicit_source(),
            }),
    ;

    /// The source resolved by addresses that no interval holds
    fn implicit() -> (r: DataSource)
        ensures
            r == Self::implicit_source(),
    ;
}

/// The source resolved by an interval holding data of the given shape
pub open spec fn spec_data_source<Data: IntervalData>(kind: DataKind) -> DataSource {
    match kind {
        DataKind::Owned => DataSource::Private,
        DataKind::Ref => DataSource::Private,
        DataKind::Zero => DataSource::Zero,
        DataKind::Absent => Data::implicit_source(),
    }
}

/// Data for an anonymous segment resolved by an interval
#[derive(Debug, Clone, PartialEq, Eq)]
pub enum AnonIntervalData {
    Owned(Vec<u8>),
    Ref(DedupToken),
    NoData,
}

/// Data for a reference segment resolved by an interval
#[derive(Debug, Clone, PartialEq, Eq)]
pub enum RefIntervalData {
    Owned(Vec<u8>),
    Ref(DedupToken),
    Zero,
    NoData,
}

impl Default for AnonIntervalData {
    fn default() -> (r: Self)
        ensures
            r is NoData,
    {
        AnonIntervalData::NoData
    }
}

impl Default for RefIntervalData {
    fn default() -> (r: Self)
        ensures
            r is NoData,
    {
        RefIntervalData::NoData
    }
}

impl IntervalData for AnonIntervalData {
    open spec fn kind(&self) -> DataKind {
        match self {
            AnonIntervalData::Owned(_) => DataKind::Owned,
            AnonIntervalData::Ref(_) => DataKind::Ref,
            AnonIntervalData::NoData => DataKind::Absent,
        }
    }

    open spec fn owned_bytes(&self) -> Seq<u8> {
        match self {
            AnonIntervalData::Owned(v) => v@,
            _ => Seq::empty(),
        }
    }

    open spec fn token(&self) -> DedupToken {
        match self {
            AnonIntervalData::Ref(t) => *t,
            _ => arbitrary(),
        }
    }

    open spec fn implicit_source() -> DataSource {
        DataSource::Zero
    }

    open spec fn allows_zero() -> bool {
        false
    }

    open spec fn kind_ok(&self) -> bool {
        self.kind() != DataKind::Zero
    }

    fn is_zero(&self) -> (r: bool) {
        false
    }

    fn is_none(&self) -> (r: bool) {
        matches!(self, AnonIntervalData::NoData)
    }

    fn is_data(&self) -> (r: bool) {
        matches!(self, AnonIntervalData::Owned(_) | AnonIntervalData::Ref(_))
    }

    fn is_owned(&self) -> (r: bool) {
        matches!(self, AnonIntervalData::Owned(_))
    }

    fn is_ref(&self) -> (r: bool) {
        matches!(self, AnonIntervalData::Ref(_))
    }

    fn take_data(&mut self) -> (r: Option<Vec<u8>>) {
        if self.is_owned() {
            let mut old = AnonIntervalData::Owned(Vec::new());
            core::mem::swap(self, &mut old);
            match old {
                AnonIntervalData::Owned(v) => Some(v),
                _ => None,
            }
        } else {
            None
        }
    }

    fn dedup(&mut self, deduper: &mut Deduper) {
        if let Some(data) = self.take_data() {
            let token = deduper.insert(data);
            *self = AnonIntervalData::Ref(token);
        }
    }

    fn get_data<'a>(&'a self, deduper: &'a Deduper) -> (r: Option<&'a [u8]>) {
        match self {
            AnonIntervalData::Owned(v) => Some(v.as_slice()),
            AnonIntervalData::Ref(token) => Some(deduper.get(*token)),
            AnonIntervalData::NoData => None,
        }
    }

    fn dedup_token(&self) -> (r: Option<DedupToken>) {
        match self {
            AnonIntervalData::Ref(token) => Some(*token),
            _ => None,
        }
    }

    fn none() -> (r: Self) {
        AnonIntervalData::NoData
    }

    fn owned(v: Vec<u8>) -> (r: Self) {
        AnonIntervalData::Owned(v)
    }

    fn reference(token: DedupToken) -> (r: Self) {
        AnonIntervalData::Ref(token)
    }

    fn duplicate(&self) -> (r: Self) {
        match self {
            AnonIntervalData::Owned(v) => AnonIntervalData::Owned(copy_bytes(v.as_slice())),
            AnonIntervalData::Ref(t) => AnonIntervalData::Ref(*t),
            AnonIntervalData::NoData => AnonIntervalData::NoData,
        }
    }

    fn source(&self) -> (r: DataSource) {
        match self {
            AnonIntervalData::NoData => DataSource::Zero,
            _ => DataSource::Private,
        }
    }

    fn implicit() -> (r: DataSource) {
        DataSource::Zero
    }
}

impl IntervalData for RefIntervalData {
    open spec fn kind(&self) -> DataKind {
        match self {
            RefIntervalData::Owned(_) => DataKind::Owned,
            RefIntervalData::Ref(_) => DataKind::Ref,
            RefIntervalData::Zero => DataKind::Zero,
            RefIntervalData::NoData => DataKind::Absent,
        }
    }

    open spec fn owned_bytes(&self) -> Seq<u8> {
        match self {
            RefIntervalData::Owned(v) => v@,
            _ => Seq::empty(),
        }
    }

    open spec fn token(&self) -> DedupToken {
        match self {
            RefIntervalData::Ref(t) => *t,
            _ => arbitrary(),
        }
    }

    open spec fn implicit_source() -> DataSource {
        DataSource::Shared
    }

    open spec fn allows_zero() -> bool {
        true
    }

    open spec fn kind_ok(&self) -> bool {
        true
    }

    fn is_zero(&self) -> (r: bool) {
        matches!(self, RefIntervalData::Zero)
    }

    fn is_none(&self) -> (r: bool) {
        matches!(self, RefIntervalData::NoData)
    }

    fn is_data(&self) -> (r: bool) {
        matches!(self, RefIntervalData::Owned(_) | RefIntervalData::Ref(_))
    }

    fn is_owned(&self) -> (r: bool) {
        matches!(self, RefIntervalData::Owned(_))
    }

    fn is_ref(&self) -> (r: bool) {
        matches!(self, RefIntervalData::Ref(_))
    }

    fn take_data(&mut self) -> (r: Option<Vec<u8>>) {
        if self.is_owned() {
            let mut old = RefIntervalData::Owned(Vec::new());
            core::mem::swap(self, &mut old);
            match old {
                RefIntervalData::Owned(v) => Some(v),
                _ => None,
            }
        } else {
            None
        }
    }

    fn dedup(&mut self, deduper: &mut Deduper) {
        if let Some(data) = self.take_data() {
            let token = deduper.insert(data);
            *self = RefIntervalData::Ref(token);
        }
    }

    fn get_data<'a>(&'a self, deduper: &'a Deduper) -> (r: Option<&'a [u8]>) {
        match self {
            RefIntervalData::Owned(v) => Some(v.as_slice()),
            RefIntervalData::Ref(token) => Some(deduper.get(*token)),
            _ => None,
        }
    }

    fn dedup_token(&self) -> (r: Option<DedupToken>) {
        match self {
            RefIntervalData::Ref(token) => Some(*token),
            _ => None,
        }
    }

    fn none() -> (r: Self) {
        RefIntervalData::NoData
    }

    fn owned(v: Vec<u8>) -> (r: Self) {
        RefIntervalData::Owned(v)
    }

    fn reference(token: DedupToken) -> (r: Self) {
        RefIntervalData::Ref(token)
    }

    fn duplicate(&self) -> (r: Self) {
        match self {
            RefIntervalData::Owned(v) => RefIntervalData::Owned(copy_bytes(v.as_slice())),
            RefIntervalData::Ref(t) => RefIntervalData::Ref(*t),
            RefIntervalData::Zero => RefIntervalData::Zero,
            RefIntervalData::NoData => RefIntervalData::NoData,
        }
    }

    fn source(&self) -> (r: DataSource) {
        match self {
            RefIntervalData::NoData => DataSource::Shared,
            RefIntervalData::Zero => DataSource::Zero,
            _ => DataSource::Private,
        }
    }

    fn implicit() -> (r: DataSource) {
        DataSource::Shared
    }
}

/// Convert reference data into anonymous data: the zero page becomes the implicit (zero)
/// mapping of an anonymous tree; a missing interval cannot be converted
pub fn anon_from_ref(value: RefIntervalData) -> (r: Option<AnonIntervalData>)
    ensures
        value is Zero ==> r == Some(AnonIntervalData::NoData),
        value is Ref ==> r == Some(AnonIntervalData::Ref(value->Ref_0)),
        value is Owned ==> (r matches Some(AnonIntervalData::Owned(v)) && v@ == value->Owned_0@),
        value is NoData ==> r is None,
{
    match value {
        RefIntervalData::Zero => Some(AnonIntervalData::NoData),
        RefIntervalData::Ref(tok) => Some(AnonIntervalData::Ref(tok)),
        RefIntervalData::Owned(data) => Some(AnonIntervalData::Owned(data)),
        RefIntervalData::NoData => None,
    }
}

/// Interval representation
///
/// We consider an interval valid if `start != u64::MAX` and `end != u64::MAX`
#[derive(Debug, PartialEq, Eq)]
pub struct Interval<Data: IntervalData> {
    pub start: u64,
    pub end: u64,
    pub data: Data,
}

/// The intersection of the interval `[a0; a1)` with a non-empty query `[b0; b1)`, if not empty
pub open spec fn spec_intersect(a0: u64, a1: u64, b0: u64, b1: u64) -> Option<(u64, u64)> {
    let s = if b0 < a0 { a0 } else { b0 };
    let e = if b1 < a1 { b1 } else { a1 };
    if b0 < b1 && s < e {
        Some((s, e))
    } else {
        None
    }
}

impl<Data: IntervalData> Interval<Data> {
    /// The interval maps nothing
    pub open spec fn spec_is_none(&self) -> bool {
        self.start == u64::MAX || self.end == u64::MAX || self.data.kind() == DataKind::Absent
    }

    /// Its bounds are ordered
    pub open spec fn bounds_ok(&self) -> bool {
        self.start <= self.end
    }

    /// Number of bytes mapped
    pub open spec fn spec_len(&self) -> nat {
        if self.spec_is_none() {
            0
        } else {
            (self.end - self.start) as nat
        }
    }

    /// The logical interval this interval stands for
    pub open spec fn spec_logical(&self) -> LogicalInterval {
        LogicalInterval {
            start: self.start,
            end: self.end,
            source: spec_data_source::<Data>(self.data.kind()),
        }
    }

    /// Manually create an interval
    pub fn new(start: u64, end: u64, data: Data) -> (r: Self)
        ensures
            r.start == start,
            r.end == end,
            r.data == data,
    {
        Interval { start, end, data }
    }

    /// An interval that maps nothing
    pub fn empty() -> (r: Self)
        ensures
            r.start == u64::MAX,
            r.end == u64::MAX,
            r.data.kind() == DataKind::Absent,
            r.data.kind_ok(),
            r.spec_is_none(),
    {
        Interval { start: u64::MAX, end: u64::MAX, data: Data::none() }
    }

    /// Check if the interval actually maps something or is just a stub
    pub fn is_none(&self) -> (r: bool)
        ensures
            r == self.spec_is_none(),
    {
        self.start == u64::MAX || self.end == u64::MAX || self.data.is_none()
    }

    /// Check if the interval maps to the zero page
    pub fn is_zero(&self) -> (r: bool)
        ensures
            r == (self.data.kind() == DataKind::Zero),
    {
        self.data.is_zero()
    }

    /// Check if the interval maps to the private data
    pub fn is_data(&self) -> (r: bool)
        ensures
            r == (self.data.kind() == DataKind::Owned || self.data.kind() == DataKind::Ref),
    {
        self.data.is_data()
    }

    /// Intersect the interval with another interval
    pub fn intersect(&self, start: u64, end: u64) -> (r: Option<(u64, u64)>)
        ensures
            r == spec_intersect(self.start, self.end, start, end),
    {
        if start >= end {
            return None;
        }
        let s = if start < self.start {
            self.start
        } else if start < self.end {
            start
        } else {
            self.end
        };
        let e = if end > self.end {
            self.end
        } else if end > self.start {
            end
        } else {
            self.start
        };
        if s < e {
            Some((s, e))
        } else {
            None
        }
    }

    /// Length of the mapped interval
    pub fn len(&self) -> (r: u64)
        requires
            !self.spec_is_none() ==> self.bounds_ok(),
        ensures
            r == self.spec_len(),
    {
        if self.is_none() {
            0
        } else {
            self.end - self.start
        }
    }

    /// Compare an address with this interval
    pub fn cmp(&self, addr: u64) -> (r: Ordering)
        ensures
            r == if addr < self.start {
                Ordering::Less
            } else if addr < self.end {
                Ordering::Equal
            } else {
                Ordering::Greater
            },
    {
        if addr < self.start {
            Ordering::Less
        } else if addr < self.end {
            Ordering::Equal
        } else {
            Ordering::Greater
        }
    }

    /// The logical interval resolved by this interval
    pub fn logical(&self) -> (r: LogicalInterval)
        ensures
            r == self.spec_logical(),
    {
        LogicalInterval { start: self.start, end: self.end, source: self.data.source() }
    }

    /// A copy of the interval
    pub fn duplicate(&self) -> (r: Self)
        ensures
            r.start == self.start,
            r.end == self.end,
            r.data.kind() == self.data.kind(),
            r.data.owned_bytes() == self.data.owned_bytes(),
            r.data.token() == self.data.token(),
            r.data.kind_ok() == self.data.kind_ok(),
    {
        Interval { start: self.start, end: self.end, data: self.data.duplicate() }
    }
}

impl<Data: IntervalData> Default for Interval<Data> {
    fn default() -> (r: Self)
        ensures
            r.start == u64::MAX,
            r.end == u64::MAX,
            r.data.kind() == DataKind::Absent,
    {
        Interval::empty()
    }
}

/// Data for an intermediate interval
///
/// Note that there are no more owned intervals, so this can be [`Copy`]
#[derive(Debug, Clone, Copy, PartialEq, Eq, Structural)]
pub enum IntermediateIntervalData {
    Ref(DedupToken),
    Zero,
    NoData,
}

/// Intermediate representation for intervals
///
/// This is done so we can first extract the interval from a materialized ITree
/// And then, independently, order the data segments
#[derive(Debug, Clone, Copy, PartialEq, Eq, Structural)]
pub struct IntermediateInterval {
    pub start: u64,
    pub end: u64,
    pub data: IntermediateIntervalData,
}

impl IntermediateInterval {
    /// The interval maps nothing
    pub open spec fn spec_is_none(&self) -> bool {
        self.start == u64::MAX || self.end == u64::MAX || self.data is NoData
    }

    /// An interval that maps nothing
    pub fn empty() -> (r: Self)
        ensures
            r == (IntermediateInterval {
                start: u64::MAX,
                end: u64::MAX,
                data: IntermediateIntervalData::NoData,
            }),
    {
        IntermediateInterval { start: u64::MAX, end: u64::MAX, data: IntermediateIntervalData::NoData }
    }

    /// Length of the mapped interval
    pub fn len(&self) -> (r: u64)
        requires
            !self.spec_is_none() ==> self.start <= self.end,
        ensures
            r == if self.spec_is_none() {
                0
            } else {
                self.end - self.start
            },
    {
        if self.is_none() {
            0
        } else {
            self.end - self.start
        }
    }

    /// Check if the interval actually maps something or is just a stub
    pub fn is_none(&self) -> (r: bool)
        ensures
            r == self.spec_is_none(),
    {
        self.start == u64::MAX || self.end == u64::MAX || matches!(self.data, IntermediateIntervalData::NoData)
    }

    /// Check if the interval maps to the zero page
    pub fn is_zero(&self) -> (r: bool)
        ensures
            r == (self.data is Zero),
    {
        matches!(self.data, IntermediateIntervalData::Zero)
    }

    /// The intermediate interval standing for a materialized interval: owned data is moved into
    /// the deduper
    pub fn from_materialized<Data: IntervalData>(interval: Interval<Data>, deduper: &mut Deduper) -> (r: Self)
        ensures
            interval.data.kind() == DataKind::Absent ==> r == IntermediateInterval::spec_empty()
                && final(deduper)@ == old(deduper)@,
            interval.data.kind() == DataKind::Zero ==> r == (IntermediateInterval {
                start: interval.start,
                end: interval.end,
                data: IntermediateIntervalData::Zero,
            }) && final(deduper)@ == old(deduper)@,
            interval.data.kind() == DataKind::Ref ==> r == (IntermediateInterval {
                start: interval.start,
                end: interval.end,
                data: IntermediateIntervalData::Ref(interval.data.token()),
            }) && final(deduper)@ == old(deduper)@,
            interval.data.kind() == DataKind::Owned ==> ({
                let (s, t) = spec_insert(old(deduper)@, interval.data.owned_bytes());
                &&& final(deduper)@ == s
                &&& r.start == interval.start
                &&& r.end == interval.end
                &&& (r.data matches IntermediateIntervalData::Ref(tok) && tok.index() == t)
            }),
    {
        let Interval { start, end, mut data } = interval;
        if data.is_none() {
            IntermediateInterval::empty()
        } else if data.is_zero() {
            IntermediateInterval { start, end, data: IntermediateIntervalData::Zero }
        } else if data.is_ref() {
            let tok = data.dedup_token().unwrap();
            IntermediateInterval { start, end, data: IntermediateIntervalData::Ref(tok) }
        } else {
            let bytes = data.take_data().unwrap();
            let token = deduper.insert(bytes);
            IntermediateInterval { start, end, data: IntermediateIntervalData::Ref(token) }
        }
    }

    /// The empty intermediate interval
    pub open spec fn spec_empty() -> Self {
        IntermediateInterval {
            start: u64::MAX,
            end: u64::MAX,
            data: IntermediateIntervalData::NoData,
        }
    }

    /// Lower an anonymous interval
    pub fn from_materialized_anon(interval: Interval<AnonIntervalData>, deduper: &mut Deduper) -> (r: Self)
        ensures
            interval.data is NoData ==> r == IntermediateInterval::spec_empty() && final(deduper)@
                == old(deduper)@,
            interval.data is Ref ==> r == (IntermediateInterval {
                start: interval.start,
                end: interval.end,
                data: IntermediateIntervalData::Ref(interval.data->Ref_0),
            }) && final(deduper)@ == old(deduper)@,
            interval.data is Owned ==> ({
                let (s, t) = spec_insert(old(deduper)@, interval.data->Owned_0@);
                &&& final(deduper)@ == s
                &&& r.start == interval.start
                &&& r.end == interval.end
                &&& (r.data matches IntermediateIntervalData::Ref(tok) && tok.index() == t)
            }),
    {
        Self::from_materialized(interval, deduper)
    }

    /// Lower a reference interval
    pub fn from_materialized_ref(interval: Interval<RefIntervalData>, deduper: &mut Deduper) -> (r: Self)
        ensures
            interval.data is NoData ==> r == IntermediateInterval::spec_empty() && final(deduper)@
                == old(deduper)@,
            interval.data is Zero ==> r == (IntermediateInterval {
                start: interval.start,
                end: interval.end,
                data: IntermediateIntervalData::Zero,
            }) && final(deduper)@ == old(deduper)@,
            interval.data is Ref ==> r == (IntermediateInterval {
                start: interval.start,
                end: interval.end,
                data: IntermediateIntervalData::Ref(interval.data->Ref_0),
            }) && final(deduper)@ == old(deduper)@,
            interval.data is Owned ==> ({
                let (s, t) = spec_insert(old(deduper)@, interval.data->Owned_0@);
                &&& final(deduper)@ == s
                &&& r.start == interval.start
                &&& r.end == interval.end
                &&& (r.data matches IntermediateIntervalData::Ref(tok) && tok.index() == t)
            }),
    {
        Self::from_materialized(interval, deduper)
    }
}

impl Default for IntermediateInterval {
    fn default() -> (r: Self)
        ensures
            r == IntermediateInterval::spec_empty(),
    {
        IntermediateInterval::empty()
    }
}

/// Raw interval representation
///
/// We consider an interval valid if `start != u64::MAX` and `end != u64::MAX`
/// If `offset == u64::MAX` it symbolizes that the interval references the zero page
#[derive(Debug, Clone, Copy, PartialEq, Eq, Structural)]
pub struct RawInterval {
    pub start: u64,
    pub end: u64,
    pub offset: u64,
}

impl RawInterval {
    /// The raw interval that stands for no interval
    pub open spec fn spec_default() -> Self {
        RawInterval { start: u64::MAX, end: u64::MAX, offset: u64::MAX }
    }

    /// The interval stands for no interval
    pub open spec fn spec_is_empty(&self) -> bool {
        self.start == u64::MAX || self.end == u64::MAX
    }

    /// The interval maps the zero page
    pub open spec fn spec_is_zero(&self) -> bool {
        self.offset == u64::MAX
    }

    /// The interval points to private data
    pub open spec fn spec_is_data(&self) -> bool {
        !self.spec_is_empty() && !self.spec_is_zero()
    }

    /// Length of the interval
    pub open spec fn spec_len(&self) -> nat {
        if self.spec_is_empty() {
            0
        } else {
            (self.end - self.start) as nat
        }
    }

    /// Size of a serialized raw interval
    pub fn serialized_size() -> (r: usize)
        ensures
            r == 24,
    {
        24
    }

    /// Build a raw interval
    pub fn new(start: u64, end: u64, offset: u64) -> (r: Self)
        ensures
            r == (RawInterval { start, end, offset }),
    {
        RawInterval { start, end, offset }
    }

    /// Length of the interval
    pub fn len(&self) -> (r: u64)
        requires
            !self.spec_is_empty() ==> self.start <= self.end,
        ensures
            r == self.spec_len(),
    {
        if self.is_empty() {
            0
        } else {
            self.end - self.start
        }
    }

    /// Check if the interval is empty
    pub fn is_empty(&self) -> (r: bool)
        ensures
            r == self.spec_is_empty(),
    {
        self.start == u64::MAX || self.end == u64::MAX
    }

    /// Check if the interval maps to the zero page
    pub fn is_zero(&self) -> (r: bool)
        ensures
            r == self.spec_is_zero(),
    {
        self.offset == u64::MAX
    }

    /// Check if the interval points to private data
    pub fn is_data(&self) -> (r: bool)
        ensures
            r == self.spec_is_data(),
    {
        !self.is_empty() && !self.is_zero()
    }
}

impl Default for RawInterval {
    fn default() -> (r: Self)
        ensures
            r == RawInterval::spec_default(),
    {
        RawInterval { start: u64::MAX, end: u64::MAX, offset: u64::MAX }
    }
}

} // verus!
