//! Immutable view over the interval tree

use vstd::prelude::*;
use crate::deduper::Deduper;
use crate::itree::interval::{AnonIntervalData, DataSource, Interval, IntervalData, LogicalInterval, RefIntervalData};
use crate::itree::itree_node::{all_bounds_ok, count_data, count_present, data_size, zero_size};
use crate::itree::tree::{ITree, gap_hi, gap_lo, holds_addr, nodes_wf, private_pages_of, refs_held, sub_bounds, sum_nodes};

verus! {

/// What resolving `addr` in `t` gives: the logical interval of a slot holding it, or a gap that
/// resolves to `implicit`; in a search tree, a gap comes exactly when no slot holds the address,
/// and it runs between the neighbouring intervals (or the ends of the range)
pub open spec fn resolved_in<Data: IntervalData>(t: ITree<Data>, addr: u64, r: LogicalInterval, implicit: DataSource) -> bool {
    ||| (exists|a: int, b: int| 0 <= a < t.nodes@.len() && 0 <= b < 3 && {
            let iv = #[trigger] t.nodes@[a].ranges@[b];
            iv.start <= addr < iv.end && r == iv.spec_logical()
        }) && (t.is_search_tree() ==> holds_addr(sub_bounds(t.nodes@, 0), addr))
    ||| r.source == implicit && (t.is_search_tree() ==> !holds_addr(sub_bounds(t.nodes@, 0), addr) && r.start
            == gap_lo(sub_bounds(t.nodes@, 0), addr, t.virtual_range.0) && r.end == gap_hi(
            sub_bounds(t.nodes@, 0),
            addr,
            t.virtual_range.1,
        ))
}

/// The logical interval that looking `addr` up in `t` gives, gaps resolving to `implicit`
pub open spec fn logical_resolve<Data: IntervalData>(t: ITree<Data>, addr: u64, implicit: DataSource) -> LogicalInterval {
    match t.spec_resolve(addr) {
        Ok(iv) => iv.spec_logical(),
        Err(g) => LogicalInterval { start: g.0, end: g.1, source: implicit },
    }
}

/// Generic view over the two possible types of [`ITree`]
pub enum ITreeView<'a> {
    /// Anonymous [`ITree`]
    Anon { inner: &'a ITree<AnonIntervalData> },
    /// Reference [`ITree`]
    Ref { inner: &'a ITree<RefIntervalData> },
}

impl<'a> ITreeView<'a> {
    /// The viewed tree has three slots per node and a bounded number of nodes
    pub open spec fn wf(&self) -> bool {
        match self {
            ITreeView::Anon { inner } => nodes_wf(inner.nodes@) && inner.nodes@.len() <= usize::MAX / 16,
            ITreeView::Ref { inner } => nodes_wf(inner.nodes@) && inner.nodes@.len() <= usize::MAX / 16,
        }
    }

    /// Size of the [`ITree`] in number of nodes
    pub fn n_nodes(&self) -> (r: usize)
        ensures
            r == match self {
                ITreeView::Anon { inner } => inner.nodes@.len(),
                ITreeView::Ref { inner } => inner.nodes@.len(),
            },
    {
        match self {
            ITreeView::Anon { inner } => inner.n_nodes(),
            ITreeView::Ref { inner } => inner.n_nodes(),
        }
    }

    /// Size of the [`ITree`] in number of intervals
    pub fn n_intervals(&self) -> (r: usize)
        requires
            self.wf(),
        ensures
            r == match self {
                ITreeView::Anon { inner } => sum_nodes(inner.nodes@, |s: Seq<Interval<AnonIntervalData>>| count_present(s)),
                ITreeView::Ref { inner } => sum_nodes(inner.nodes@, |s: Seq<Interval<RefIntervalData>>| count_present(s)),
            },
    {
        match self {
            ITreeView::Anon { inner } => inner.n_intervals(),
            ITreeView::Ref { inner } => inner.n_intervals(),
        }
    }

    /// Number of intervals holding data
    pub fn n_data_intervals(&self) -> (r: usize)
        requires
            self.wf(),
        ensures
            r == match self {
                ITreeView::Anon { inner } => sum_nodes(inner.nodes@, |s: Seq<Interval<AnonIntervalData>>| count_data(s)),
                ITreeView::Ref { inner } => sum_nodes(inner.nodes@, |s: Seq<Interval<RefIntervalData>>| count_data(s)),
            },
    {
        match self {
            ITreeView::Anon { inner } => inner.n_data_intervals(),
            ITreeView::Ref { inner } => inner.n_data_intervals(),
        }
    }

    /// Size of _explicit_ mappings to the zero page
    pub fn zero_byte_size(&self) -> (r: u64)
        requires
            match self {
                ITreeView::Anon { inner } => (forall|i: int| 0 <= i < inner.nodes@.len() ==> all_bounds_ok(
                    #[trigger] inner.nodes@[i].ranges@,
                )) && sum_nodes(inner.nodes@, |s: Seq<Interval<AnonIntervalData>>| zero_size(s)) <= u64::MAX,
                ITreeView::Ref { inner } => (forall|i: int| 0 <= i < inner.nodes@.len() ==> all_bounds_ok(
                    #[trigger] inner.nodes@[i].ranges@,
                )) && sum_nodes(inner.nodes@, |s: Seq<Interval<RefIntervalData>>| zero_size(s)) <= u64::MAX,
            },
        ensures
            r == match self {
                ITreeView::Anon { inner } => sum_nodes(inner.nodes@, |s: Seq<Interval<AnonIntervalData>>| zero_size(s)),
                ITreeView::Ref { inner } => sum_nodes(inner.nodes@, |s: Seq<Interval<RefIntervalData>>| zero_size(s)),
            },
    {
        match self {
            ITreeView::Anon { inner } => inner.zero_byte_size(),
            ITreeView::Ref { inner } => inner.zero_byte_size(),
        }
    }

    /// Size of mappings to data
    pub fn private_data_size(&self) -> (r: u64)
        requires
            match self {
                ITreeView::Anon { inner } => (forall|i: int| 0 <= i < inner.nodes@.len() ==> all_bounds_ok(
                    #[trigger] inner.nodes@[i].ranges@,
                )) && sum_nodes(inner.nodes@, |s: Seq<Interval<AnonIntervalData>>| data_size(s)) <= u64::MAX,
                ITreeView::Ref { inner } => (forall|i: int| 0 <= i < inner.nodes@.len() ==> all_bounds_ok(
                    #[trigger] inner.nodes@[i].ranges@,
                )) && sum_nodes(inner.nodes@, |s: Seq<Interval<RefIntervalData>>| data_size(s)) <= u64::MAX,
            },
        ensures
            r == match self {
                ITreeView::Anon { inner } => sum_nodes(inner.nodes@, |s: Seq<Interval<AnonIntervalData>>| data_size(s)),
                ITreeView::Ref { inner } => sum_nodes(inner.nodes@, |s: Seq<Interval<RefIntervalData>>| data_size(s)),
            },
    {
        match self {
            ITreeView::Anon { inner } => inner.private_data_size(),
            ITreeView::Ref { inner } => inner.private_data_size(),
        }
    }

    /// The private pages in the interval tree, in order
    pub fn iter_private_pages(&self, deduper: &'a Deduper) -> (r: Vec<&'a [u8]>)
        requires
            match self {
                ITreeView::Anon { inner } => nodes_wf(inner.nodes@) && refs_held(inner.in_order(), *deduper),
                ITreeView::Ref { inner } => nodes_wf(inner.nodes@) && refs_held(inner.in_order(), *deduper),
            },
        ensures
            match self {
                ITreeView::Anon { inner } => r@.len() == private_pages_of(inner.in_order(), *deduper).len()
                    && forall|k: int| 0 <= k < r@.len() ==> (#[trigger] r@[k])@ == private_pages_of(inner.in_order(), *deduper)[k],
                ITreeView::Ref { inner } => r@.len() == private_pages_of(inner.in_order(), *deduper).len()
                    && forall|k: int| 0 <= k < r@.len() ==> (#[trigger] r@[k])@ == private_pages_of(inner.in_order(), *deduper)[k],
            },
    {
        match self {
            ITreeView::Anon { inner } => inner.iter_private_pages(deduper),
            ITreeView::Ref { inner } => inner.iter_private_pages(deduper),
        }
    }

    /// What resolving `addr` in the viewed tree gives
    pub open spec fn spec_resolve(&self, addr: u64) -> LogicalInterval {
        match self {
            ITreeView::Anon { inner } => logical_resolve(**inner, addr, DataSource::Zero),
            ITreeView::Ref { inner } => logical_resolve(**inner, addr, DataSource::Shared),
        }
    }

    /// Resolve an address in the interval tree: what backs it, and over which interval
    ///
    /// Addresses that no interval holds are backed by the zero page in an anonymous tree and
    /// by the reference file in a reference tree.
    pub fn resolve(&self, addr: u64) -> (r: LogicalInterval)
        requires
            self.wf(),
        ensures
            r == self.spec_resolve(addr),
            match self {
                ITreeView::Anon { inner } => resolved_in(**inner, addr, r, DataSource::Zero),
                ITreeView::Ref { inner } => resolved_in(**inner, addr, r, DataSource::Shared),
            },
    {
        match self {
            ITreeView::Anon { inner } => match inner.resolve(addr) {
                Ok(iv) => iv.logical(),
                Err((start, end)) => LogicalInterval { start, end, source: DataSource::Zero },
            },
            ITreeView::Ref { inner } => match inner.resolve(addr) {
                Ok(iv) => iv.logical(),
                Err((start, end)) => LogicalInterval { start, end, source: DataSource::Shared },
            },
        }
    }
}

} // verus!
