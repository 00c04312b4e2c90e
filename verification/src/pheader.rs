//! The pheader representation

use vstd::prelude::*;
use crate::deduper::{DedupToken, Deduper};
use crate::itree::interval::{AnonIntervalData, DataSource, Interval, IntervalData, LogicalInterval, RefIntervalData};
use crate::itree::itree_node::{all_bounds_ok, data_size, mapped_in, zero_size};
use crate::itree::tree::{ITree, dedup_slot, bnd, chain_gaps, nodes_wf, private_pages_of, ref_tokens, flat, refs_held, resolved_page, sum_nodes, tree_refs_held};
use crate::itree::view::{ITreeView, logical_resolve};
use crate::utils::PAGE_SIZE;

verus! {

/// VMA protection bits
#[derive(Debug, Clone, Copy, PartialEq, Eq, Structural)]
pub enum Prot {
    Read,
    Write,
    Exec,
}

impl Prot {
    /// The bit of the protection in a protection mask
    pub fn bit(&self) -> (r: u8)
        ensures
            r == match self {
                Prot::Read => 4u8,
                Prot::Write => 2u8,
                Prot::Exec => 1u8,
            },
    {
        match self {
            Prot::Read => 4,
            Prot::Write => 2,
            Prot::Exec => 1,
        }
    }
}

/// A materialized JIF pheader
///
/// There are two types of pheaders: anonymous and reference.
///
/// All pheaders include an address range, protections and an interval tree
///
/// Anonymous pheaders refer to anonymous memory.
/// The interval tree can only hold data.
/// Failing to resolve means it should be backed by the zero page.
///
/// Reference pheaders have a file that is backing all the segment.
/// As such, they also hold the information regarding said file.
/// Moreover, the interval tree intervals can refer either to data or to the zero page.
/// Failing to resolve means it should be backed by the underlying file mapping.
#[derive(Debug)]
pub enum JifPheader {
    Anonymous {
        /// virtual address range
        vaddr_range: (u64, u64),
        /// interval tree
        itree: ITree<AnonIntervalData>,
        /// VMA protections
        prot: u8,
    },
    Reference {
        /// virtual address range
        vaddr_range: (u64, u64),
        /// interval tree
        itree: ITree<RefIntervalData>,
        /// VMA protections
        prot: u8,
        /// reference path
        ref_path: String,
        /// reference into the file
        ref_offset: u64,
    },
}

/// A tree whose nodes hold three slots each and that has a bounded number of nodes
pub open spec fn tree_ok<Data: IntervalData>(t: ITree<Data>) -> bool {
    nodes_wf(t.nodes@) && t.nodes@.len() <= usize::MAX / 16
}

/// A tree whose mapped intervals have ordered bounds and whose sizes fit a `u64`
pub open spec fn tree_sized<Data: IntervalData>(t: ITree<Data>) -> bool {
    &&& forall|i: int| 0 <= i < t.nodes@.len() ==> all_bounds_ok(#[trigger] t.nodes@[i].ranges@)
    &&& sum_nodes(t.nodes@, |s: Seq<Interval<Data>>| zero_size(s)) <= u64::MAX
    &&& sum_nodes(t.nodes@, |s: Seq<Interval<Data>>| data_size(s)) <= u64::MAX
}

/// Bytes of the range of `t` that no interval maps
pub open spec fn implicit_size<Data: IntervalData>(t: ITree<Data>, range: (u64, u64)) -> int {
    (range.1 - range.0) - sum_nodes(t.nodes@, |s: Seq<Interval<Data>>| mapped_in(s, range.0, range.1))
}

/// Every slot of `after` is the slot of `before` with owned data moved into the deduper
pub open spec fn tree_deduped<Data: IntervalData>(before: ITree<Data>, after: ITree<Data>, d: Deduper) -> bool {
    &&& after.virtual_range == before.virtual_range
    &&& after.nodes@.len() == before.nodes@.len()
    &&& forall|a: int, b: int| 0 <= a < before.nodes@.len() && 0 <= b < 3 ==> dedup_slot(
        #[trigger] before.nodes@[a].ranges@[b],
        after.nodes@[a].ranges@[b],
        d,
    )
}

/// The pheader `after` is `before` with its owned data moved into the deduper `d`
pub open spec fn deduped(before: JifPheader, after: JifPheader, d: Deduper) -> bool {
    match before {
        JifPheader::Anonymous { vaddr_range, itree, prot } => {
            &&& after is Anonymous
            &&& after.spec_range() == vaddr_range
            &&& after.spec_prot() == prot
            &&& tree_deduped(itree, after->Anonymous_itree, d)
        },
        JifPheader::Reference { vaddr_range, itree, prot, ref_path, ref_offset } => {
            &&& after is Reference
            &&& after.spec_range() == vaddr_range
            &&& after.spec_prot() == prot
            &&& after->ref_path == ref_path
            &&& after->ref_offset == ref_offset
            &&& tree_deduped(itree, after->Reference_itree, d)
        },
    }
}

impl JifPheader {
    /// The virtual address range
    pub open spec fn spec_range(&self) -> (u64, u64) {
        match self {
            JifPheader::Anonymous { vaddr_range, .. } => *vaddr_range,
            JifPheader::Reference { vaddr_range, .. } => *vaddr_range,
        }
    }

    /// The protections
    pub open spec fn spec_prot(&self) -> u8 {
        match self {
            JifPheader::Anonymous { prot, .. } => *prot,
            JifPheader::Reference { prot, .. } => *prot,
        }
    }

    /// The interval tree is well formed
    pub open spec fn wf(&self) -> bool {
        match self {
            JifPheader::Anonymous { itree, .. } => tree_ok(*itree),
            JifPheader::Reference { itree, .. } => tree_ok(*itree),
        }
    }

    /// The interval tree's sizes are well defined
    pub open spec fn sized(&self) -> bool {
        match self {
            JifPheader::Anonymous { itree, .. } => tree_sized(*itree),
            JifPheader::Reference { itree, .. } => tree_sized(*itree),
        }
    }

    /// What resolving an address gives
    pub open spec fn spec_resolve(&self, addr: u64) -> LogicalInterval {
        match self {
            JifPheader::Anonymous { itree, .. } => logical_resolve(*itree, addr, DataSource::Zero),
            JifPheader::Reference { itree, .. } => logical_resolve(*itree, addr, DataSource::Shared),
        }
    }

    /// Number of bytes of private data
    pub open spec fn spec_data_size(&self) -> nat {
        match self {
            JifPheader::Anonymous { itree, .. } => sum_nodes(itree.nodes@, |s: Seq<Interval<AnonIntervalData>>| data_size(s)),
            JifPheader::Reference { itree, .. } => sum_nodes(itree.nodes@, |s: Seq<Interval<RefIntervalData>>| data_size(s)),
        }
    }

    /// Number of zero pages
    pub open spec fn spec_zero_pages(&self) -> int {
        match self {
            JifPheader::Anonymous { itree, vaddr_range, .. } => implicit_size(*itree, *vaddr_range) / (PAGE_SIZE as int),
            JifPheader::Reference { itree, .. } => (sum_nodes(itree.nodes@, |s: Seq<Interval<RefIntervalData>>| zero_size(s)) as int) / (PAGE_SIZE as int),
        }
    }

    /// Number of pages from the reference file
    pub open spec fn spec_shared_pages(&self) -> int {
        match self {
            JifPheader::Anonymous { .. } => 0,
            JifPheader::Reference { itree, vaddr_range, .. } => implicit_size(*itree, *vaddr_range) / (PAGE_SIZE as int),
        }
    }

    /// The implicit part of the range is well defined
    pub open spec fn implicit_ok(&self) -> bool {
        match self {
            JifPheader::Anonymous { itree, vaddr_range, .. } => vaddr_range.0 <= vaddr_range.1 && sum_nodes(
                itree.nodes@,
                |s: Seq<Interval<AnonIntervalData>>| mapped_in(s, vaddr_range.0, vaddr_range.1),
            ) <= vaddr_range.1 - vaddr_range.0,
            JifPheader::Reference { itree, vaddr_range, .. } => vaddr_range.0 <= vaddr_range.1 && sum_nodes(
                itree.nodes@,
                |s: Seq<Interval<RefIntervalData>>| mapped_in(s, vaddr_range.0, vaddr_range.1),
            ) <= vaddr_range.1 - vaddr_range.0,
        }
    }

    /// The virtual address space range that this pheader maps
    pub fn virtual_range(&self) -> (r: (u64, u64))
        ensures
            r == self.spec_range(),
    {
        match self {
            JifPheader::Anonymous { vaddr_range, .. } => *vaddr_range,
            JifPheader::Reference { vaddr_range, .. } => *vaddr_range,
        }
    }

    /// Check whether this pheader maps a particular address
    pub fn mapps_addr(&self, addr: u64) -> (r: bool)
        ensures
            r == (self.spec_range().0 <= addr && addr < self.spec_range().1),
    {
        let range = self.virtual_range();
        range.0 <= addr && addr < range.1
    }

    /// A view over the underlying [`ITree`]
    pub fn itree(&self) -> (r: ITreeView<'_>)
        ensures
            match self {
                JifPheader::Anonymous { itree, .. } => r matches ITreeView::Anon { inner } && *inner == *itree,
                JifPheader::Reference { itree, .. } => r matches ITreeView::Ref { inner } && *inner == *itree,
            },
    {
        match self {
            JifPheader::Anonymous { itree, .. } => ITreeView::Anon { inner: itree },
            JifPheader::Reference { itree, .. } => ITreeView::Ref { inner: itree },
        }
    }

    /// Resolve an address
    pub fn resolve(&self, addr: u64) -> (r: LogicalInterval)
        requires
            self.wf(),
        ensures
            r == self.spec_resolve(addr),
    {
        let view = self.itree();
        view.resolve(addr)
    }

    /// Resolve an address into the page of private data that backs it, if any
    pub fn resolve_data<'a>(&'a self, addr: u64, deduper: &'a Deduper) -> (r: Option<&'a [u8]>)
        requires
            self.wf(),
            match self {
                JifPheader::Anonymous { itree, .. } => tree_refs_held(itree.nodes@, *deduper),
                JifPheader::Reference { itree, .. } => tree_refs_held(itree.nodes@, *deduper),
            },
        ensures
            match self {
                JifPheader::Anonymous { itree, .. } => match resolved_page(itree.spec_resolve(addr), addr, *deduper) {
                    Some(p) => r matches Some(d) && d@ == p,
                    None => r is None,
                },
                JifPheader::Reference { itree, .. } => match resolved_page(itree.spec_resolve(addr), addr, *deduper) {
                    Some(p) => r matches Some(d) && d@ == p,
                    None => r is None,
                },
            },
    {
        match self {
            JifPheader::Anonymous { itree, .. } => itree.resolve_data(addr, deduper),
            JifPheader::Reference { itree, .. } => itree.resolve_data(addr, deduper),
        }
    }

    /// The size of the [`ITree`] in number of nodes
    pub fn n_itree_nodes(&self) -> (r: usize)
        ensures
            r == match self {
                JifPheader::Anonymous { itree, .. } => itree.nodes@.len(),
                JifPheader::Reference { itree, .. } => itree.nodes@.len(),
            },
    {
        match self {
            JifPheader::Anonymous { itree, .. } => itree.n_nodes(),
            JifPheader::Reference { itree, .. } => itree.n_nodes(),
        }
    }

    /// The pathname of the reference section
    pub fn pathname(&self) -> (r: Option<&str>)
        ensures
            match self {
                JifPheader::Anonymous { .. } => r is None,
                JifPheader::Reference { ref_path, .. } => r matches Some(s) && s@ == ref_path@,
            },
    {
        match self {
            JifPheader::Anonymous { .. } => None,
            JifPheader::Reference { ref_path, .. } => Some(ref_path.as_str()),
        }
    }

    /// The offset into the referenced file at which the mapping of this vma starts
    pub fn ref_offset(&self) -> (r: Option<u64>)
        ensures
            match self {
                JifPheader::Anonymous { .. } => r is None,
                JifPheader::Reference { ref_offset, .. } => r == Some(*ref_offset),
            },
    {
        match self {
            JifPheader::Anonymous { .. } => None,
            JifPheader::Reference { ref_offset, .. } => Some(*ref_offset),
        }
    }

    /// The protections concerning this vma
    pub fn prot(&self) -> (r: u8)
        ensures
            r == self.spec_prot(),
    {
        match self {
            JifPheader::Anonymous { prot, .. } => *prot,
            JifPheader::Reference { prot, .. } => *prot,
        }
    }

    /// Size of the stored data (in Bytes)
    pub fn data_size(&self) -> (r: u64)
        requires
            self.sized(),
        ensures
            r == self.spec_data_size(),
    {
        match self {
            JifPheader::Anonymous { itree, .. } => itree.private_data_size(),
            JifPheader::Reference { itree, .. } => itree.private_data_size(),
        }
    }

    /// Number of zero pages encoded (by ommission, or explicitly) in this pheader
    pub fn zero_pages(&self) -> (r: u64)
        requires
            self.sized(),
            self.implicit_ok(),
        ensures
            r == self.spec_zero_pages(),
    {
        match self {
            JifPheader::Anonymous { itree, vaddr_range, .. } => itree.implicitely_mapped_subregion_size(
                vaddr_range.0,
                vaddr_range.1,
            ) / PAGE_SIZE as u64,
            JifPheader::Reference { itree, .. } => itree.zero_byte_size() / PAGE_SIZE as u64,
        }
    }

    /// Number of private data pages in this pheader
    pub fn private_pages(&self) -> (r: u64)
        requires
            self.sized(),
        ensures
            r == self.spec_data_size() / (PAGE_SIZE as nat),
    {
        self.data_size() / PAGE_SIZE as u64
    }

    /// Number of pages coming from the reference file
    pub fn shared_pages(&self) -> (r: u64)
        requires
            self.implicit_ok(),
        ensures
            r == self.spec_shared_pages(),
    {
        match self {
            JifPheader::Anonymous { .. } => 0,
            JifPheader::Reference { itree, vaddr_range, .. } => itree.implicitely_mapped_subregion_size(
                vaddr_range.0,
                vaddr_range.1,
            ) / PAGE_SIZE as u64,
        }
    }

    /// Total number of pages in the pheader: the zero, private and shared pages together (where
    /// its intervals lie within its range on page boundaries, [`law_page_counts`] shows that they
    /// add up)
    pub fn total_pages(&self) -> (r: u64)
        requires
            self.sized(),
            self.implicit_ok(),
            (self.spec_range().1 - self.spec_range().0) / (PAGE_SIZE as int) == self.spec_zero_pages()
                + self.spec_data_size() / (PAGE_SIZE as nat) + self.spec_shared_pages(),
        ensures
            r == (self.spec_range().1 - self.spec_range().0) / (PAGE_SIZE as int),
    {
        let (begin, end) = self.virtual_range();
        (end - begin) / PAGE_SIZE as u64
    }

    /// Rename the file in this pheader if 1) it has a file and 2) it matches the name
    pub fn rename_file(&mut self, from: &str, to: &str)
        ensures
            match (*old(self), *final(self)) {
                (JifPheader::Anonymous { .. }, _) => *final(self) == *old(self),
                (
                    JifPheader::Reference { vaddr_range: v1, itree: t1, prot: p1, ref_path: s1, ref_offset: o1 },
                    JifPheader::Reference { vaddr_range: v2, itree: t2, prot: p2, ref_path: s2, ref_offset: o2 },
                ) => v1 == v2 && t1 == t2 && p1 == p2 && o1 == o2 && s2@ == if s1@ == from@ {
                    to@
                } else {
                    s1@
                },
                _ => false,
            },
    {
        match self {
            JifPheader::Anonymous { .. } => {},
            JifPheader::Reference { ref_path, .. } => {
                if str_eq(ref_path.as_str(), from) {
                    *ref_path = to.to_owned();
                }
            },
        }
    }

    /// Absorb owned data pieces into the deduper
    ///
    /// Every interval that owned its data now references a segment of the deduper holding the
    /// same bytes; everything else is kept, and the deduper keeps what it held.
    pub fn dedup(&mut self, deduper: &mut Deduper)
        requires
            old(self).wf(),
        ensures
            final(self).wf(),
            deduped(*old(self), *final(self), *final(deduper)),
            forall|t: DedupToken| #[trigger] old(deduper).has_token(t) ==> final(deduper).has_token(t)
                && final(deduper).data_of(t) == old(deduper).data_of(t),
    {
        match self {
            JifPheader::Anonymous { itree, .. } => itree.dedup(deduper),
            JifPheader::Reference { itree, .. } => itree.dedup(deduper),
        }
    }

    /// Collect all tokens in use
    pub fn add_tokens_in_use(&self, tokens_in_use: &mut Vec<DedupToken>)
        requires
            self.wf(),
        ensures
            final(tokens_in_use)@ == old(tokens_in_use)@ + match self {
                JifPheader::Anonymous { itree, .. } => ref_tokens(flat(itree.nodes@)),
                JifPheader::Reference { itree, .. } => ref_tokens(flat(itree.nodes@)),
            },
    {
        match self {
            JifPheader::Anonymous { itree, .. } => itree.add_tokens_in_use(tokens_in_use),
            JifPheader::Reference { itree, .. } => itree.add_tokens_in_use(tokens_in_use),
        }
    }

    /// The private pages in the pheader, in order
    pub fn iter_private_pages<'a>(&'a self, deduper: &'a Deduper) -> (r: Vec<&'a [u8]>)
        requires
            match self {
                JifPheader::Anonymous { itree, .. } => nodes_wf(itree.nodes@) && refs_held(itree.in_order(), *deduper),
                JifPheader::Reference { itree, .. } => nodes_wf(itree.nodes@) && refs_held(itree.in_order(), *deduper),
            },
        ensures
            match self {
                JifPheader::Anonymous { itree, .. } => r@.len() == private_pages_of(itree.in_order(), *deduper).len()
                    && forall|k: int| 0 <= k < r@.len() ==> (#[trigger] r@[k])@ == private_pages_of(itree.in_order(), *deduper)[k],
                JifPheader::Reference { itree, .. } => r@.len() == private_pages_of(itree.in_order(), *deduper).len()
                    && forall|k: int| 0 <= k < r@.len() ==> (#[trigger] r@[k])@ == private_pages_of(itree.in_order(), *deduper)[k],
            },
    {
        match self {
            JifPheader::Anonymous { itree, .. } => itree.iter_private_pages(deduper),
            JifPheader::Reference { itree, .. } => itree.iter_private_pages(deduper),
        }
    }

    /// The regions backed by the reference file: the file, and the range of offsets into it
    pub fn iter_shared_regions(&self) -> (r: Vec<(&str, u64, u64)>)
        requires
            self.wf(),
            match self {
                JifPheader::Anonymous { .. } => true,
                JifPheader::Reference { itree, vaddr_range, ref_offset, .. } => forall|k: int|
                    0 <= k < shared_gaps(*itree, *vaddr_range).len() ==> shifted_ok(
                        #[trigger] shared_gaps(*itree, *vaddr_range)[k],
                        vaddr_range.0,
                        *ref_offset,
                    ),
            },
        ensures
            match self {
                JifPheader::Anonymous { .. } => r@.len() == 0,
                JifPheader::Reference { itree, vaddr_range, ref_offset, ref_path, .. } => {
                    &&& r@.len() == shared_gaps(*itree, *vaddr_range).len()
                    &&& forall|k: int| 0 <= k < r@.len() ==> (#[trigger] r@[k]).0@ == ref_path@ && r@[k].1 == shared_gaps(
                        *itree,
                        *vaddr_range,
                    )[k].0 - vaddr_range.0 + *ref_offset && r@[k].2 == shared_gaps(*itree, *vaddr_range)[k].1
                        - vaddr_range.0 + *ref_offset
                },
            },
    {
        match self {
            JifPheader::Anonymous { .. } => Vec::new(),
            JifPheader::Reference { itree, ref_path, ref_offset, vaddr_range, .. } => {
                let regions = itree.iter_unmapped_regions();
                let mut out: Vec<(&str, u64, u64)> = Vec::new();
                let mut k: usize = 0;
                while k < regions.len()
                    invariant
                        k <= regions@.len(),
                        regions@ == shared_gaps(*itree, *vaddr_range),
                        forall|j: int| 0 <= j < regions@.len() ==> shifted_ok(#[trigger] regions@[j], vaddr_range.0, *ref_offset),
                        out@.len() == k,
                        forall|j: int| 0 <= j < k ==> (#[trigger] out@[j]).0@ == ref_path@ && out@[j].1 == regions@[j].0
                            - vaddr_range.0 + *ref_offset && out@[j].2 == regions@[j].1 - vaddr_range.0 + *ref_offset,
                    decreases regions@.len() - k,
                {
                    let (start, end) = regions[k];
                    assert(shifted_ok(regions@[k as int], vaddr_range.0, *ref_offset));
                    out.push((ref_path.as_str(), start - vaddr_range.0 + *ref_offset, end - vaddr_range.0 + *ref_offset));
                    k = k + 1;
                }
                out
            },
        }
    }
}

/// The "raw" JIF pheader
///
/// This type encodes 1:1 the information as it is serialized in the JIF format
/// It can be used to construct materialized pheaders with the help of the raw JIF.
#[derive(Debug, Clone, Copy, PartialEq, Eq, Structural)]
pub struct JifRawPheader {
    pub vbegin: u64,
    pub vend: u64,
    pub ref_offset: u64,
    pub itree_idx: u32,
    pub itree_n_nodes: u32,
    pub pathname_offset: u32,
    pub prot: u8,
}

impl JifRawPheader {
    /// Serialized size of the raw JIF Pheader: three `u64`s, three `u32`s and a byte
    pub fn serialized_size() -> (r: usize)
        ensures
            r == 37,
    {
        3 * 8 + 3 * 4 + 1
    }

    /// The virtual address space range of the pheader
    pub fn virtual_range(&self) -> (r: (u64, u64))
        ensures
            r == (self.vbegin, self.vend),
    {
        (self.vbegin, self.vend)
    }

    /// The offset into the string table
    pub fn pathname_offset(&self) -> (r: Option<u32>)
        ensures
            r == if self.pathname_offset != u32::MAX {
                Some(self.pathname_offset)
            } else {
                None
            },
    {
        if self.pathname_offset != u32::MAX {
            Some(self.pathname_offset)
        } else {
            None
        }
    }

    /// The offset into the referenced file
    pub fn ref_offset(&self) -> (r: Option<u64>)
        ensures
            r == if self.ref_offset != u64::MAX {
                Some(self.ref_offset)
            } else {
                None
            },
    {
        if self.ref_offset != u64::MAX {
            Some(self.ref_offset)
        } else {
            None
        }
    }

    /// The `(index, len)` span of the itree nodes (into the itree node table)
    pub fn itree(&self) -> (r: Option<(u32, u32)>)
        ensures
            r == if self.itree_n_nodes != 0 {
                Some((self.itree_idx, self.itree_n_nodes))
            } else {
                None
            },
    {
        if self.itree_n_nodes != 0 {
            Some((self.itree_idx, self.itree_n_nodes))
        } else {
            None
        }
    }

    /// The protections concerning this vma
    pub fn prot(&self) -> (r: u8)
        ensures
            r == self.prot,
    {
        self.prot
    }
}

/// The regions of a reference tree backed by its file: the gaps of its in-order traversal
pub open spec fn shared_gaps(t: ITree<RefIntervalData>, range: (u64, u64)) -> Seq<(u64, u64)> {
    chain_gaps(seq![(0u64, t.virtual_range.0)] + t.in_order().map_values(|iv: Interval<RefIntervalData>| bnd(iv)) + seq![
        (t.virtual_range.1, u64::MAX),
    ])
}

/// A region can be moved to file offsets without wrapping
pub open spec fn shifted_ok(g: (u64, u64), base: u64, offset: u64) -> bool {
    &&& base <= g.0 <= g.1
    &&& g.1 - base + offset <= u64::MAX
}

/// Whether two strings are equal
pub fn str_eq(a: &str, b: &str) -> (r: bool)
    ensures
        r == (a@ == b@),
{
    let x = a.as_bytes();
    let y = b.as_bytes();
    let r = crate::utils::bytes_eq(x, y);
    proof {
        vstd::utf8::encode_utf8_decode_utf8(a@);
        vstd::utf8::encode_utf8_decode_utf8(b@);
    }
    r
}

/// A present interval lies within `[lo; hi)`, on page boundaries
pub open spec fn iv_page_fits<Data: IntervalData>(iv: Interval<Data>, lo: u64, hi: u64) -> bool {
    !iv.spec_is_none() ==> lo <= iv.start <= iv.end <= hi && iv.start % 4096 == 0 && iv.end % 4096 == 0
}

/// The intervals of a tree lie within its range, on page boundaries, and so does the range
pub open spec fn tree_page_fits<Data: IntervalData>(t: ITree<Data>, range: (u64, u64)) -> bool {
    &&& range.0 % 4096 == 0
    &&& range.1 % 4096 == 0
    &&& range.0 <= range.1
    &&& forall|i: int, k: int|
        0 <= i < t.nodes@.len() && 0 <= k < t.nodes@[i].ranges@.len() ==> iv_page_fits(#[trigger] t.nodes@[i].ranges@[k], range.0, range.1)
}

/// Within a range, the bytes that a node maps are its data bytes and its zero bytes, each a
/// whole number of pages
proof fn lemma_node_page_split<Data: IntervalData>(s: Seq<Interval<Data>>, lo: u64, hi: u64)
    requires
        forall|k: int| 0 <= k < s.len() ==> iv_page_fits(#[trigger] s[k], lo, hi),
    ensures
        mapped_in(s, lo, hi) == data_size(s) + zero_size(s),
        data_size(s) % 4096 == 0,
        zero_size(s) % 4096 == 0,
    decreases s.len(),
{
    if s.len() > 0 {
        let t = s.drop_last();
        assert forall|k: int| 0 <= k < t.len() implies iv_page_fits(#[trigger] t[k], lo, hi) by {
            assert(t[k] == s[k]);
        }
        lemma_node_page_split(t, lo, hi);
        let iv = s.last();
        assert(iv_page_fits(s[s.len() - 1], lo, hi));
        let d = data_size(t);
        let z = zero_size(t);
        if !iv.spec_is_none() {
            let l = iv.end - iv.start;
            assert(l % 4096 == 0) by (nonlinear_arith)
                requires
                    iv.start % 4096 == 0,
                    iv.end % 4096 == 0,
                    l == iv.end - iv.start,
            ;
            assert((d + l) % 4096 == 0 && (z + l) % 4096 == 0) by (nonlinear_arith)
                requires
                    d % 4096 == 0,
                    z % 4096 == 0,
                    l % 4096 == 0,
            ;
        }
    }
}

/// Within a range, the bytes that the nodes map are their data bytes and their zero bytes, each a
/// whole number of pages
proof fn lemma_nodes_page_split<Data: IntervalData>(nodes: Seq<crate::itree::itree_node::ITreeNode<Data>>, lo: u64, hi: u64)
    requires
        forall|i: int, k: int| 0 <= i < nodes.len() && 0 <= k < nodes[i].ranges@.len() ==> iv_page_fits(#[trigger] nodes[i].ranges@[k], lo, hi),
    ensures
        sum_nodes(nodes, |s: Seq<Interval<Data>>| mapped_in(s, lo, hi)) == sum_nodes(nodes, |s: Seq<Interval<Data>>| data_size(s))
            + sum_nodes(nodes, |s: Seq<Interval<Data>>| zero_size(s)),
        sum_nodes(nodes, |s: Seq<Interval<Data>>| data_size(s)) % 4096 == 0,
        sum_nodes(nodes, |s: Seq<Interval<Data>>| zero_size(s)) % 4096 == 0,
    decreases nodes.len(),
{
    if nodes.len() > 0 {
        let t = nodes.drop_last();
        assert forall|i: int, k: int| 0 <= i < t.len() && 0 <= k < t[i].ranges@.len() implies iv_page_fits(#[trigger] t[i].ranges@[k], lo, hi) by {
            assert(t[i] == nodes[i]);
        }
        lemma_nodes_page_split(t, lo, hi);
        let s = nodes.last().ranges@;
        assert forall|k: int| 0 <= k < s.len() implies iv_page_fits(#[trigger] s[k], lo, hi) by {
            assert(nodes[nodes.len() - 1].ranges@[k] == s[k]);
        }
        lemma_node_page_split(s, lo, hi);
        let d = sum_nodes(t, |s: Seq<Interval<Data>>| data_size(s));
        let z = sum_nodes(t, |s: Seq<Interval<Data>>| zero_size(s));
        assert((d + data_size(s)) % 4096 == 0 && (z + zero_size(s)) % 4096 == 0) by (nonlinear_arith)
            requires
                d % 4096 == 0,
                z % 4096 == 0,
                data_size(s) % 4096 == 0,
                zero_size(s) % 4096 == 0,
        ;
    }
}

/// The pages of a pheader whose intervals lie within its range on page boundaries are its zero,
/// private and shared pages: none is counted twice and none is left out
pub proof fn law_page_counts(p: JifPheader)
    requires
        p.implicit_ok(),
        match p {
            JifPheader::Anonymous { itree, vaddr_range, .. } => tree_page_fits(itree, vaddr_range),
            JifPheader::Reference { itree, vaddr_range, .. } => tree_page_fits(itree, vaddr_range),
        },
    ensures
        (p.spec_range().1 - p.spec_range().0) / (PAGE_SIZE as int) == p.spec_zero_pages() + p.spec_data_size() / (PAGE_SIZE as nat)
            + p.spec_shared_pages(),
{
    match p {
        JifPheader::Anonymous { itree, vaddr_range, .. } => {
            lemma_nodes_page_split(itree.nodes@, vaddr_range.0, vaddr_range.1);
            let m = sum_nodes(itree.nodes@, |s: Seq<Interval<AnonIntervalData>>| mapped_in(s, vaddr_range.0, vaddr_range.1));
            let d = sum_nodes(itree.nodes@, |s: Seq<Interval<AnonIntervalData>>| data_size(s));
            let z = sum_nodes(itree.nodes@, |s: Seq<Interval<AnonIntervalData>>| zero_size(s));
            lemma_anon_no_zero(itree.nodes@);
            let r = vaddr_range.1 - vaddr_range.0;
            assert(r / 4096 == (r - m) / 4096 + d / 4096) by (nonlinear_arith)
                requires
                    vaddr_range.0 % 4096 == 0,
                    vaddr_range.1 % 4096 == 0,
                    r == vaddr_range.1 - vaddr_range.0,
                    m == d + z,
                    z == 0,
                    d % 4096 == 0,
                    m <= r,
            ;
        },
        JifPheader::Reference { itree, vaddr_range, .. } => {
            lemma_nodes_page_split(itree.nodes@, vaddr_range.0, vaddr_range.1);
            let m = sum_nodes(itree.nodes@, |s: Seq<Interval<RefIntervalData>>| mapped_in(s, vaddr_range.0, vaddr_range.1));
            let d = sum_nodes(itree.nodes@, |s: Seq<Interval<RefIntervalData>>| data_size(s));
            let z = sum_nodes(itree.nodes@, |s: Seq<Interval<RefIntervalData>>| zero_size(s));
            let r = vaddr_range.1 - vaddr_range.0;
            assert(r / 4096 == z / 4096 + d / 4096 + (r - m) / 4096) by (nonlinear_arith)
                requires
                    vaddr_range.0 % 4096 == 0,
                    vaddr_range.1 % 4096 == 0,
                    r == vaddr_range.1 - vaddr_range.0,
                    m == d + z,
                    d % 4096 == 0,
                    z % 4096 == 0,
                    m <= r,
            ;
        },
    }
}

/// Anonymous trees hold no zero intervals
proof fn lemma_anon_no_zero(nodes: Seq<crate::itree::itree_node::ITreeNode<AnonIntervalData>>)
    ensures
        sum_nodes(nodes, |s: Seq<Interval<AnonIntervalData>>| zero_size(s)) == 0,
    decreases nodes.len(),
{
    if nodes.len() > 0 {
        lemma_anon_no_zero(nodes.drop_last());
        lemma_anon_node_no_zero(nodes.last().ranges@);
    }
}

/// An anonymous node holds no zero intervals
proof fn lemma_anon_node_no_zero(s: Seq<Interval<AnonIntervalData>>)
    ensures
        zero_size(s) == 0,
    decreases s.len(),
{
    if s.len() > 0 {
        lemma_anon_node_no_zero(s.drop_last());
    }
}

} // verus!
