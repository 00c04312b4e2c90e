//! The full JIF representations
//!
//! Includes both the raw and materialized variants

use vstd::prelude::*;
use crate::deduper::{DedupToken, Deduper, dedup_of};
use crate::error::{IntervalError, JifError, JifResult};
use crate::itree::interval::{AnonIntervalData, Interval, LogicalInterval, RawInterval, RefIntervalData};
use crate::itree::itree_node::{ITreeNode, RawITreeNode, lookup_token, raw_data_range, raw_data_resolvable, spec_anon_from_raw, spec_lookup, spec_ref_from_raw};
use crate::itree::tree::{ITree, lemma_check_same_ranges, nodes_wf, private_pages_of, resolved_page, same_ranges, spec_check, tree_refs_held};
use crate::ord::OrdChunk;
use crate::pheader::{JifPheader, JifRawPheader, shared_gaps, shifted_ok, str_eq};
use crate::utils::{PAGE_SIZE, page_align, spec_align_up};

verus! {

/// Version of the JIF format
pub const JIF_VERSION: u32 = 2;

/// Size of the serialized JIF header
pub const JIF_HEADER_SIZE: usize = 32;

/// The materialized view over the JIF file
///
/// After materialization the JIF format simplifies greatly:
/// it is simply a list of virtual memory areas (the pheaders)
/// and the ordering list for the prefetcher
#[derive(Debug)]
pub struct Jif {
    pub pheaders: Vec<JifPheader>,
    pub ord_chunks: Vec<OrdChunk>,
    pub deduper: Deduper,
}

/// The "raw" JIF file representation
/// This consists of a 1:1 mapping into how the data is layed out on disk
///
/// The data segments are kept sorted by their range in the data section.
#[derive(Debug)]
pub struct JifRaw {
    pub pheaders: Vec<JifRawPheader>,
    pub strings_backing: Vec<u8>,
    pub itree_nodes: Vec<RawITreeNode>,
    pub ord_chunks: Vec<OrdChunk>,
    pub data_offset: u64,
    pub data_segments: Vec<((u64, u64), Vec<u8>)>,
    pub n_prefetch: u64,
}

/// The JIF header, as laid out at the start of the file
#[derive(Debug, Clone, Copy, PartialEq, Eq, Structural)]
pub struct JifHeaderBinary {
    pub n_pheaders: u32,
    pub strings_size: u32,
    pub itrees_size: u32,
    pub ord_size: u32,
    pub version: u32,
    pub n_prefetch: u64,
}

/// The index of the first pheader, from `i` on, that maps `addr`
pub open spec fn spec_find_pheader(ps: Seq<JifPheader>, addr: u64, i: int) -> Option<int>
    decreases ps.len() - i,
{
    if i < 0 || i >= ps.len() {
        None
    } else if ps[i].spec_range().0 <= addr && addr < ps[i].spec_range().1 {
        Some(i)
    } else {
        spec_find_pheader(ps, addr, i + 1)
    }
}

/// A found pheader lies within the list
pub proof fn lemma_find_pheader_in(ps: Seq<JifPheader>, addr: u64, i: int)
    ensures
        spec_find_pheader(ps, addr, i) matches Some(k) ==> i <= k < ps.len() && ps[k].spec_range().0 <= addr
            && addr < ps[k].spec_range().1,
    decreases ps.len() - i,
{
    if !(i < 0 || i >= ps.len()) && !(ps[i].spec_range().0 <= addr && addr < ps[i].spec_range().1) {
        lemma_find_pheader_in(ps, addr, i + 1);
    }
}

/// The distinct reference paths of the pheaders, in order of first appearance
pub open spec fn distinct_paths(ps: Seq<JifPheader>) -> Seq<Seq<char>>
    decreases ps.len(),
{
    if ps.len() == 0 {
        seq![]
    } else {
        let d = distinct_paths(ps.drop_last());
        match ps.last() {
            JifPheader::Reference { ref_path, .. } => if d.contains(ref_path@) {
                d
            } else {
                d.push(ref_path@)
            },
            JifPheader::Anonymous { .. } => d,
        }
    }
}

/// Sum of a per-pheader measure
pub open spec fn sum_pheaders(ps: Seq<JifPheader>, f: spec_fn(JifPheader) -> int) -> int
    decreases ps.len(),
{
    if ps.len() == 0 {
        0
    } else {
        sum_pheaders(ps.drop_last(), f) + f(ps.last())
    }
}

/// Bytes of a string table holding the strings, each followed by a NUL byte
pub open spec fn strings_size(s: Seq<Seq<char>>) -> int
    decreases s.len(),
{
    if s.len() == 0 {
        0
    } else {
        strings_size(s.drop_last()) + vstd::utf8::encode_utf8(s.last()).len() + 1
    }
}

/// Where the data section of a JIF with these pheaders and this many ordering chunks starts: after
/// the header and the pheaders, the string table, the itree nodes and the ordering chunks, each
/// section page aligned
pub open spec fn spec_data_offset(ps: Seq<JifPheader>, n_ords: int) -> int {
    spec_align_up((JIF_HEADER_SIZE + ps.len() * 37) as int, PAGE_SIZE as int) + spec_align_up(
        strings_size(distinct_paths(ps)),
        PAGE_SIZE as int,
    ) + spec_align_up(sum_pheaders(ps, |p: JifPheader| pheader_nodes(p)) * 72, PAGE_SIZE as int) + spec_align_up(
        n_ords * 24,
        PAGE_SIZE as int,
    )
}

/// Number of itree nodes of a pheader
pub open spec fn pheader_nodes(p: JifPheader) -> int {
    match p {
        JifPheader::Anonymous { itree, .. } => itree.nodes@.len() as int,
        JifPheader::Reference { itree, .. } => itree.nodes@.len() as int,
    }
}

/// Partial sums of a nonnegative per-pheader measure are bounded by the total
pub proof fn lemma_sum_pheaders_prefix(ps: Seq<JifPheader>, f: spec_fn(JifPheader) -> int, k: int)
    requires
        0 <= k <= ps.len(),
        forall|p: JifPheader| #[trigger] f(p) >= 0,
    ensures
        forall|j: int| 0 <= j <= k ==> 0 <= sum_pheaders(#[trigger] ps.take(j), f) <= sum_pheaders(ps.take(k), f),
    decreases k,
{
    if k > 0 {
        lemma_sum_pheaders_prefix(ps, f, k - 1);
        assert(ps.take(k).drop_last() =~= ps.take(k - 1));
        assert(f(ps.take(k).last()) >= 0);
    }
}

/// One more pheader adds its measure
pub proof fn lemma_sum_pheaders_step(ps: Seq<JifPheader>, f: spec_fn(JifPheader) -> int, i: int)
    requires
        0 <= i < ps.len(),
    ensures
        sum_pheaders(ps.take(i + 1), f) == sum_pheaders(ps.take(i), f) + f(ps[i]),
{
    assert(ps.take(i + 1).drop_last() =~= ps.take(i));
    assert(ps.take(i + 1).last() == ps[i]);
}

impl Jif {
    /// Every pheader is well formed
    pub open spec fn wf(&self) -> bool {
        forall|i: int| 0 <= i < self.pheaders@.len() ==> (#[trigger] self.pheaders@[i]).wf()
    }

    /// What resolving `addr` gives: the resolution in the first pheader that maps it
    pub open spec fn spec_resolve(&self, addr: u64) -> Option<LogicalInterval> {
        match spec_find_pheader(self.pheaders@, addr, 0) {
            Some(i) => Some(self.pheaders@[i].spec_resolve(addr)),
            None => None,
        }
    }

    /// Access the pheaders
    pub fn pheaders(&self) -> (r: &[JifPheader])
        ensures
            r@ == self.pheaders@,
    {
        self.pheaders.as_slice()
    }

    /// Access the ordering list
    pub fn ord_chunks(&self) -> (r: &[OrdChunk])
        ensures
            r@ == self.ord_chunks@,
    {
        self.ord_chunks.as_slice()
    }

    /// Find the pheader (by index) that maps a particular address
    pub fn mapping_pheader_idx(&self, vaddr: u64) -> (r: Option<usize>)
        ensures
            match r {
                Some(i) => spec_find_pheader(self.pheaders@, vaddr, 0) == Some(i as int),
                None => spec_find_pheader(self.pheaders@, vaddr, 0) is None,
            },
            r matches Some(i) ==> i < self.pheaders@.len(),
    {
        let mut i: usize = 0;
        while i < self.pheaders.len()
            invariant
                i <= self.pheaders@.len(),
                spec_find_pheader(self.pheaders@, vaddr, 0) == spec_find_pheader(self.pheaders@, vaddr, i as int),
            decreases self.pheaders@.len() - i,
        {
            if self.pheaders[i].mapps_addr(vaddr) {
                return Some(i);
            }
            i = i + 1;
        }
        None
    }

    /// Find the pheader that maps a particular address
    pub fn mapping_pheader(&self, vaddr: u64) -> (r: Option<&JifPheader>)
        ensures
            match spec_find_pheader(self.pheaders@, vaddr, 0) {
                Some(i) => r matches Some(p) && *p == self.pheaders@[i],
                None => r is None,
            },
    {
        proof {
            lemma_find_pheader_in(self.pheaders@, vaddr, 0);
        }
        match self.mapping_pheader_idx(vaddr) {
            Some(i) => Some(&self.pheaders[i]),
            None => None,
        }
    }

    /// Resolve an address into the logical interval that backs it
    pub fn resolve(&self, addr: u64) -> (r: Option<LogicalInterval>)
        requires
            self.wf(),
        ensures
            r == self.spec_resolve(addr),
    {
        proof {
            lemma_find_pheader_in(self.pheaders@, addr, 0);
        }
        match self.mapping_pheader_idx(addr) {
            Some(i) => {
                assert(self.pheaders@[i as int].wf());
                Some(self.pheaders[i].resolve(addr))
            },
            None => None,
        }
    }

    /// List out all the (distinct) reference paths of the pheaders
    pub fn strings(&self) -> (r: Vec<&str>)
        ensures
            r@.map_values(|s: &str| s@) == distinct_paths(self.pheaders@),
    {
        let mut out: Vec<&str> = Vec::new();
        let mut i: usize = 0;
        assert(self.pheaders@.take(0) =~= Seq::<JifPheader>::empty());
        while i < self.pheaders.len()
            invariant
                i <= self.pheaders@.len(),
                out@.map_values(|s: &str| s@) == distinct_paths(self.pheaders@.take(i as int)),
            decreases self.pheaders@.len() - i,
        {
            let ghost before = out@.map_values(|s: &str| s@);
            assert(self.pheaders@.take(i + 1).drop_last() =~= self.pheaders@.take(i as int));
            assert(self.pheaders@.take(i + 1).last() == self.pheaders@[i as int]);
            match self.pheaders[i].pathname() {
                Some(path) => {
                    let mut found = false;
                    let mut k: usize = 0;
                    while k < out.len()
                        invariant
                            k <= out@.len(),
                            before == out@.map_values(|s: &str| s@),
                            found == exists|j: int| 0 <= j < k && before[j] == path@,
                        decreases out@.len() - k,
                    {
                        assert(before[k as int] == out@[k as int]@);
                        if str_eq(out[k], path) {
                            found = true;
                        }
                        k = k + 1;
                    }
                    proof {
                        if found {
                            let j = choose|j: int| 0 <= j < k && before[j] == path@;
                            assert(before.contains(path@));
                        } else {
                            assert(!before.contains(path@)) by {
                                if before.contains(path@) {
                                    let j = choose|j: int| 0 <= j < before.len() && before[j] == path@;
                                }
                            }
                        }
                    }
                    if !found {
                        out.push(path);
                        assert(out@.map_values(|s: &str| s@) =~= before.push(path@));
                    }
                },
                None => {},
            }
            i = i + 1;
        }
        assert(self.pheaders@.take(self.pheaders@.len() as int) =~= self.pheaders@);
        out
    }

    /// Compute the data offset (i.e., the offset where data starts being laid out)
    #[verifier::spinoff_prover]
    pub fn data_offset(&self) -> (r: u64)
        requires
            self.pheaders@.len() <= 0x1_0000_0000,
            self.ord_chunks@.len() <= 0x1_0000_0000,
            strings_size(distinct_paths(self.pheaders@)) <= 0x1_0000_0000,
            sum_pheaders(self.pheaders@, |p: JifPheader| pheader_nodes(p)) <= 0x1_0000_0000,
        ensures
            r == spec_data_offset(self.pheaders@, self.ord_chunks@.len() as int),
    {
        let header_size = JIF_HEADER_SIZE as u64;
        let n_pheaders = self.pheaders.len() as u64;
        assert(n_pheaders <= 0x1_0000_0000);
        let pheader_size = n_pheaders * JifRawPheader::serialized_size() as u64;
        let strings = self.strings();
        let mut strings_total: u64 = 0;
        let mut k: usize = 0;
        let ghost sv = strings@.map_values(|s: &str| s@);
        assert(sv.take(0) =~= Seq::<Seq<char>>::empty());
        while k < strings.len()
            invariant
                k <= strings@.len(),
                sv == strings@.map_values(|s: &str| s@),
                sv == distinct_paths(self.pheaders@),
                strings_size(sv) <= 0x1_0000_0000,
                strings_total == strings_size(sv.take(k as int)),
            decreases strings@.len() - k,
        {
            assert(sv.take(k + 1).drop_last() =~= sv.take(k as int));
            assert(sv.take(k + 1).last() == strings@[k as int]@);
            proof {
                lemma_strings_size_prefix(sv, k + 1);
            }
            let len = strings[k].len() as u64;
            strings_total = strings_total + len + 1;
            k = k + 1;
        }
        assert(sv.take(k as int) =~= sv);
        let ghost f = |p: JifPheader| pheader_nodes(p);
        let mut n_nodes: u64 = 0;
        let mut i: usize = 0;
        proof {
            lemma_sum_pheaders_prefix(self.pheaders@, f, self.pheaders@.len() as int);
            assert(self.pheaders@.take(self.pheaders@.len() as int) =~= self.pheaders@);
        }
        while i < self.pheaders.len()
            invariant
                i <= self.pheaders@.len(),
                f == (|p: JifPheader| pheader_nodes(p)),
                n_nodes == sum_pheaders(self.pheaders@.take(i as int), f),
                forall|j: int| 0 <= j <= self.pheaders@.len() ==> 0 <= sum_pheaders(#[trigger] self.pheaders@.take(j), f) <= sum_pheaders(self.pheaders@, f),
                sum_pheaders(self.pheaders@, f) <= 0x1_0000_0000,
            decreases self.pheaders@.len() - i,
        {
            proof {
                lemma_sum_pheaders_step(self.pheaders@, f, i as int);
            }
            n_nodes = n_nodes + self.pheaders[i].n_itree_nodes() as u64;
            i = i + 1;
        }
        assert(self.pheaders@.take(i as int) =~= self.pheaders@);
        let itree_size = n_nodes * RawITreeNode::serialized_size() as u64;
        let ord_size = self.ord_chunks.len() as u64 * OrdChunk::serialized_size() as u64;
        page_align(header_size + pheader_size) + page_align(strings_total) + page_align(itree_size) + page_align(ord_size)
    }

    /// Stored data size in B
    pub fn date_size(&self) -> (r: u64)
        requires
            forall|i: int| 0 <= i < self.pheaders@.len() ==> (#[trigger] self.pheaders@[i]).sized(),
            sum_pheaders(self.pheaders@, |p: JifPheader| p.spec_data_size() as int) <= u64::MAX,
        ensures
            r == sum_pheaders(self.pheaders@, |p: JifPheader| p.spec_data_size() as int),
    {
        let ghost f = |p: JifPheader| p.spec_data_size() as int;
        let mut acc: u64 = 0;
        let mut i: usize = 0;
        proof {
            lemma_sum_pheaders_prefix(self.pheaders@, f, self.pheaders@.len() as int);
            assert(self.pheaders@.take(self.pheaders@.len() as int) =~= self.pheaders@);
        }
        while i < self.pheaders.len()
            invariant
                i <= self.pheaders@.len(),
                f == (|p: JifPheader| p.spec_data_size() as int),
                forall|i: int| 0 <= i < self.pheaders@.len() ==> (#[trigger] self.pheaders@[i]).sized(),
                acc == sum_pheaders(self.pheaders@.take(i as int), f),
                forall|j: int| 0 <= j <= self.pheaders@.len() ==> 0 <= sum_pheaders(#[trigger] self.pheaders@.take(j), f) <= sum_pheaders(self.pheaders@, f),
                sum_pheaders(self.pheaders@, f) <= u64::MAX,
            decreases self.pheaders@.len() - i,
        {
            proof {
                lemma_sum_pheaders_step(self.pheaders@, f, i as int);
            }
            acc = acc + self.pheaders[i].data_size();
            i = i + 1;
        }
        assert(self.pheaders@.take(i as int) =~= self.pheaders@);
        acc
    }

    /// Compute the total number of zero pages encoded (by omission) in the [`Jif`]
    pub fn zero_pages(&self) -> (r: u64)
        requires
            forall|i: int| 0 <= i < self.pheaders@.len() ==> (#[trigger] self.pheaders@[i]).sized() && self.pheaders@[i].implicit_ok(),
            sum_pheaders(self.pheaders@, |p: JifPheader| p.spec_zero_pages()) <= u64::MAX,
        ensures
            r == sum_pheaders(self.pheaders@, |p: JifPheader| p.spec_zero_pages()),
    {
        let ghost f = |p: JifPheader| p.spec_zero_pages();
        let mut acc: u64 = 0;
        let mut i: usize = 0;
        proof {
            assert forall|i: int| 0 <= i < self.pheaders@.len() implies f(#[trigger] self.pheaders@[i]) >= 0 by {
                lemma_pheader_counts_nonneg(self.pheaders@[i]);
            }
            lemma_sum_pheaders_prefix_ok(self.pheaders@, f, self.pheaders@.len() as int);
            assert(self.pheaders@.take(self.pheaders@.len() as int) =~= self.pheaders@);
        }
        while i < self.pheaders.len()
            invariant
                i <= self.pheaders@.len(),
                f == (|p: JifPheader| p.spec_zero_pages()),
                forall|i: int| 0 <= i < self.pheaders@.len() ==> (#[trigger] self.pheaders@[i]).sized() && self.pheaders@[i].implicit_ok(),
                acc == sum_pheaders(self.pheaders@.take(i as int), f),
                forall|j: int| 0 <= j <= self.pheaders@.len() ==> 0 <= sum_pheaders(#[trigger] self.pheaders@.take(j), f) <= sum_pheaders(self.pheaders@, f),
                sum_pheaders(self.pheaders@, f) <= u64::MAX,
            decreases self.pheaders@.len() - i,
        {
            proof {
                lemma_sum_pheaders_step(self.pheaders@, f, i as int);
            }
            acc = acc + self.pheaders[i].zero_pages();
            i = i + 1;
        }
        assert(self.pheaders@.take(i as int) =~= self.pheaders@);
        acc
    }

    /// Compute the total number of private pages stored (directly) in the [`Jif`]
    pub fn private_pages(&self) -> (r: u64)
        requires
            forall|i: int| 0 <= i < self.pheaders@.len() ==> (#[trigger] self.pheaders@[i]).sized(),
            sum_pheaders(self.pheaders@, |p: JifPheader| (p.spec_data_size() as int) / (PAGE_SIZE as int)) <= u64::MAX,
        ensures
            r == sum_pheaders(self.pheaders@, |p: JifPheader| (p.spec_data_size() as int) / (PAGE_SIZE as int)),
    {
        let ghost f = |p: JifPheader| (p.spec_data_size() as int) / (PAGE_SIZE as int);
        let mut acc: u64 = 0;
        let mut i: usize = 0;
        proof {
            lemma_sum_pheaders_prefix(self.pheaders@, f, self.pheaders@.len() as int);
            assert(self.pheaders@.take(self.pheaders@.len() as int) =~= self.pheaders@);
        }
        while i < self.pheaders.len()
            invariant
                i <= self.pheaders@.len(),
                f == (|p: JifPheader| (p.spec_data_size() as int) / (PAGE_SIZE as int)),
                forall|i: int| 0 <= i < self.pheaders@.len() ==> (#[trigger] self.pheaders@[i]).sized(),
                acc == sum_pheaders(self.pheaders@.take(i as int), f),
                forall|j: int| 0 <= j <= self.pheaders@.len() ==> 0 <= sum_pheaders(#[trigger] self.pheaders@.take(j), f) <= sum_pheaders(self.pheaders@, f),
                sum_pheaders(self.pheaders@, f) <= u64::MAX,
            decreases self.pheaders@.len() - i,
        {
            proof {
                lemma_sum_pheaders_step(self.pheaders@, f, i as int);
            }
            acc = acc + self.pheaders[i].private_pages();
            i = i + 1;
        }
        assert(self.pheaders@.take(i as int) =~= self.pheaders@);
        acc
    }

    /// Compute the total number of shared pages referenced by the [`Jif`]
    pub fn shared_pages(&self) -> (r: u64)
        requires
            forall|i: int| 0 <= i < self.pheaders@.len() ==> (#[trigger] self.pheaders@[i]).implicit_ok(),
            sum_pheaders(self.pheaders@, |p: JifPheader| p.spec_shared_pages()) <= u64::MAX,
        ensures
            r == sum_pheaders(self.pheaders@, |p: JifPheader| p.spec_shared_pages()),
    {
        let ghost f = |p: JifPheader| p.spec_shared_pages();
        let mut acc: u64 = 0;
        let mut i: usize = 0;
        proof {
            assert forall|i: int| 0 <= i < self.pheaders@.len() implies f(#[trigger] self.pheaders@[i]) >= 0 by {
                lemma_pheader_counts_nonneg(self.pheaders@[i]);
            }
            lemma_sum_pheaders_prefix_ok(self.pheaders@, f, self.pheaders@.len() as int);
            assert(self.pheaders@.take(self.pheaders@.len() as int) =~= self.pheaders@);
        }
        while i < self.pheaders.len()
            invariant
                i <= self.pheaders@.len(),
                f == (|p: JifPheader| p.spec_shared_pages()),
                forall|i: int| 0 <= i < self.pheaders@.len() ==> (#[trigger] self.pheaders@[i]).implicit_ok(),
                acc == sum_pheaders(self.pheaders@.take(i as int), f),
                forall|j: int| 0 <= j <= self.pheaders@.len() ==> 0 <= sum_pheaders(#[trigger] self.pheaders@.take(j), f) <= sum_pheaders(self.pheaders@, f),
                sum_pheaders(self.pheaders@, f) <= u64::MAX,
            decreases self.pheaders@.len() - i,
        {
            proof {
                lemma_sum_pheaders_step(self.pheaders@, f, i as int);
            }
            acc = acc + self.pheaders[i].shared_pages();
            i = i + 1;
        }
        assert(self.pheaders@.take(i as int) =~= self.pheaders@);
        acc
    }

    /// The total number of pages
    pub fn total_pages(&self) -> (r: u64)
        requires
            forall|i: int| 0 <= i < self.pheaders@.len() ==> {
                let p = #[trigger] self.pheaders@[i];
                &&& p.sized()
                &&& p.implicit_ok()
                &&& (p.spec_range().1 - p.spec_range().0) / (PAGE_SIZE as int) == p.spec_zero_pages() + p.spec_data_size()
                    / (PAGE_SIZE as nat) + p.spec_shared_pages()
            },
            sum_pheaders(self.pheaders@, |p: JifPheader| (p.spec_range().1 - p.spec_range().0) / (PAGE_SIZE as int)) <= u64::MAX,
        ensures
            r == sum_pheaders(self.pheaders@, |p: JifPheader| (p.spec_range().1 - p.spec_range().0) / (PAGE_SIZE as int)),
    {
        let ghost f = |p: JifPheader| (p.spec_range().1 - p.spec_range().0) / (PAGE_SIZE as int);
        let mut acc: u64 = 0;
        let mut i: usize = 0;
        proof {
            lemma_sum_pheaders_prefix_ok(self.pheaders@, f, self.pheaders@.len() as int);
            assert(self.pheaders@.take(self.pheaders@.len() as int) =~= self.pheaders@);
        }
        while i < self.pheaders.len()
            invariant
                i <= self.pheaders@.len(),
                f == (|p: JifPheader| (p.spec_range().1 - p.spec_range().0) / (PAGE_SIZE as int)),
                forall|i: int| 0 <= i < self.pheaders@.len() ==> {
                    let p = #[trigger] self.pheaders@[i];
                    &&& p.sized()
                    &&& p.implicit_ok()
                    &&& (p.spec_range().1 - p.spec_range().0) / (PAGE_SIZE as int) == p.spec_zero_pages() + p.spec_data_size()
                        / (PAGE_SIZE as nat) + p.spec_shared_pages()
                },
                acc == sum_pheaders(self.pheaders@.take(i as int), f),
                forall|j: int| 0 <= j <= self.pheaders@.len() ==> 0 <= sum_pheaders(#[trigger] self.pheaders@.take(j), f) <= sum_pheaders(self.pheaders@, f),
                sum_pheaders(self.pheaders@, f) <= u64::MAX,
            decreases self.pheaders@.len() - i,
        {
            proof {
                lemma_sum_pheaders_step(self.pheaders@, f, i as int);
            }
            acc = acc + self.pheaders[i].total_pages();
            i = i + 1;
        }
        assert(self.pheaders@.take(i as int) =~= self.pheaders@);
        acc
    }

    /// Rename a file globally
    pub fn rename_file(&mut self, from: &str, to: &str)
        ensures
            final(self).pheaders@.len() == old(self).pheaders@.len(),
            final(self).ord_chunks == old(self).ord_chunks,
            final(self).deduper == old(self).deduper,
            forall|i: int| 0 <= i < old(self).pheaders@.len() ==> renamed(
                #[trigger] old(self).pheaders@[i],
                final(self).pheaders@[i],
                from@,
                to@,
            ),
    {
        let ghost orig = self.pheaders@;
        let mut i: usize = 0;
        while i < self.pheaders.len()
            invariant
                i <= self.pheaders@.len(),
                self.pheaders@.len() == orig.len(),
                orig == old(self).pheaders@,
                self.ord_chunks == old(self).ord_chunks,
                self.deduper == old(self).deduper,
                forall|j: int| 0 <= j < i ==> renamed(#[trigger] orig[j], self.pheaders@[j], from@, to@),
                forall|j: int| i <= j < orig.len() ==> #[trigger] self.pheaders@[j] == orig[j],
            decreases self.pheaders@.len() - i,
        {
            self.pheaders[i].rename_file(from, to);
            i = i + 1;
        }
    }

    /// Set the ordering section: the non-empty chunks, in order (each must start on a mapped
    /// address)
    pub fn add_ordering_info(&mut self, ordering_info: Vec<OrdChunk>) -> (r: JifResult<()>)
        requires
            forall|k: int| 0 <= k < ordering_info@.len() && (#[trigger] ordering_info@[k]).n_pages != 0
                ==> spec_find_pheader(old(self).pheaders@, ordering_info@[k].vaddr, 0) is Some,
        ensures
            r is Ok,
            final(self).pheaders == old(self).pheaders,
            final(self).deduper == old(self).deduper,
            final(self).ord_chunks@ == ordering_info@.filter(|c: OrdChunk| c.n_pages != 0),
    {
        let mut kept: Vec<OrdChunk> = Vec::new();
        let mut k: usize = 0;
        while k < ordering_info.len()
            invariant
                k <= ordering_info@.len(),
                kept@ == ordering_info@.take(k as int).filter(|c: OrdChunk| c.n_pages != 0),
            decreases ordering_info@.len() - k,
        {
            let chunk = ordering_info[k];
            proof {
                assert(ordering_info@.take(k + 1).drop_last() =~= ordering_info@.take(k as int));
                assert(ordering_info@.take(k + 1).last() == chunk);
                ordering_info@.take(k as int).lemma_filter_push(chunk, |c: OrdChunk| c.n_pages != 0);
                assert(ordering_info@.take(k + 1) =~= ordering_info@.take(k as int).push(chunk));
            }
            if !chunk.is_empty() {
                kept.push(chunk);
            }
            k = k + 1;
        }
        assert(ordering_info@.take(k as int) =~= ordering_info@);
        self.ord_chunks = kept;
        Ok(())
    }

    /// The private data backing `addr`: the page found by the first pheader that has one
    pub fn resolve_data(&self, addr: u64) -> (r: Option<&[u8]>)
        requires
            forall|i: int| 0 <= i < self.pheaders@.len() ==> refs_ok(#[trigger] self.pheaders@[i], self.deduper),
        ensures
            match first_page(self.pheaders@, addr, self.deduper, 0) {
                Some(p) => r matches Some(d) && d@ == p,
                None => r is None,
            },
    {
        let mut i: usize = 0;
        while i < self.pheaders.len()
            invariant
                i <= self.pheaders@.len(),
                forall|i: int| 0 <= i < self.pheaders@.len() ==> refs_ok(#[trigger] self.pheaders@[i], self.deduper),
                first_page(self.pheaders@, addr, self.deduper, 0) == first_page(self.pheaders@, addr, self.deduper, i as int),
            decreases self.pheaders@.len() - i,
        {
            assert(refs_ok(self.pheaders@[i as int], self.deduper));
            let found = self.pheaders[i].resolve_data(addr, &self.deduper);
            if found.is_some() {
                return found;
            }
            i = i + 1;
        }
        None
    }

    /// The regions backed by reference files, of all the pheaders in order: the file, and the
    /// range of offsets into it
    pub fn iter_shared_regions(&self) -> (r: Vec<(&str, u64, u64)>)
        requires
            forall|i: int| 0 <= i < self.pheaders@.len() ==> shared_ok(#[trigger] self.pheaders@[i]),
        ensures
            r@.map_values(|x: (&str, u64, u64)| (x.0@, x.1 as int, x.2 as int)) == all_shared_regions(self.pheaders@),
    {
        let mut out: Vec<(&str, u64, u64)> = Vec::new();
        let mut i: usize = 0;
        assert(self.pheaders@.take(0) =~= Seq::<JifPheader>::empty());
        while i < self.pheaders.len()
            invariant
                i <= self.pheaders@.len(),
                forall|i: int| 0 <= i < self.pheaders@.len() ==> shared_ok(#[trigger] self.pheaders@[i]),
                out@.map_values(|x: (&str, u64, u64)| (x.0@, x.1 as int, x.2 as int)) == all_shared_regions(self.pheaders@.take(i as int)),
            decreases self.pheaders@.len() - i,
        {
            let ghost before = out@.map_values(|x: (&str, u64, u64)| (x.0@, x.1 as int, x.2 as int));
            assert(shared_ok(self.pheaders@[i as int]));
            let regions = self.pheaders[i].iter_shared_regions();
            let ghost pv = pheader_shared_regions(self.pheaders@[i as int]);
            assert(regions@.map_values(|x: (&str, u64, u64)| (x.0@, x.1 as int, x.2 as int)) =~= pv);
            let mut k: usize = 0;
            while k < regions.len()
                invariant
                    k <= regions@.len(),
                    regions@.map_values(|x: (&str, u64, u64)| (x.0@, x.1 as int, x.2 as int)) == pv,
                    out@.map_values(|x: (&str, u64, u64)| (x.0@, x.1 as int, x.2 as int)) == before + pv.take(k as int),
                decreases regions@.len() - k,
            {
                assert(regions@.map_values(|x: (&str, u64, u64)| (x.0@, x.1 as int, x.2 as int))[k as int] == pv[k as int]);
                let ghost prev = out@;
                out.push(regions[k]);
                assert(out@ == prev.push(regions@[k as int]));
                assert(out@.map_values(|x: (&str, u64, u64)| (x.0@, x.1 as int, x.2 as int)) =~= prev.map_values(
                    |x: (&str, u64, u64)| (x.0@, x.1 as int, x.2 as int),
                ).push(pv[k as int]));
                assert(out@.map_values(|x: (&str, u64, u64)| (x.0@, x.1 as int, x.2 as int)) =~= before + pv.take(k + 1));
                k = k + 1;
            }
            assert(pv.take(k as int) =~= pv);
            assert(self.pheaders@.take(i + 1).drop_last() =~= self.pheaders@.take(i as int));
            assert(self.pheaders@.take(i + 1).last() == self.pheaders@[i as int]);
            i = i + 1;
        }
        assert(self.pheaders@.take(i as int) =~= self.pheaders@);
        out
    }

    /// The private pages of all the pheaders, in order
    pub fn iter_private_pages(&self) -> (r: Vec<&[u8]>)
        requires
            forall|i: int| 0 <= i < self.pheaders@.len() ==> match #[trigger] self.pheaders@[i] {
                JifPheader::Anonymous { itree, .. } => nodes_wf(itree.nodes@) && crate::itree::tree::refs_held(itree.in_order(), self.deduper),
                JifPheader::Reference { itree, .. } => nodes_wf(itree.nodes@) && crate::itree::tree::refs_held(itree.in_order(), self.deduper),
            },
        ensures
            r@.map_values(|d: &[u8]| d@) == all_private_pages(self.pheaders@, self.deduper),
    {
        let mut out: Vec<&[u8]> = Vec::new();
        let mut i: usize = 0;
        assert(self.pheaders@.take(0) =~= Seq::<JifPheader>::empty());
        while i < self.pheaders.len()
            invariant
                i <= self.pheaders@.len(),
                forall|i: int| 0 <= i < self.pheaders@.len() ==> match #[trigger] self.pheaders@[i] {
                    JifPheader::Anonymous { itree, .. } => nodes_wf(itree.nodes@) && crate::itree::tree::refs_held(itree.in_order(), self.deduper),
                    JifPheader::Reference { itree, .. } => nodes_wf(itree.nodes@) && crate::itree::tree::refs_held(itree.in_order(), self.deduper),
                },
                out@.map_values(|d: &[u8]| d@) == all_private_pages(self.pheaders@.take(i as int), self.deduper),
            decreases self.pheaders@.len() - i,
        {
            let ghost before = out@.map_values(|d: &[u8]| d@);
            let pages = self.pheaders[i].iter_private_pages(&self.deduper);
            let ghost pv = pheader_private_pages(self.pheaders@[i as int], self.deduper);
            assert(pages@.map_values(|d: &[u8]| d@) =~= pv);
            let mut k: usize = 0;
            while k < pages.len()
                invariant
                    k <= pages@.len(),
                    pages@.map_values(|d: &[u8]| d@) == pv,
                    out@.map_values(|d: &[u8]| d@) == before + pv.take(k as int),
                decreases pages@.len() - k,
            {
                assert(pages@[k as int]@ == pv[k as int]);
                let ghost prev = out@;
                out.push(pages[k]);
                assert(out@ == prev.push(pages@[k as int]));
                assert(out@.map_values(|d: &[u8]| d@) =~= prev.map_values(|d: &[u8]| d@).push(pv[k as int]));
                assert(out@.map_values(|d: &[u8]| d@) =~= before + pv.take(k + 1));
                k = k + 1;
            }
            assert(pv.take(k as int) =~= pv);
            assert(self.pheaders@.take(i + 1).drop_last() =~= self.pheaders@.take(i as int));
            assert(self.pheaders@.take(i + 1).last() == self.pheaders@[i as int]);
            i = i + 1;
        }
        assert(self.pheaders@.take(i as int) =~= self.pheaders@);
        out
    }
}

/// What renaming a file does to a pheader
pub open spec fn renamed(before: JifPheader, after: JifPheader, from: Seq<char>, to: Seq<char>) -> bool {
    match (before, after) {
        (JifPheader::Anonymous { .. }, _) => after == before,
        (
            JifPheader::Reference { vaddr_range: v1, itree: t1, prot: p1, ref_path: s1, ref_offset: o1 },
            JifPheader::Reference { vaddr_range: v2, itree: t2, prot: p2, ref_path: s2, ref_offset: o2 },
        ) => v1 == v2 && t1 == t2 && p1 == p2 && o1 == o2 && s2@ == if s1@ == from {
            to
        } else {
            s1@
        },
        _ => false,
    }
}

/// Page counts of a pheader are nonnegative
pub proof fn lemma_pheader_counts_nonneg(p: JifPheader)
    ensures
        p.implicit_ok() ==> p.spec_zero_pages() >= 0 && p.spec_shared_pages() >= 0,
        p.spec_zero_pages() >= 0 || !p.implicit_ok(),
{
}

/// Partial sums of a measure, nonnegative on the pheaders at hand, are bounded by the total
pub proof fn lemma_sum_pheaders_prefix_ok(ps: Seq<JifPheader>, f: spec_fn(JifPheader) -> int, k: int)
    requires
        0 <= k <= ps.len(),
        forall|i: int| 0 <= i < ps.len() ==> f(#[trigger] ps[i]) >= 0,
    ensures
        forall|j: int| 0 <= j <= k ==> 0 <= sum_pheaders(#[trigger] ps.take(j), f) <= sum_pheaders(ps.take(k), f),
    decreases k,
{
    if k > 0 {
        lemma_sum_pheaders_prefix_ok(ps, f, k - 1);
        assert(ps.take(k).drop_last() =~= ps.take(k - 1));
        assert(ps.take(k).last() == ps[k - 1]);
    }
}

/// The page of private data backing `addr` in a pheader, if it has one
pub open spec fn pheader_page(p: JifPheader, addr: u64, d: Deduper) -> Option<Seq<u8>> {
    match p {
        JifPheader::Anonymous { itree, .. } => resolved_page(itree.spec_resolve(addr), addr, d),
        JifPheader::Reference { itree, .. } => resolved_page(itree.spec_resolve(addr), addr, d),
    }
}

/// The first page of private data backing `addr` in the pheaders, from `from` on
pub open spec fn first_page(ps: Seq<JifPheader>, addr: u64, d: Deduper, from: int) -> Option<Seq<u8>>
    decreases ps.len() - from,
{
    if from < 0 || from >= ps.len() {
        None
    } else {
        match pheader_page(ps[from], addr, d) {
            Some(pg) => Some(pg),
            None => first_page(ps, addr, d, from + 1),
        }
    }
}

/// A pheader's tree is well formed and its references are held by the deduper
pub open spec fn refs_ok(p: JifPheader, d: Deduper) -> bool {
    &&& p.wf()
    &&& match p {
        JifPheader::Anonymous { itree, .. } => tree_refs_held(itree.nodes@, d),
        JifPheader::Reference { itree, .. } => tree_refs_held(itree.nodes@, d),
    }
}

/// The regions of a pheader backed by its reference file: the file, and the range of offsets
pub open spec fn pheader_shared_regions(p: JifPheader) -> Seq<(Seq<char>, int, int)> {
    match p {
        JifPheader::Anonymous { .. } => seq![],
        JifPheader::Reference { itree, vaddr_range, ref_offset, ref_path, .. } => shared_gaps(itree, vaddr_range).map_values(
            |g: (u64, u64)| (ref_path@, g.0 - vaddr_range.0 + ref_offset, g.1 - vaddr_range.0 + ref_offset),
        ),
    }
}

/// The shared regions of the pheaders, one pheader after the other
pub open spec fn all_shared_regions(ps: Seq<JifPheader>) -> Seq<(Seq<char>, int, int)>
    decreases ps.len(),
{
    if ps.len() == 0 {
        seq![]
    } else {
        all_shared_regions(ps.drop_last()) + pheader_shared_regions(ps.last())
    }
}

/// A pheader's shared regions can be moved to file offsets
pub open spec fn shared_ok(p: JifPheader) -> bool {
    &&& p.wf()
    &&& match p {
        JifPheader::Anonymous { .. } => true,
        JifPheader::Reference { itree, vaddr_range, ref_offset, .. } => forall|k: int|
            0 <= k < shared_gaps(itree, vaddr_range).len() ==> shifted_ok(
                #[trigger] shared_gaps(itree, vaddr_range)[k],
                vaddr_range.0,
                ref_offset,
            ),
    }
}

/// The private pages of a pheader
pub open spec fn pheader_private_pages(p: JifPheader, deduper: Deduper) -> Seq<Seq<u8>> {
    match p {
        JifPheader::Anonymous { itree, .. } => private_pages_of(itree.in_order(), deduper),
        JifPheader::Reference { itree, .. } => private_pages_of(itree.in_order(), deduper),
    }
}

/// The private pages of the pheaders, in order
pub open spec fn all_private_pages(ps: Seq<JifPheader>, deduper: Deduper) -> Seq<Seq<u8>>
    decreases ps.len(),
{
    if ps.len() == 0 {
        seq![]
    } else {
        all_private_pages(ps.drop_last(), deduper) + pheader_private_pages(ps.last(), deduper)
    }
}

/// Partial string table sizes are bounded by the total
pub proof fn lemma_strings_size_prefix(s: Seq<Seq<char>>, k: int)
    requires
        0 <= k <= s.len(),
    ensures
        strings_size(s.take(k)) <= strings_size(s),
    decreases s.len() - k,
{
    if k < s.len() {
        lemma_strings_size_prefix(s, k + 1);
        assert(s.take(k + 1).drop_last() =~= s.take(k));
    } else {
        assert(s.take(k) =~= s);
    }
}

/// The bytes of `b` before its first NUL byte
pub open spec fn first_piece(b: Seq<u8>) -> Seq<u8>
    decreases b.len(),
{
    if b.len() == 0 || b[0] == 0 {
        seq![]
    } else {
        seq![b[0]] + first_piece(b.drop_first())
    }
}

/// The pieces of `b` between NUL bytes (`n` NUL bytes give `n + 1` pieces)
pub open spec fn split_nul(b: Seq<u8>) -> Seq<Seq<u8>>
    decreases b.len(),
{
    if b.len() == 0 {
        seq![seq![]]
    } else {
        let r = split_nul(b.drop_last());
        if b.last() == 0 {
            r.push(seq![])
        } else {
            r.update(r.len() - 1, r.last().push(b.last()))
        }
    }
}

/// Pieces of a split are never absent
pub proof fn lemma_split_nul_len(b: Seq<u8>)
    ensures
        split_nul(b).len() >= 1,
    decreases b.len(),
{
    if b.len() > 0 {
        lemma_split_nul_len(b.drop_last());
    }
}

/// The string a byte piece decodes to (`<failed to parse>` when it is not UTF-8)
pub open spec fn piece_str(p: Seq<u8>) -> Seq<char> {
    if vstd::utf8::valid_utf8(p) {
        vstd::utf8::decode_utf8(p)
    } else {
        FAILED_TO_PARSE@
    }
}

/// What a string table names at `offset`
pub open spec fn string_at(backing: Seq<u8>, offset: int) -> Option<Seq<char>> {
    if offset > backing.len() {
        None
    } else {
        Some(piece_str(first_piece(backing.skip(offset))))
    }
}

/// The string table, up to (and not counting) its trailing NUL bytes; whole when it holds
/// nothing but NUL bytes
pub open spec fn trimmed_table(backing: Seq<u8>) -> Seq<u8> {
    if exists|i: int| 0 <= i < backing.len() && backing[i] != 0 {
        let i = choose|i: int| 0 <= i < backing.len() && backing[i] != 0 && forall|j: int| i < j < backing.len() ==> backing[j] == 0;
        backing.take(i + 1)
    } else {
        backing
    }
}

/// What stands for a string that is not UTF-8
pub const FAILED_TO_PARSE: &'static str = "<failed to parse>";

/// Decode UTF-8 bytes, through `std::str::from_utf8`: it gives the string when the bytes are
/// valid UTF-8, and an error otherwise
#[verifier::external_body]
fn utf8_str(b: &[u8]) -> (r: Option<&str>)
    ensures
        match r {
            Some(s) => vstd::utf8::valid_utf8(b@) && s@ == vstd::utf8::decode_utf8(b@),
            None => !vstd::utf8::valid_utf8(b@),
        },
{
    std::str::from_utf8(b).ok()
}

/// The string a piece of the table decodes to
fn decode_piece(p: &[u8]) -> (r: &str)
    ensures
        r@ == piece_str(p@),
{
    match utf8_str(p) {
        Some(s) => s,
        None => FAILED_TO_PARSE,
    }
}

/// Length of the leading run of non-NUL bytes from `from`
fn piece_end(b: &[u8], from: usize) -> (r: usize)
    requires
        from <= b@.len(),
    ensures
        from <= r <= b@.len(),
        b@.subrange(from as int, r as int) == first_piece(b@.skip(from as int)),
{
    let mut k = from;
    while k < b.len() && b[k] != 0
        invariant
            from <= k <= b@.len(),
            first_piece(b@.skip(from as int)) == b@.subrange(from as int, k as int) + first_piece(b@.skip(k as int)),
        decreases b@.len() - k,
    {
        assert(b@.skip(k as int)[0] == b@[k as int]);
        assert(b@.skip(k as int).drop_first() =~= b@.skip(k + 1));
        assert(b@.subrange(from as int, k + 1) =~= b@.subrange(from as int, k as int) + seq![b@[k as int]]);
        k = k + 1;
    }
    proof {
        if k < b@.len() {
            assert(b@.skip(k as int)[0] == b@[k as int]);
        }
        assert(b@.subrange(from as int, k as int) + Seq::<u8>::empty() =~= b@.subrange(from as int, k as int));
    }
    k
}

impl JifRaw {
    /// Every raw node holds three slots, and there are not too many of them
    pub open spec fn wf(&self) -> bool {
        &&& forall|i: int| 0 <= i < self.itree_nodes@.len() ==> (#[trigger] self.itree_nodes@[i]).wf()
        &&& self.itree_nodes@.len() <= usize::MAX / 16
    }

    /// Access the pheaders
    pub fn pheaders(&self) -> (r: &[JifRawPheader])
        ensures
            r@ == self.pheaders@,
    {
        self.pheaders.as_slice()
    }

    /// Access the ordering list
    pub fn ord_chunks(&self) -> (r: &[OrdChunk])
        ensures
            r@ == self.ord_chunks@,
    {
        self.ord_chunks.as_slice()
    }

    /// Access the interval tree node list
    pub fn itree_nodes(&self) -> (r: &[RawITreeNode])
        ensures
            r@ == self.itree_nodes@,
    {
        self.itree_nodes.as_slice()
    }

    /// Remove the data from the [`JifRaw`]
    pub fn take_data(&mut self) -> (r: Vec<((u64, u64), Vec<u8>)>)
        ensures
            r@ == old(self).data_segments@,
            final(self).data_segments@.len() == 0,
            final(self).pheaders == old(self).pheaders,
            final(self).strings_backing == old(self).strings_backing,
            final(self).itree_nodes == old(self).itree_nodes,
            final(self).ord_chunks == old(self).ord_chunks,
            final(self).data_offset == old(self).data_offset,
            final(self).n_prefetch == old(self).n_prefetch,
    {
        let mut data = Vec::new();
        core::mem::swap(&mut data, &mut self.data_segments);
        data
    }

    /// Report the number of stored bytes
    pub fn data_size(&self) -> (r: u64)
        requires
            segments_size(self.data_segments@) <= u64::MAX,
        ensures
            r == segments_size(self.data_segments@),
    {
        let mut acc: u64 = 0;
        let mut i: usize = 0;
        proof {
            lemma_segments_size_prefix(self.data_segments@, self.data_segments@.len() as int);
            assert(self.data_segments@.take(self.data_segments@.len() as int) =~= self.data_segments@);
        }
        while i < self.data_segments.len()
            invariant
                i <= self.data_segments@.len(),
                acc == segments_size(self.data_segments@.take(i as int)),
                forall|j: int| 0 <= j <= self.data_segments@.len() ==> segments_size(#[trigger] self.data_segments@.take(j)) <= segments_size(self.data_segments@),
                segments_size(self.data_segments@) <= u64::MAX,
            decreases self.data_segments@.len() - i,
        {
            assert(self.data_segments@.take(i + 1).drop_last() =~= self.data_segments@.take(i as int));
            assert(self.data_segments@.take(i + 1).last() == self.data_segments@[i as int]);
            acc = acc + self.data_segments[i].1.len() as u64;
            i = i + 1;
        }
        assert(self.data_segments@.take(i as int) =~= self.data_segments@);
        acc
    }

    /// Find a string at a particular offset
    pub fn string_at_offset(&self, offset: usize) -> (r: Option<&str>)
        ensures
            match string_at(self.strings_backing@, offset as int) {
                Some(s) => r matches Some(x) && x@ == s,
                None => r is None,
            },
    {
        if offset > self.strings_backing.len() {
            return None;
        }
        let b = self.strings_backing.as_slice();
        let end = piece_end(b, offset);
        let piece = vstd::slice::slice_subrange(b, offset, end);
        Some(decode_piece(piece))
    }

    /// Access the string table: the strings between NUL bytes, up to the trailing NUL bytes
    pub fn strings(&self) -> (r: Vec<&str>)
        ensures
            r@.map_values(|s: &str| s@) == split_nul(trimmed_table(self.strings_backing@)).map_values(
                |p: Seq<u8>| piece_str(p),
            ),
    {
        let b = self.strings_backing.as_slice();
        // the end of the table once its trailing NUL bytes are left out
        let mut last = b.len();
        while last > 0 && b[last - 1] == 0
            invariant
                last <= b@.len(),
                forall|j: int| last <= j < b@.len() ==> b@[j] == 0,
            decreases last,
        {
            last = last - 1;
        }
        let table_end = if last == 0 {
            b.len()
        } else {
            last
        };
        proof {
            if last == 0 {
                assert(!exists|i: int| 0 <= i < b@.len() && b@[i] != 0);
                assert(trimmed_table(b@) =~= b@);
            } else {
                assert(b@[last - 1] != 0);
                let i = choose|i: int| 0 <= i < b@.len() && b@[i] != 0 && forall|j: int| i < j < b@.len() ==> b@[j] == 0;
                assert(i == last - 1) by {
                    if i < last - 1 {
                        assert(b@[last - 1] == 0);
                    }
                    if i > last - 1 {
                        assert(b@[i] == 0);
                    }
                }
                assert(trimmed_table(b@) =~= b@.take(last as int));
            }
            assert(b@.subrange(0, table_end as int) =~= trimmed_table(b@));
        }
        let table = vstd::slice::slice_subrange(b, 0, table_end);
        let ghost t = table@;
        let mut out: Vec<&str> = Vec::new();
        let mut start: usize = 0;
        let mut k: usize = 0;
        proof {
            assert(split_nul(t.take(0)) =~= seq![Seq::<u8>::empty()]);
        }
        while k < table.len()
            invariant
                start <= k <= t.len(),
                t == table@,
                out@.map_values(|s: &str| s@) == split_nul(t.take(k as int)).drop_last().map_values(|p: Seq<u8>| piece_str(p)),
                split_nul(t.take(k as int)).last() == t.subrange(start as int, k as int),
                split_nul(t.take(k as int)).len() >= 1,
            decreases t.len() - k,
        {
            let ghost r = split_nul(t.take(k as int));
            assert(t.take(k + 1).drop_last() =~= t.take(k as int));
            assert(t.take(k + 1).last() == t[k as int]);
            if table[k] == 0 {
                let piece = vstd::slice::slice_subrange(table, start, k);
                let s = decode_piece(piece);
                let ghost before = out@;
                out.push(s);
                proof {
                    assert(split_nul(t.take(k + 1)) == r.push(seq![]));
                    assert(r.push(seq![]).drop_last() =~= r);
                    assert(r =~= r.drop_last().push(r.last()));
                    assert(out@.map_values(|s: &str| s@) =~= before.map_values(|s: &str| s@).push(piece_str(r.last())));
                    assert(r.drop_last().push(r.last()).map_values(|p: Seq<u8>| piece_str(p)) =~= r.drop_last().map_values(|p: Seq<u8>| piece_str(p)).push(piece_str(r.last())));
                    assert(t.subrange(k + 1, k + 1) =~= Seq::<u8>::empty());
                }
                start = k + 1;
            } else {
                proof {
                    let nr = r.update(r.len() - 1, r.last().push(t[k as int]));
                    assert(split_nul(t.take(k + 1)) == nr);
                    assert(nr.drop_last() =~= r.drop_last());
                    assert(t.subrange(start as int, k + 1) =~= t.subrange(start as int, k as int).push(t[k as int]));
                }
            }
            k = k + 1;
        }
        let piece = vstd::slice::slice_subrange(table, start, k);
        let s = decode_piece(piece);
        let ghost before = out@;
        out.push(s);
        proof {
            let r = split_nul(t.take(k as int));
            assert(t.take(k as int) =~= t);
            assert(r =~= r.drop_last().push(r.last()));
            assert(out@.map_values(|s: &str| s@) =~= before.map_values(|s: &str| s@).push(piece_str(r.last())));
            assert(r.drop_last().push(r.last()).map_values(|p: Seq<u8>| piece_str(p)) =~= r.drop_last().map_values(|p: Seq<u8>| piece_str(p)).push(piece_str(r.last())));
        }
        out
    }
}

/// Total length of the data segments
pub open spec fn segments_size(s: Seq<((u64, u64), Vec<u8>)>) -> int
    decreases s.len(),
{
    if s.len() == 0 {
        0
    } else {
        segments_size(s.drop_last()) + s.last().1@.len()
    }
}

/// Partial sums of segment lengths are bounded by the total
pub proof fn lemma_segments_size_prefix(s: Seq<((u64, u64), Vec<u8>)>, k: int)
    requires
        0 <= k <= s.len(),
    ensures
        forall|j: int| 0 <= j <= k ==> 0 <= segments_size(#[trigger] s.take(j)) <= segments_size(s.take(k)),
    decreases k,
{
    if k > 0 {
        lemma_segments_size_prefix(s, k - 1);
        assert(s.take(k).drop_last() =~= s.take(k - 1));
    }
}

/// Whether the data of a raw interval can be found, and the length of what was found
fn check_data(
    raw: &RawInterval,
    data_offset: u64,
    deduper: &Deduper,
    offset_idx: &Vec<((u64, u64), DedupToken)>,
) -> (r: (bool, usize))
    ensures
        r.0 == raw_data_resolvable(*raw, data_offset, *deduper, offset_idx@),
{
    if !raw.is_data() {
        return (true, 0);
    }
    if raw.start > raw.end || data_offset > raw.offset {
        return (false, 0);
    }
    let len = raw.end - raw.start;
    match raw.offset.checked_add(len) {
        None => (false, 0),
        Some(e) => {
            let range = (raw.offset - data_offset, e - data_offset);
            match lookup_token(offset_idx, range) {
                None => (false, 0),
                Some(tok) => match deduper.try_get(tok) {
                    None => (false, 0),
                    Some(d) => (d.len() as u64 == len, d.len()),
                },
            }
        },
    }
}

/// The data range a raw data interval references
fn data_range_of(raw: &RawInterval, data_offset: u64) -> (r: (u64, u64))
    ensures
        r == (raw.offset.wrapping_sub(data_offset), raw.offset.wrapping_add(raw.end.wrapping_sub(raw.start)).wrapping_sub(data_offset)),
{
    (raw.offset.wrapping_sub(data_offset), raw.offset.wrapping_add(raw.end.wrapping_sub(raw.start)).wrapping_sub(data_offset))
}

/// Every data interval of the raw nodes `[index; index + n)` can be resolved
pub open spec fn span_resolvable(
    nodes: Seq<RawITreeNode>,
    index: int,
    n: int,
    data_offset: u64,
    deduper: Deduper,
    offset_idx: Seq<((u64, u64), DedupToken)>,
) -> bool {
    forall|j: int, k: int|
        index <= j < index + n && 0 <= k < 3 ==> raw_data_resolvable(
            #[trigger] nodes[j].ranges@[k],
            data_offset,
            deduper,
            offset_idx,
        )
}

/// Find the first raw node of `[index; index + n)` holding a data interval that cannot be resolved
fn find_unresolvable(
    nodes: &Vec<RawITreeNode>,
    index: usize,
    n: usize,
    data_offset: u64,
    deduper: &Deduper,
    offset_idx: &Vec<((u64, u64), DedupToken)>,
) -> (r: Option<JifError>)
    requires
        index + n <= nodes@.len(),
        forall|i: int| 0 <= i < nodes@.len() ==> (#[trigger] nodes@[i]).wf(),
    ensures
        r is None <==> span_resolvable(nodes@, index as int, n as int, data_offset, *deduper, offset_idx@),
        r matches Some(e) ==> e is DataSegmentNotFound,
{
    let total = nodes.len();
    assert(index + n <= total);
    let end = index + n;
    let mut j: usize = index;
    while j < end
        invariant
            end == index + n,
            index <= j <= index + n,
            index + n <= nodes@.len(),
            forall|i: int| 0 <= i < nodes@.len() ==> (#[trigger] nodes@[i]).wf(),
            span_resolvable(nodes@, index as int, j - index, data_offset, *deduper, offset_idx@),
        decreases index + n - j,
    {
        assert(nodes@[j as int].wf());
        let mut k: usize = 0;
        while k < 3
            invariant
                k <= 3,
                index <= j < index + n,
                index + n <= nodes@.len(),
                nodes@[j as int].ranges@.len() == 3,
                span_resolvable(nodes@, index as int, j - index, data_offset, *deduper, offset_idx@),
                forall|kk: int| 0 <= kk < k ==> raw_data_resolvable(#[trigger] nodes@[j as int].ranges@[kk], data_offset, *deduper, offset_idx@),
            decreases 3 - k,
        {
            let raw = &nodes[j].ranges[k];
            let (ok, found_len) = check_data(raw, data_offset, deduper, offset_idx);
            if !ok {
                return Some(JifError::DataSegmentNotFound {
                    data_range: data_range_of(raw, data_offset),
                    virtual_range: (raw.start, raw.end),
                    found_len,
                });
            }
            k = k + 1;
        }
        j = j + 1;
    }
    None
}

impl JifRaw {
    /// Get a reference interval tree from an `(index, len)` range of the node table
    pub fn get_ref_itree(
        &self,
        index: usize,
        n: usize,
        virtual_range: (u64, u64),
        deduper: &Deduper,
        offset_idx: &Vec<((u64, u64), DedupToken)>,
    ) -> (r: JifResult<ITree<RefIntervalData>>)
        requires
            self.wf(),
        ensures
            index + n > self.itree_nodes@.len() ==> r == Err::<ITree<RefIntervalData>, JifError>(
                JifError::ITreeNotFound { index, len: n, n_nodes: self.itree_nodes@.len() as usize },
            ),
            index + n <= self.itree_nodes@.len() && !span_resolvable(self.itree_nodes@, index as int, n as int, self.data_offset, *deduper, offset_idx@)
                ==> (r matches Err(e) && e is DataSegmentNotFound),
            r matches Ok(t) ==> {
                &&& index + n <= self.itree_nodes@.len()
                &&& span_resolvable(self.itree_nodes@, index as int, n as int, self.data_offset, *deduper, offset_idx@)
                &&& t.virtual_range == virtual_range
                &&& t.nodes@.len() == n
                &&& nodes_wf(t.nodes@)
                &&& forall|i: int, k: int| 0 <= i < n && 0 <= k < 3 ==> #[trigger] t.nodes@[i].ranges@[k] == spec_ref_from_raw(
                    self.itree_nodes@[index + i].ranges@[k],
                    self.data_offset,
                    offset_idx@,
                )
                &&& spec_check(t.nodes@, virtual_range) is Ok
            },
            r matches Err(e) ==> (e is ITreeNotFound || e is DataSegmentNotFound || e is InvalidITree),
            r is Err ==> !(index + n <= self.itree_nodes@.len() && span_resolvable(
                self.itree_nodes@,
                index as int,
                n as int,
                self.data_offset,
                *deduper,
                offset_idx@,
            ) && exists|t: ITree<RefIntervalData>| ref_tree_from(*self, index as int, n as int, virtual_range, offset_idx@, t)),
    {
        let n_nodes = self.itree_nodes.len();
        if index.saturating_add(n) > n_nodes {
            return Err(JifError::ITreeNotFound { index, len: n, n_nodes });
        }
        match find_unresolvable(&self.itree_nodes, index, n, self.data_offset, deduper, offset_idx) {
            Some(e) => {
                return Err(e);
            },
            None => {},
        }
        let mut nodes: Vec<ITreeNode<RefIntervalData>> = Vec::new();
        let mut i: usize = 0;
        while i < n
            invariant
                i <= n,
                index + n <= self.itree_nodes@.len(),
                self.wf(),
                span_resolvable(self.itree_nodes@, index as int, n as int, self.data_offset, *deduper, offset_idx@),
                nodes@.len() == i,
                nodes_wf(nodes@),
                forall|x: int, k: int| 0 <= x < i && 0 <= k < 3 ==> #[trigger] nodes@[x].ranges@[k] == spec_ref_from_raw(
                    self.itree_nodes@[index + x].ranges@[k],
                    self.data_offset,
                    offset_idx@,
                ),
            decreases n - i,
        {
            let raw = &self.itree_nodes[index + i];
            assert(self.itree_nodes@[index + i].wf());
            assert forall|k: int| 0 <= k < 3 implies raw_data_resolvable(#[trigger] raw.ranges@[k], self.data_offset, *deduper, offset_idx@) by {
                assert(raw_data_resolvable(self.itree_nodes@[index + i].ranges@[k], self.data_offset, *deduper, offset_idx@));
            }
            let node = ITreeNode::from_raw_ref(raw, self.data_offset, deduper, offset_idx);
            nodes.push(node);
            i = i + 1;
        }
        let ghost ns = nodes@;
        match ITree::new(nodes, virtual_range) {
            Ok(t) => Ok(t),
            Err(error) => {
                proof {
                    assert forall|t: ITree<RefIntervalData>| !ref_tree_from(*self, index as int, n as int, virtual_range, offset_idx@, t) by {
                        if ref_tree_from(*self, index as int, n as int, virtual_range, offset_idx@, t) {
                            assert forall|x: int| 0 <= x < t.nodes@.len() implies (#[trigger] t.nodes@[x]).ranges@ == ns[x].ranges@ by {
                                assert(t.nodes@[x].wf() && ns[x].wf());
                                assert forall|k: int| 0 <= k < 3 implies #[trigger] t.nodes@[x].ranges@[k] == ns[x].ranges@[k] by {
                                    assert(t.nodes@[x].ranges@[k] == spec_ref_from_raw(self.itree_nodes@[index + x].ranges@[k], self.data_offset, offset_idx@));
                                }
                                assert(t.nodes@[x].ranges@ =~= ns[x].ranges@);
                            }
                            lemma_check_same_ranges(t.nodes@, ns, virtual_range);
                        }
                    }
                }
                Err(JifError::InvalidITree { virtual_range, error })
            },
        }
    }

    /// Get an anonymous interval tree from an `(index, len)` range of the node table
    pub fn get_anon_itree(
        &self,
        index: usize,
        n: usize,
        virtual_range: (u64, u64),
        deduper: &Deduper,
        offset_idx: &Vec<((u64, u64), DedupToken)>,
    ) -> (r: JifResult<ITree<AnonIntervalData>>)
        requires
            self.wf(),
        ensures
            index + n > self.itree_nodes@.len() ==> r == Err::<ITree<AnonIntervalData>, JifError>(
                JifError::ITreeNotFound { index, len: n, n_nodes: self.itree_nodes@.len() as usize },
            ),
            index + n <= self.itree_nodes@.len() && !span_resolvable(self.itree_nodes@, index as int, n as int, self.data_offset, *deduper, offset_idx@)
                ==> (r matches Err(e) && e is DataSegmentNotFound),
            r matches Ok(t) ==> {
                &&& index + n <= self.itree_nodes@.len()
                &&& span_resolvable(self.itree_nodes@, index as int, n as int, self.data_offset, *deduper, offset_idx@)
                &&& t.virtual_range == virtual_range
                &&& t.nodes@.len() == n
                &&& nodes_wf(t.nodes@)
                &&& forall|i: int, k: int| 0 <= i < n && 0 <= k < 3 ==> spec_anon_from_raw(
                    self.itree_nodes@[index + i].ranges@[k],
                    self.data_offset,
                    offset_idx@,
                ) == Ok::<Interval<AnonIntervalData>, IntervalError>(#[trigger] t.nodes@[i].ranges@[k])
                &&& spec_check(t.nodes@, virtual_range) is Ok
            },
            r matches Err(e) ==> (e is ITreeNotFound || e is DataSegmentNotFound || e is InvalidITree || e is BadITreeNode),
            r is Err ==> !(index + n <= self.itree_nodes@.len() && span_resolvable(
                self.itree_nodes@,
                index as int,
                n as int,
                self.data_offset,
                *deduper,
                offset_idx@,
            ) && exists|t: ITree<AnonIntervalData>| anon_tree_from(*self, index as int, n as int, virtual_range, offset_idx@, t)),
    {
        let n_nodes = self.itree_nodes.len();
        if index.saturating_add(n) > n_nodes {
            return Err(JifError::ITreeNotFound { index, len: n, n_nodes });
        }
        match find_unresolvable(&self.itree_nodes, index, n, self.data_offset, deduper, offset_idx) {
            Some(e) => {
                return Err(e);
            },
            None => {},
        }
        let mut nodes: Vec<ITreeNode<AnonIntervalData>> = Vec::new();
        let mut i: usize = 0;
        while i < n
            invariant
                i <= n,
                index + n <= self.itree_nodes@.len(),
                self.wf(),
                span_resolvable(self.itree_nodes@, index as int, n as int, self.data_offset, *deduper, offset_idx@),
                nodes@.len() == i,
                nodes_wf(nodes@),
                forall|x: int, k: int| 0 <= x < i && 0 <= k < 3 ==> spec_anon_from_raw(
                    self.itree_nodes@[index + x].ranges@[k],
                    self.data_offset,
                    offset_idx@,
                ) == Ok::<Interval<AnonIntervalData>, IntervalError>(#[trigger] nodes@[x].ranges@[k]),
            decreases n - i,
        {
            let raw = &self.itree_nodes[index + i];
            assert(self.itree_nodes@[index + i].wf());
            assert forall|k: int| 0 <= k < 3 implies raw_data_resolvable(#[trigger] raw.ranges@[k], self.data_offset, *deduper, offset_idx@) by {
                assert(raw_data_resolvable(self.itree_nodes@[index + i].ranges@[k], self.data_offset, *deduper, offset_idx@));
            }
            match ITreeNode::from_raw_anon(raw, self.data_offset, deduper, offset_idx) {
                Ok(node) => nodes.push(node),
                Err(itree_node_err) => {
                    proof {
                        let kk = choose|kk: int| 0 <= kk < 3 && itree_node_err == crate::error::ITreeNodeError::Interval {
                            interval_idx: kk as usize,
                            interval_err: IntervalError::ZeroIntervalInAnon,
                        } && spec_anon_from_raw(raw.ranges@[kk], self.data_offset, offset_idx@) is Err
                            && forall|j: int| 0 <= j < kk ==> spec_anon_from_raw(#[trigger] raw.ranges@[j], self.data_offset, offset_idx@) is Ok;
                        assert forall|t: ITree<AnonIntervalData>| !anon_tree_from(*self, index as int, n as int, virtual_range, offset_idx@, t) by {
                            if anon_tree_from(*self, index as int, n as int, virtual_range, offset_idx@, t) {
                                assert(spec_anon_from_raw(self.itree_nodes@[index + i].ranges@[kk], self.data_offset, offset_idx@) == Ok::<Interval<AnonIntervalData>, IntervalError>(t.nodes@[i as int].ranges@[kk]));
                            }
                        }
                    }
                    return Err(JifError::BadITreeNode { itree_node_idx: index + i, itree_node_err });
                },
            }
            i = i + 1;
        }
        let ghost ns = nodes@;
        match ITree::new(nodes, virtual_range) {
            Ok(t) => Ok(t),
            Err(error) => {
                proof {
                    assert forall|t: ITree<AnonIntervalData>| !anon_tree_from(*self, index as int, n as int, virtual_range, offset_idx@, t) by {
                        if anon_tree_from(*self, index as int, n as int, virtual_range, offset_idx@, t) {
                            assert forall|x: int| 0 <= x < t.nodes@.len() implies (#[trigger] t.nodes@[x]).ranges@ == ns[x].ranges@ by {
                                assert(t.nodes@[x].wf() && ns[x].wf());
                                assert forall|k: int| 0 <= k < 3 implies #[trigger] t.nodes@[x].ranges@[k] == ns[x].ranges@[k] by {
                                    assert(spec_anon_from_raw(self.itree_nodes@[index + x].ranges@[k], self.data_offset, offset_idx@) == Ok::<Interval<AnonIntervalData>, IntervalError>(t.nodes@[x].ranges@[k]));
                                }
                                assert(t.nodes@[x].ranges@ =~= ns[x].ranges@);
                            }
                            lemma_check_same_ranges(t.nodes@, ns, virtual_range);
                        }
                    }
                }
                Err(JifError::InvalidITree { virtual_range, error })
            },
        }
    }
}

/// `t` is the reference tree made of the raw nodes `[index; index + n)`
pub open spec fn ref_tree_from(
    jif: JifRaw,
    index: int,
    n: int,
    virtual_range: (u64, u64),
    offset_idx: Seq<((u64, u64), DedupToken)>,
    t: ITree<RefIntervalData>,
) -> bool {
    &&& index + n <= jif.itree_nodes@.len()
    &&& t.virtual_range == virtual_range
    &&& t.nodes@.len() == n
    &&& nodes_wf(t.nodes@)
    &&& forall|i: int, k: int| 0 <= i < n && 0 <= k < 3 ==> #[trigger] t.nodes@[i].ranges@[k] == spec_ref_from_raw(
        jif.itree_nodes@[index + i].ranges@[k],
        jif.data_offset,
        offset_idx,
    )
    &&& spec_check(t.nodes@, virtual_range) is Ok
}

/// `t` is the anonymous tree made of the raw nodes `[index; index + n)`
pub open spec fn anon_tree_from(
    jif: JifRaw,
    index: int,
    n: int,
    virtual_range: (u64, u64),
    offset_idx: Seq<((u64, u64), DedupToken)>,
    t: ITree<AnonIntervalData>,
) -> bool {
    &&& index + n <= jif.itree_nodes@.len()
    &&& t.virtual_range == virtual_range
    &&& t.nodes@.len() == n
    &&& nodes_wf(t.nodes@)
    &&& forall|i: int, k: int| 0 <= i < n && 0 <= k < 3 ==> spec_anon_from_raw(
        jif.itree_nodes@[index + i].ranges@[k],
        jif.data_offset,
        offset_idx,
    ) == Ok::<Interval<AnonIntervalData>, IntervalError>(#[trigger] t.nodes@[i].ranges@[k])
    &&& spec_check(t.nodes@, virtual_range) is Ok
}

/// `p` is the pheader that the raw pheader `raw` of `jif` stands for: a reference pheader
/// when the string table names a path at its path offset, an anonymous one otherwise
pub open spec fn pheader_from(
    jif: JifRaw,
    raw: JifRawPheader,
    offset_idx: Seq<((u64, u64), DedupToken)>,
    p: JifPheader,
) -> bool {
    match p {
        JifPheader::Reference { vaddr_range, itree, prot, ref_path, ref_offset } => {
            &&& string_at(jif.strings_backing@, raw.pathname_offset as int) == Some(ref_path@)
            &&& vaddr_range == (raw.vbegin, raw.vend)
            &&& prot == raw.prot
            &&& ref_offset == raw.ref_offset
            &&& ref_tree_from(jif, raw.itree_idx as int, raw.itree_n_nodes as int, (raw.vbegin, raw.vend), offset_idx, itree)
        },
        JifPheader::Anonymous { vaddr_range, itree, prot } => {
            &&& string_at(jif.strings_backing@, raw.pathname_offset as int) is None
            &&& vaddr_range == (raw.vbegin, raw.vend)
            &&& prot == raw.prot
            &&& anon_tree_from(jif, raw.itree_idx as int, raw.itree_n_nodes as int, (raw.vbegin, raw.vend), offset_idx, itree)
        },
    }
}

/// The data of a raw interval can be found: where it holds data, its data range lies in the
/// data section and names a segment of the right length among the contents `dv` of a deduper,
/// through the tokens `idx`
pub open spec fn slot_resolvable(raw: RawInterval, data_offset: u64, dv: Seq<Option<Seq<u8>>>, idx: Seq<((u64, u64), DedupToken)>) -> bool {
    raw.spec_is_data() ==> {
        &&& raw.start <= raw.end
        &&& data_offset <= raw.offset
        &&& raw.offset + (raw.end - raw.start) <= u64::MAX
        &&& match spec_lookup(idx, raw_data_range(raw, data_offset)) {
            Some(tok) => 0 <= tok.index() < dv.len() && dv[tok.index()] is Some && dv[tok.index()]->Some_0.len() == raw.end - raw.start,
            None => false,
        }
    }
}

/// The raw pheader `raw` of `jif` can be materialized with the deduper contents `dv` and the
/// tokens `idx`: its nodes are in the node table, the data of each of their intervals can be
/// found, and they make a tree (a reference tree where the string table names a path at its
/// path offset, an anonymous one otherwise)
pub open spec fn pheader_materializes(jif: JifRaw, raw: JifRawPheader, dv: Seq<Option<Seq<u8>>>, idx: Seq<((u64, u64), DedupToken)>) -> bool {
    let index = raw.itree_idx as int;
    let n = raw.itree_n_nodes as int;
    let vr = (raw.vbegin, raw.vend);
    &&& index + n <= jif.itree_nodes@.len()
    &&& forall|j: int, k: int|
        index <= j < index + n && 0 <= k < 3 ==> slot_resolvable(#[trigger] jif.itree_nodes@[j].ranges@[k], jif.data_offset, dv, idx)
    &&& if string_at(jif.strings_backing@, raw.pathname_offset as int) is Some {
        exists|t: ITree<RefIntervalData>| ref_tree_from(jif, index, n, vr, idx, t)
    } else {
        exists|t: ITree<AnonIntervalData>| anon_tree_from(jif, index, n, vr, idx, t)
    }
}

/// Whether a raw pheader materializes does not depend on the data segments
pub proof fn lemma_materializes_data_free(a: JifRaw, b: JifRaw, raw: JifRawPheader, dv: Seq<Option<Seq<u8>>>, idx: Seq<((u64, u64), DedupToken)>)
    requires
        a.strings_backing == b.strings_backing,
        a.itree_nodes == b.itree_nodes,
        a.data_offset == b.data_offset,
    ensures
        pheader_materializes(a, raw, dv, idx) == pheader_materializes(b, raw, dv, idx),
{
    let index = raw.itree_idx as int;
    let n = raw.itree_n_nodes as int;
    let vr = (raw.vbegin, raw.vend);
    assert forall|t: ITree<RefIntervalData>| ref_tree_from(a, index, n, vr, idx, t) == ref_tree_from(b, index, n, vr, idx, t) by {}
    assert forall|t: ITree<AnonIntervalData>| anon_tree_from(a, index, n, vr, idx, t) == anon_tree_from(b, index, n, vr, idx, t) by {}
}

impl JifPheader {
    /// Construct a materialized JIF pheader from its raw counterpart; it fails exactly where the raw pheader
    /// does not materialize with the given deduper and tokens
    pub fn from_raw(
        jif: &JifRaw,
        raw: &JifRawPheader,
        deduper: &Deduper,
        offset_idx: &Vec<((u64, u64), DedupToken)>,
    ) -> (r: JifResult<Self>)
        requires
            jif.wf(),
        ensures
            r matches Ok(p) ==> pheader_from(*jif, *raw, offset_idx@, p),
            r matches Err(e) ==> (e is ITreeNotFound || e is DataSegmentNotFound || e is InvalidITree || e is BadITreeNode),
            r is Ok <==> pheader_materializes(*jif, *raw, deduper@, offset_idx@),
    {
        let ghost index = raw.itree_idx as int;
        let ghost n = raw.itree_n_nodes as int;
        let ghost spans = span_resolvable(jif.itree_nodes@, index, n, jif.data_offset, *deduper, offset_idx@);
        let ghost slots = forall|j: int, k: int|
            index <= j < index + n && 0 <= k < 3 ==> slot_resolvable(#[trigger] jif.itree_nodes@[j].ranges@[k], jif.data_offset, deduper@, offset_idx@);
        proof {
            assert(spans == slots) by {
                if spans {
                    assert forall|j: int, k: int| index <= j < index + n && 0 <= k < 3 implies slot_resolvable(
                        #[trigger] jif.itree_nodes@[j].ranges@[k],
                        jif.data_offset,
                        deduper@,
                        offset_idx@,
                    ) by {
                        assert(raw_data_resolvable(jif.itree_nodes@[j].ranges@[k], jif.data_offset, *deduper, offset_idx@));
                    }
                }
                if slots {
                    assert forall|j: int, k: int| index <= j < index + n && 0 <= k < 3 implies raw_data_resolvable(
                        #[trigger] jif.itree_nodes@[j].ranges@[k],
                        jif.data_offset,
                        *deduper,
                        offset_idx@,
                    ) by {
                        assert(slot_resolvable(jif.itree_nodes@[j].ranges@[k], jif.data_offset, deduper@, offset_idx@));
                    }
                }
            }
        }
        let vaddr_range = (raw.vbegin, raw.vend);
        match jif.string_at_offset(raw.pathname_offset as usize) {
            Some(path) => {
                match jif.get_ref_itree(raw.itree_idx as usize, raw.itree_n_nodes as usize, raw.virtual_range(), deduper, offset_idx) {
                    Ok(itree) => {
                        let p = JifPheader::Reference {
                            vaddr_range,
                            ref_path: path.to_owned(),
                            ref_offset: raw.ref_offset,
                            itree,
                            prot: raw.prot,
                        };
                        assert(ref_tree_from(*jif, index, n, vaddr_range, offset_idx@, itree));
                        Ok(p)
                    },
                    Err(e) => Err(e),
                }
            },
            None => {
                match jif.get_anon_itree(raw.itree_idx as usize, raw.itree_n_nodes as usize, raw.virtual_range(), deduper, offset_idx) {
                    Ok(itree) => {
                        assert(anon_tree_from(*jif, index, n, vaddr_range, offset_idx@, itree));
                        Ok(JifPheader::Anonymous { vaddr_range, itree, prot: raw.prot })
                    },
                    Err(e) => Err(e),
                }
            },
        }
    }
}

/// Every raw pheader of `raw` materializes with the deduper that its data segments make
pub open spec fn materializes(raw: JifRaw) -> bool {
    forall|k: int| 0 <= k < raw.pheaders@.len() ==> pheader_materializes(
        raw,
        #[trigger] raw.pheaders@[k],
        dedup_of(raw.data_segments@).0,
        dedup_of(raw.data_segments@).1,
    )
}

impl Jif {
    /// Materialize a [`Jif`] from its raw counterpart: the data segments go into a deduper and
    /// each raw pheader becomes the pheader it stands for; it fails exactly where some raw pheader
    /// does not materialize with the deduper that the data segments make
    #[verifier::loop_isolation(false)]
    pub fn from_raw(raw: JifRaw) -> (r: JifResult<Self>)
        requires
            raw.wf(),
        ensures
            r matches Ok(j) ==> {
                &&& j.ord_chunks == raw.ord_chunks
                &&& j.pheaders@.len() == raw.pheaders@.len()
                &&& exists|idx: Seq<((u64, u64), DedupToken)>| #[trigger] materialized_from(raw, j, idx)
            },
            r is Ok <==> materializes(raw),
    {
        let ghost orig = raw;
        let mut raw = raw;
        let data_map = raw.take_data();
        let (deduper, offset_index) = Deduper::from_data_map(data_map);
        let ghost stripped = raw;
        let mut pheaders: Vec<JifPheader> = Vec::new();
        let mut i: usize = 0;
        while i < raw.pheaders.len()
            invariant
                i <= raw.pheaders@.len(),
                raw == stripped,
                raw.wf(),
                pheaders@.len() == i,
                forall|x: int| 0 <= x < i ==> pheader_from(raw, #[trigger] raw.pheaders@[x], offset_index@, pheaders@[x]),
                deduper@ == dedup_of(orig.data_segments@).0,
                offset_index@ == dedup_of(orig.data_segments@).1,
                raw.strings_backing == orig.strings_backing,
                raw.itree_nodes == orig.itree_nodes,
                raw.data_offset == orig.data_offset,
                raw.pheaders == orig.pheaders,
                forall|x: int| 0 <= x < i ==> pheader_materializes(raw, #[trigger] raw.pheaders@[x], deduper@, offset_index@),
            decreases raw.pheaders@.len() - i,
        {
            match JifPheader::from_raw(&raw, &raw.pheaders[i], &deduper, &offset_index) {
                Ok(p) => pheaders.push(p),
                Err(e) => {
                    proof {
                        lemma_materializes_data_free(raw, orig, raw.pheaders@[i as int], deduper@, offset_index@);
                        assert(!pheader_materializes(orig, orig.pheaders@[i as int], dedup_of(orig.data_segments@).0, dedup_of(orig.data_segments@).1));
                    }
                    return Err(e);
                },
            }
            i = i + 1;
        }
        proof {
            assert forall|k: int| 0 <= k < orig.pheaders@.len() implies pheader_materializes(
                orig,
                #[trigger] orig.pheaders@[k],
                dedup_of(orig.data_segments@).0,
                dedup_of(orig.data_segments@).1,
            ) by {
                lemma_materializes_data_free(raw, orig, raw.pheaders@[k], deduper@, offset_index@);
                assert(pheader_materializes(raw, raw.pheaders@[k], deduper@, offset_index@));
            }
        }
        proof {
            assert forall|x: int| 0 <= x < orig.pheaders@.len() implies pheader_from(orig, #[trigger] orig.pheaders@[x], offset_index@, pheaders@[x]) by {
                lemma_pheader_from_data_free(raw, orig, raw.pheaders@[x], offset_index@, pheaders@[x]);
            }
        }
        let j = Jif { pheaders, ord_chunks: raw.ord_chunks, deduper };
        assert(materialized_from(orig, j, offset_index@));
        Ok(j)
    }
}

/// `j` is what materializing `raw` gives, `idx` naming the token of each data segment
pub open spec fn materialized_from(raw: JifRaw, j: Jif, idx: Seq<((u64, u64), DedupToken)>) -> bool {
    &&& idx.len() == raw.data_segments@.len()
    &&& forall|i: int| 0 <= i < idx.len() ==> (#[trigger] idx[i]).0 == raw.data_segments@[i].0
        && j.deduper.has_token(idx[i].1) && j.deduper.data_of(idx[i].1) == raw.data_segments@[i].1@
    &&& forall|i: int| 0 <= i < raw.pheaders@.len() ==> pheader_from(
        raw,
        #[trigger] raw.pheaders@[i],
        idx,
        j.pheaders@[i],
    )
}

/// Whether a raw pheader stands for a pheader does not depend on the data segments
pub proof fn lemma_pheader_from_data_free(a: JifRaw, b: JifRaw, raw: JifRawPheader, idx: Seq<((u64, u64), DedupToken)>, p: JifPheader)
    requires
        a.strings_backing == b.strings_backing,
        a.itree_nodes == b.itree_nodes,
        a.data_offset == b.data_offset,
        pheader_from(a, raw, idx, p),
    ensures
        pheader_from(b, raw, idx, p),
{
}

} // verus!
