//! Digests of the pages of a JIF, to compare JIFs: the hashes of its private pages, the file
//! pages it shares, and the number of zero pages

use vstd::prelude::*;
use sha2::{Digest, Sha256};
use crate::itree::interval::DataSource;
use crate::jif::{Jif, all_private_pages, all_shared_regions, first_page, refs_ok, spec_find_pheader};
use crate::ord::OrdChunk;
use crate::pheader::JifPheader;
use crate::utils::{PAGE_SIZE, bytes_eq};

verus! {

/// The SHA-256 hash of some bytes
pub uninterp spec fn sha256_of(data: Seq<u8>) -> Seq<u8>;

/// Hash a page with SHA-256 (`sha2::Sha256::digest`): the result is the hash of the bytes
#[verifier::external_body]
fn sha256_page(page: &[u8]) -> (r: [u8; 32])
    ensures
        r@ == sha256_of(page@),
{
    Sha256::digest(page).into()
}

/// The elements of `s`, each once, in order of first appearance
pub open spec fn dedup_seq<A>(s: Seq<A>) -> Seq<A>
    decreases s.len(),
{
    if s.len() == 0 {
        seq![]
    } else {
        let d = dedup_seq(s.drop_last());
        if d.contains(s.last()) {
            d
        } else {
            d.push(s.last())
        }
    }
}

/// The pages of a region of a file: the file, and each page offset from `start` below `end`
pub open spec fn region_pages(r: (Seq<char>, int, int)) -> Seq<(Seq<char>, int)> {
    let n: int = if r.2 > r.1 {
        (r.2 - r.1 + PAGE_SIZE - 1) / (PAGE_SIZE as int)
    } else {
        0
    };
    Seq::new(n as nat, |k: int| (r.0, r.1 + k * (PAGE_SIZE as int)))
}

/// The pages of the regions, one region after the other
pub open spec fn regions_pages(rs: Seq<(Seq<char>, int, int)>) -> Seq<(Seq<char>, int)>
    decreases rs.len(),
{
    if rs.len() == 0 {
        seq![]
    } else {
        regions_pages(rs.drop_last()) + region_pages(rs.last())
    }
}

/// The pages of the ordering chunks, one chunk after the other
pub open spec fn chunks_pages(cs: Seq<OrdChunk>) -> Seq<u64>
    decreases cs.len(),
{
    if cs.len() == 0 {
        seq![]
    } else {
        chunks_pages(cs.drop_last()) + cs.last().spec_pages()
    }
}

/// The file and offset backing a shared page
pub open spec fn shared_page_of(jif: Jif, page: u64) -> (Seq<char>, int) {
    let p = jif.pheaders@[spec_find_pheader(jif.pheaders@, page, 0)->Some_0];
    (p->ref_path@, p->ref_offset + (page - p.spec_range().0))
}

/// The digest of pages of the ordering section: the hashes of the private pages (if included),
/// the file pages of the shared pages (if included), and the number of zero pages; pages the
/// JIF does not map are left out
pub open spec fn ord_digest(jif: Jif, inc_private: bool, inc_shared: bool, pages: Seq<u64>) -> (
    Seq<Seq<u8>>,
    Seq<(Seq<char>, int)>,
    int,
)
    decreases pages.len(),
{
    if pages.len() == 0 {
        (seq![], seq![], 0)
    } else {
        let d = ord_digest(jif, inc_private, inc_shared, pages.drop_last());
        let page = pages.last();
        match jif.spec_resolve(page) {
            None => d,
            Some(l) => match l.source {
                DataSource::Zero => (d.0, d.1, d.2 + 1),
                DataSource::Shared => if inc_shared {
                    (d.0, d.1.push(shared_page_of(jif, page)), d.2)
                } else {
                    d
                },
                DataSource::Private => if inc_private {
                    (d.0.push(sha256_of(first_page(jif.pheaders@, page, jif.deduper, 0)->Some_0)), d.1, d.2)
                } else {
                    d
                },
            },
        }
    }
}

/// What the ordering digest needs of a page: a private page has a page of data, a shared page's
/// file offset fits a `u64`
pub open spec fn digest_page_ok(jif: Jif, inc_private: bool, inc_shared: bool, page: u64) -> bool {
    match jif.spec_resolve(page) {
        Some(l) => {
            &&& (l.source == DataSource::Private && inc_private) ==> (first_page(jif.pheaders@, page, jif.deduper, 0) matches Some(d)
                && d.len() == PAGE_SIZE)
            &&& (l.source == DataSource::Shared && inc_shared) ==> {
                let p = jif.pheaders@[spec_find_pheader(jif.pheaders@, page, 0)->Some_0];
                p is Reference ==> p->ref_offset + (page - p.spec_range().0) <= u64::MAX
            }
        },
        None => true,
    }
}

/// A digest of a JIF
#[derive(Debug, Default)]
pub struct JifDigest {
    /// Hash of each private page (each once)
    pub private_pages: Vec<[u8; 32]>,
    /// File and offset of each shared page (each once)
    pub shared_pages: Vec<(String, u64)>,
    /// Number of zero pages
    pub zero_pages: usize,
}

/// Add a hash unless it is there already
fn push_hash(v: &mut Vec<[u8; 32]>, h: [u8; 32])
    ensures
        final(v)@.map_values(|x: [u8; 32]| x@) == if old(v)@.map_values(|x: [u8; 32]| x@).contains(h@) {
            old(v)@.map_values(|x: [u8; 32]| x@)
        } else {
            old(v)@.map_values(|x: [u8; 32]| x@).push(h@)
        },
{
    let ghost before = v@.map_values(|x: [u8; 32]| x@);
    let mut i: usize = 0;
    while i < v.len()
        invariant
            i <= v@.len(),
            before == v@.map_values(|x: [u8; 32]| x@),
            forall|k: int| 0 <= k < i ==> before[k] != h@,
        decreases v@.len() - i,
    {
        assert(before[i as int] == v@[i as int]@);
        if bytes_eq(v[i].as_slice(), h.as_slice()) {
            assert(before.contains(h@)) by {
                assert(before[i as int] == h@);
            }
            return;
        }
        i = i + 1;
    }
    assert(!before.contains(h@));
    v.push(h);
    assert(v@.map_values(|x: [u8; 32]| x@) =~= before.push(h@));
}

/// Add a file page unless it is there already
fn push_file_page(v: &mut Vec<(String, u64)>, path: &str, offset: u64)
    ensures
        final(v)@.map_values(|x: (String, u64)| (x.0@, x.1 as int)) == if old(v)@.map_values(
            |x: (String, u64)| (x.0@, x.1 as int),
        ).contains((path@, offset as int)) {
            old(v)@.map_values(|x: (String, u64)| (x.0@, x.1 as int))
        } else {
            old(v)@.map_values(|x: (String, u64)| (x.0@, x.1 as int)).push((path@, offset as int))
        },
{
    let ghost before = v@.map_values(|x: (String, u64)| (x.0@, x.1 as int));
    let mut i: usize = 0;
    while i < v.len()
        invariant
            i <= v@.len(),
            before == v@.map_values(|x: (String, u64)| (x.0@, x.1 as int)),
            forall|k: int| 0 <= k < i ==> before[k] != (path@, offset as int),
        decreases v@.len() - i,
    {
        assert(before[i as int] == (v@[i as int].0@, v@[i as int].1 as int));
        if v[i].1 == offset && crate::pheader::str_eq(v[i].0.as_str(), path) {
            assert(before.contains((path@, offset as int))) by {
                assert(before[i as int] == (path@, offset as int));
            }
            return;
        }
        i = i + 1;
    }
    assert(!before.contains((path@, offset as int)));
    v.push((path.to_owned(), offset));
    assert(v@.map_values(|x: (String, u64)| (x.0@, x.1 as int)) =~= before.push((path@, offset as int)));
}

/// Dedup of one more element
proof fn lemma_dedup_push<A>(s: Seq<A>, x: A)
    ensures
        dedup_seq(s.push(x)) == if dedup_seq(s).contains(x) {
            dedup_seq(s)
        } else {
            dedup_seq(s).push(x)
        },
{
    assert(s.push(x).drop_last() =~= s);
}

/// Build the set of hashes of the private pages
pub fn build_private_pages_hash_set(jif: &Jif) -> (r: Vec<[u8; 32]>)
    requires
        forall|i: int| 0 <= i < jif.pheaders@.len() ==> match #[trigger] jif.pheaders@[i] {
            JifPheader::Anonymous { itree, .. } => crate::itree::tree::nodes_wf(itree.nodes@) && crate::itree::tree::refs_held(
                itree.in_order(),
                jif.deduper,
            ),
            JifPheader::Reference { itree, .. } => crate::itree::tree::nodes_wf(itree.nodes@) && crate::itree::tree::refs_held(
                itree.in_order(),
                jif.deduper,
            ),
        },
    ensures
        r@.map_values(|x: [u8; 32]| x@) == dedup_seq(
            all_private_pages(jif.pheaders@, jif.deduper).map_values(|p: Seq<u8>| sha256_of(p)),
        ),
{
    let pages = jif.iter_private_pages();
    let ghost pv = all_private_pages(jif.pheaders@, jif.deduper);
    let ghost hs = pv.map_values(|p: Seq<u8>| sha256_of(p));
    let mut set: Vec<[u8; 32]> = Vec::new();
    let mut i: usize = 0;
    assert(hs.take(0) =~= Seq::<Seq<u8>>::empty());
    while i < pages.len()
        invariant
            i <= pages@.len(),
            pages@.map_values(|d: &[u8]| d@) == pv,
            hs == pv.map_values(|p: Seq<u8>| sha256_of(p)),
            set@.map_values(|x: [u8; 32]| x@) == dedup_seq(hs.take(i as int)),
        decreases pages@.len() - i,
    {
        assert(pages@.map_values(|d: &[u8]| d@)[i as int] == pages@[i as int]@);
        let h = sha256_page(pages[i]);
        proof {
            assert(hs.take(i + 1) =~= hs.take(i as int).push(h@));
            lemma_dedup_push(hs.take(i as int), h@);
        }
        push_hash(&mut set, h);
        i = i + 1;
    }
    assert(hs.take(i as int) =~= hs);
    set
}

/// Build the set of the file pages of the shared regions
pub fn build_shared_pages_set(jif: &Jif) -> (r: Vec<(String, u64)>)
    requires
        forall|i: int| 0 <= i < jif.pheaders@.len() ==> crate::jif::shared_ok(#[trigger] jif.pheaders@[i]),
    ensures
        r@.map_values(|x: (String, u64)| (x.0@, x.1 as int)) == dedup_seq(regions_pages(all_shared_regions(jif.pheaders@))),
{
    let regions = jif.iter_shared_regions();
    let ghost rv = all_shared_regions(jif.pheaders@);
    let mut set: Vec<(String, u64)> = Vec::new();
    let mut i: usize = 0;
    assert(rv.take(0) =~= Seq::<(Seq<char>, int, int)>::empty());
    while i < regions.len()
        invariant
            i <= regions@.len(),
            regions@.map_values(|x: (&str, u64, u64)| (x.0@, x.1 as int, x.2 as int)) == rv,
            set@.map_values(|x: (String, u64)| (x.0@, x.1 as int)) == dedup_seq(regions_pages(rv.take(i as int))),
        decreases regions@.len() - i,
    {
        let (path, start, end) = regions[i];
        let ghost reg = rv[i as int];
        assert(reg == (path@, start as int, end as int));
        let ghost before = regions_pages(rv.take(i as int));
        proof {
            assert(rv.take(i + 1).drop_last() =~= rv.take(i as int));
            assert(rv.take(i + 1).last() == reg);
        }
        let mut addr = start;
        let mut k: u64 = 0;
        while addr < end
            invariant
                start <= addr,
                addr < end ==> addr == start + k * 4096,
                reg == (path@, start as int, end as int),
                addr < end ==> k < region_pages(reg).len(),
                addr >= end ==> k == region_pages(reg).len(),
                set@.map_values(|x: (String, u64)| (x.0@, x.1 as int)) == dedup_seq(before + region_pages(reg).take(k as int)),
            decreases end - addr,
        {
            proof {
                lemma_region_pages_step(reg, k as int);
                assert((before + region_pages(reg).take(k + 1)) =~= (before + region_pages(reg).take(k as int)).push(
                    (path@, addr as int),
                ));
                lemma_dedup_push(before + region_pages(reg).take(k as int), (path@, addr as int));
            }
            push_file_page(&mut set, path, addr);
            if end - addr <= 0x1000 {
                proof {
                    lemma_region_pages_last(reg, k as int);
                }
                addr = end;
            } else {
                addr = addr + 0x1000;
            }
            k = k + 1;
        }
        proof {
            assert(region_pages(reg).take(k as int) =~= region_pages(reg));
        }
        i = i + 1;
    }
    assert(rv.take(i as int) =~= rv);
    set
}

/// The page at `k` of a region is `start + k` pages, and the next one is in the region when
/// there is room for it
proof fn lemma_region_pages_step(r: (Seq<char>, int, int), k: int)
    requires
        0 <= k < region_pages(r).len(),
    ensures
        region_pages(r)[k] == (r.0, r.1 + k * 4096),
        r.1 + k * 4096 < r.2,
        r.1 + (k + 1) * 4096 < r.2 ==> k + 1 < region_pages(r).len(),
        r.1 + (k + 1) * 4096 >= r.2 ==> k + 1 == region_pages(r).len(),
{
    let n = (r.2 - r.1 + 4095) / 4096;
    assert(r.1 + k * 4096 < r.2 && (r.1 + (k + 1) * 4096 < r.2 ==> k + 1 < n) && (r.1 + (k + 1) * 4096 >= r.2 ==> k
        + 1 == n)) by (nonlinear_arith)
        requires
            r.2 > r.1,
            n == (r.2 - r.1 + 4095) / 4096,
            0 <= k < n,
    ;
}

/// The last page of a region
proof fn lemma_region_pages_last(r: (Seq<char>, int, int), k: int)
    requires
        0 <= k < region_pages(r).len(),
        r.2 - (r.1 + k * 4096) <= 4096,
    ensures
        k + 1 == region_pages(r).len(),
{
    lemma_region_pages_step(r, k);
}

/// An anonymous pheader never resolves an address to its file
proof fn lemma_anon_not_shared(p: JifPheader, addr: u64)
    requires
        p is Anonymous,
    ensures
        p.spec_resolve(addr).source != DataSource::Shared,
{
}

/// The ordering digest of one more page
proof fn lemma_ord_digest_push(jif: Jif, ip: bool, is: bool, pages: Seq<u64>, page: u64)
    ensures
        ord_digest(jif, ip, is, pages.push(page)) == ({
            let d = ord_digest(jif, ip, is, pages);
            match jif.spec_resolve(page) {
                None => d,
                Some(l) => match l.source {
                    DataSource::Zero => (d.0, d.1, d.2 + 1),
                    DataSource::Shared => if is {
                        (d.0, d.1.push(shared_page_of(jif, page)), d.2)
                    } else {
                        d
                    },
                    DataSource::Private => if ip {
                        (d.0.push(sha256_of(first_page(jif.pheaders@, page, jif.deduper, 0)->Some_0)), d.1, d.2)
                    } else {
                        d
                    },
                },
            }
        }),
{
    assert(pages.push(page).drop_last() =~= pages);
}

/// The zero pages of a digest are no more than its pages
proof fn lemma_ord_digest_zero(jif: Jif, ip: bool, is: bool, pages: Seq<u64>)
    ensures
        0 <= ord_digest(jif, ip, is, pages).2 <= pages.len(),
    decreases pages.len(),
{
    if pages.len() > 0 {
        lemma_ord_digest_zero(jif, ip, is, pages.drop_last());
    }
}

/// The pages of the first chunks, then those of the next
proof fn lemma_chunks_pages_step(cs: Seq<OrdChunk>, i: int)
    requires
        0 <= i < cs.len(),
    ensures
        chunks_pages(cs.take(i + 1)) == chunks_pages(cs.take(i)) + cs[i].spec_pages(),
{
    assert(cs.take(i + 1).drop_last() =~= cs.take(i));
    assert(cs.take(i + 1).last() == cs[i]);
}

/// The pages of the first chunks are no more than those of all
proof fn lemma_chunks_pages_len(cs: Seq<OrdChunk>, i: int)
    requires
        0 <= i <= cs.len(),
    ensures
        chunks_pages(cs.take(i)).len() <= chunks_pages(cs).len(),
    decreases cs.len() - i,
{
    if i < cs.len() {
        lemma_chunks_pages_step(cs, i);
        lemma_chunks_pages_len(cs, i + 1);
    } else {
        assert(cs.take(i) =~= cs);
    }
}

/// Build a digest of the pages of the ordering section: the hashes of its private pages (if
/// included), the file pages of its shared pages (if included), and the number of its zero
/// pages; pages the JIF does not map are left out
pub fn build_ordering_digest(jif: &Jif, include_private: bool, include_shared: bool) -> (r: JifDigest)
    requires
        jif.wf(),
        forall|i: int| 0 <= i < jif.pheaders@.len() ==> refs_ok(#[trigger] jif.pheaders@[i], jif.deduper),
        forall|k: int| 0 <= k < jif.ord_chunks@.len() ==> (#[trigger] jif.ord_chunks@[k]).spec_last_page_addr() <= u64::MAX,
        chunks_pages(jif.ord_chunks@).len() <= usize::MAX,
        forall|c: int, k: int|
            0 <= c < jif.ord_chunks@.len() && 0 <= k < jif.ord_chunks@[c].spec_pages().len() ==> digest_page_ok(
                *jif,
                include_private,
                include_shared,
                #[trigger] jif.ord_chunks@[c].spec_pages()[k],
            ),
    ensures
        ({
            let d = ord_digest(*jif, include_private, include_shared, chunks_pages(jif.ord_chunks@));
            &&& r.private_pages@.map_values(|x: [u8; 32]| x@) == dedup_seq(d.0)
            &&& r.shared_pages@.map_values(|x: (String, u64)| (x.0@, x.1 as int)) == dedup_seq(d.1)
            &&& r.zero_pages == d.2
        }),
{
    let ghost cs = jif.ord_chunks@;
    let mut private: Vec<[u8; 32]> = Vec::new();
    let mut shared: Vec<(String, u64)> = Vec::new();
    let mut zero_pages: usize = 0;
    let mut ci: usize = 0;
    assert(cs.take(0) =~= Seq::<OrdChunk>::empty());
    while ci < jif.ord_chunks.len()
        invariant
            ci <= cs.len(),
            cs == jif.ord_chunks@,
            jif.wf(),
            forall|i: int| 0 <= i < jif.pheaders@.len() ==> refs_ok(#[trigger] jif.pheaders@[i], jif.deduper),
            forall|k: int| 0 <= k < cs.len() ==> (#[trigger] cs[k]).spec_last_page_addr() <= u64::MAX,
            chunks_pages(cs).len() <= usize::MAX,
            forall|c: int, k: int|
                0 <= c < cs.len() && 0 <= k < cs[c].spec_pages().len() ==> digest_page_ok(
                    *jif,
                    include_private,
                    include_shared,
                    #[trigger] cs[c].spec_pages()[k],
                ),
            ({
                let d = ord_digest(*jif, include_private, include_shared, chunks_pages(cs.take(ci as int)));
                &&& private@.map_values(|x: [u8; 32]| x@) == dedup_seq(d.0)
                &&& shared@.map_values(|x: (String, u64)| (x.0@, x.1 as int)) == dedup_seq(d.1)
                &&& zero_pages == d.2
            }),
        decreases cs.len() - ci,
    {
        let chunk = &jif.ord_chunks[ci];
        let pages = chunk.pages();
        let ghost before = chunks_pages(cs.take(ci as int));
        proof {
            lemma_chunks_pages_step(cs, ci as int);
            lemma_chunks_pages_len(cs, ci + 1);
        }
        let mut pi: usize = 0;
        assert(pages@.take(0) =~= Seq::<u64>::empty());
        assert(before + pages@.take(0) =~= before);
        while pi < pages.len()
            invariant
                pi <= pages@.len(),
                ci < cs.len(),
                cs == jif.ord_chunks@,
                pages@ == cs[ci as int].spec_pages(),
                before + pages@ == chunks_pages(cs.take(ci + 1)),
                chunks_pages(cs.take(ci + 1)).len() <= usize::MAX,
                jif.wf(),
                forall|i: int| 0 <= i < jif.pheaders@.len() ==> refs_ok(#[trigger] jif.pheaders@[i], jif.deduper),
                forall|c: int, k: int|
                    0 <= c < cs.len() && 0 <= k < cs[c].spec_pages().len() ==> digest_page_ok(
                        *jif,
                        include_private,
                        include_shared,
                        #[trigger] cs[c].spec_pages()[k],
                    ),
                ({
                    let d = ord_digest(*jif, include_private, include_shared, before + pages@.take(pi as int));
                    &&& private@.map_values(|x: [u8; 32]| x@) == dedup_seq(d.0)
                    &&& shared@.map_values(|x: (String, u64)| (x.0@, x.1 as int)) == dedup_seq(d.1)
                    &&& zero_pages == d.2
                }),
            decreases pages@.len() - pi,
        {
            let page = pages[pi];
            let ghost sofar = before + pages@.take(pi as int);
            proof {
                assert(before + pages@.take(pi + 1) =~= sofar.push(page));
                lemma_ord_digest_push(*jif, include_private, include_shared, sofar, page);
                assert(digest_page_ok(*jif, include_private, include_shared, cs[ci as int].spec_pages()[pi as int]));
                lemma_ord_digest_zero(*jif, include_private, include_shared, sofar);
                assert(sofar.len() < (before + pages@).len());
            }
            match jif.resolve(page) {
                None => {},
                Some(interval) => {
                    match interval.source {
                        DataSource::Zero => {
                            zero_pages = zero_pages + 1;
                        },
                        DataSource::Shared => {
                            if include_shared {
                                let ghost idx = spec_find_pheader(jif.pheaders@, page, 0)->Some_0;
                                proof {
                                    crate::jif::lemma_find_pheader_in(jif.pheaders@, page, 0);
                                    if jif.pheaders@[idx] is Anonymous {
                                        lemma_anon_not_shared(jif.pheaders@[idx], page);
                                    }
                                }
                                match jif.mapping_pheader(page) {
                                    Some(ph) => {
                                        match ph {
                                            JifPheader::Reference { ref_path, ref_offset, vaddr_range, .. } => {
                                                let offset = *ref_offset + (page - vaddr_range.0);
                                                let ghost prev = sofar;
                                                push_file_page(&mut shared, ref_path.as_str(), offset);
                                                proof {
                                                    lemma_dedup_push(ord_digest(*jif, include_private, include_shared, prev).1, shared_page_of(*jif, page));
                                                }
                                            },
                                            JifPheader::Anonymous { .. } => {},
                                        }
                                    },
                                    None => {},
                                }
                            }
                        },
                        DataSource::Private => {
                            if include_private {
                                match jif.resolve_data(page) {
                                    Some(data) => {
                                        let h = sha256_page(data);
                                        push_hash(&mut private, h);
                                        proof {
                                            lemma_dedup_push(
                                                ord_digest(*jif, include_private, include_shared, sofar).0,
                                                sha256_of(first_page(jif.pheaders@, page, jif.deduper, 0)->Some_0),
                                            );
                                        }
                                    },
                                    None => {},
                                }
                            }
                        },
                    }
                },
            }
            pi = pi + 1;
        }
        proof {
            assert(pages@.take(pi as int) =~= pages@);
        }
        ci = ci + 1;
    }
    assert(cs.take(ci as int) =~= cs);
    JifDigest { private_pages: private, shared_pages: shared, zero_pages }
}

/// The file pages of a digest, as (path, offset)
pub open spec fn file_pages(d: JifDigest) -> Seq<(Seq<char>, int)> {
    d.shared_pages@.map_values(|x: (String, u64)| (x.0@, x.1 as int))
}

/// Whether a digest other than the one at `i` holds the file page `p`
pub open spec fn held_elsewhere(ds: Seq<JifDigest>, i: int, p: (Seq<char>, int)) -> bool {
    exists|j: int| 0 <= j < ds.len() && j != i && #[trigger] file_pages(ds[j]).contains(p)
}

/// Number of the file pages in `s` that no digest other than the one at `i` holds
pub open spec fn n_unique_shared(ds: Seq<JifDigest>, i: int, s: Seq<(Seq<char>, int)>) -> nat
    decreases s.len(),
{
    if s.len() == 0 {
        0
    } else {
        n_unique_shared(ds, i, s.drop_last()) + if held_elsewhere(ds, i, s.last()) {
            0nat
        } else {
            1nat
        }
    }
}

/// Whether a digest holds the file page (`path`, `offset`)
fn holds_file_page(d: &JifDigest, path: &str, offset: u64) -> (r: bool)
    ensures
        r == file_pages(*d).contains((path@, offset as int)),
{
    let ghost fp = file_pages(*d);
    let mut k: usize = 0;
    while k < d.shared_pages.len()
        invariant
            k <= d.shared_pages@.len(),
            fp == file_pages(*d),
            forall|m: int| 0 <= m < k ==> fp[m] != (path@, offset as int),
        decreases d.shared_pages@.len() - k,
    {
        assert(fp[k as int] == (d.shared_pages@[k as int].0@, d.shared_pages@[k as int].1 as int));
        if d.shared_pages[k].1 == offset && crate::pheader::str_eq(d.shared_pages[k].0.as_str(), path) {
            assert(fp[k as int] == (path@, offset as int));
            return true;
        }
        k = k + 1;
    }
    false
}

/// Whether a digest other than the one at `i` holds the file page (`path`, `offset`)
fn held_by_another(ds: &Vec<JifDigest>, i: usize, path: &str, offset: u64) -> (r: bool)
    ensures
        r == held_elsewhere(ds@, i as int, (path@, offset as int)),
{
    let mut j: usize = 0;
    while j < ds.len()
        invariant
            j <= ds@.len(),
            forall|m: int| 0 <= m < j && m != i ==> !(#[trigger] file_pages(ds@[m])).contains((path@, offset as int)),
        decreases ds@.len() - j,
    {
        if j != i && holds_file_page(&ds[j], path, offset) {
            return true;
        }
        j = j + 1;
    }
    false
}

/// Split the file pages of the digest at `i` into those that no other digest holds (first)
/// and those that another digest holds too (second)
pub fn shared_page_split(digests: &Vec<JifDigest>, i: usize) -> (r: (usize, usize))
    requires
        i < digests@.len(),
    ensures
        r.0 == n_unique_shared(digests@, i as int, file_pages(digests@[i as int])),
        r.0 + r.1 == digests@[i as int].shared_pages@.len(),
{
    let d = &digests[i];
    let ghost fp = file_pages(*d);
    let mut unique: usize = 0;
    let mut shared: usize = 0;
    let mut k: usize = 0;
    assert(fp.take(0) =~= Seq::<(Seq<char>, int)>::empty());
    while k < d.shared_pages.len()
        invariant
            k <= d.shared_pages@.len(),
            *d == digests@[i as int],
            fp == file_pages(*d),
            unique == n_unique_shared(digests@, i as int, fp.take(k as int)),
            unique + shared == k,
        decreases d.shared_pages@.len() - k,
    {
        assert(fp[k as int] == (d.shared_pages@[k as int].0@, d.shared_pages@[k as int].1 as int));
        assert(fp.take(k + 1).drop_last() =~= fp.take(k as int));
        if held_by_another(digests, i, d.shared_pages[k].0.as_str(), d.shared_pages[k].1) {
            shared = shared + 1;
        } else {
            unique = unique + 1;
        }
        k = k + 1;
    }
    assert(fp.take(k as int) =~= fp);
    (unique, shared)
}

} // verus!
