//! Queries over JIFs that the selectors answer: the part of a list that a range selects, and
//! counts over the ordering section

use vstd::prelude::*;
use crate::itree::interval::DataSource;
use crate::jif::{Jif, spec_find_pheader};
use crate::ord::OrdChunk;
use crate::selectors::IndexRange;

verus! {

/// The positions `[start; end)` that a range selects in a list of `len` items: a range that
/// starts past the list selects nothing; `None` where a closed range ends (within the list)
/// before it starts
pub open spec fn spec_bounds(range: IndexRange, len: usize) -> Option<(usize, usize)> {
    match range {
        IndexRange::NoRange => Some((0, len)),
        IndexRange::LeftOpen { end } => Some((0, if end < len { end } else { len })),
        IndexRange::RightOpen { start } => if start < len {
            Some((start, len))
        } else {
            Some((0, 0))
        },
        IndexRange::Closed { start, end } => if start < len {
            let e = if end < len { end } else { len };
            if start <= e {
                Some((start, e))
            } else {
                None
            }
        } else {
            Some((0, 0))
        },
        IndexRange::Index(idx) => if idx < len {
            Some((idx, (idx + 1) as usize))
        } else {
            Some((0, 0))
        },
    }
}

impl IndexRange {
    /// The positions `[start; end)` that the range selects in a list of `len` items, if it
    /// selects a well formed part of it
    pub fn bounds(&self, len: usize) -> (r: Option<(usize, usize)>)
        ensures
            r == spec_bounds(*self, len),
            r matches Some(b) ==> b.0 <= b.1 <= len,
    {
        match *self {
            IndexRange::NoRange => Some((0, len)),
            IndexRange::LeftOpen { end } => Some((0, if end < len { end } else { len })),
            IndexRange::RightOpen { start } => if start < len {
                Some((start, len))
            } else {
                Some((0, 0))
            },
            IndexRange::Closed { start, end } => if start < len {
                let e = if end < len { end } else { len };
                if start <= e {
                    Some((start, e))
                } else {
                    None
                }
            } else {
                Some((0, 0))
            },
            IndexRange::Index(idx) => if idx < len {
                Some((idx, idx + 1))
            } else {
                Some((0, 0))
            },
        }
    }
}

/// The chunk is of the kind (any kind where none is given)
pub open spec fn of_kind(c: OrdChunk, kind: Option<DataSource>) -> bool {
    match kind {
        Some(k) => c.kind == k,
        None => true,
    }
}

/// Total number of pages of the chunks of a kind
pub open spec fn pages_of_kind(cs: Seq<OrdChunk>, kind: Option<DataSource>) -> int
    decreases cs.len(),
{
    if cs.len() == 0 {
        0
    } else {
        pages_of_kind(cs.drop_last(), kind) + if of_kind(cs.last(), kind) {
            cs.last().n_pages as int
        } else {
            0
        }
    }
}

/// Partial page counts do not decrease
proof fn lemma_pages_of_kind_mono(cs: Seq<OrdChunk>, kind: Option<DataSource>, j: int)
    requires
        0 <= j <= cs.len(),
    ensures
        0 <= pages_of_kind(cs.take(j), kind) <= pages_of_kind(cs, kind),
    decreases cs.len(),
{
    if j < cs.len() {
        assert(cs.take(j) =~= cs.drop_last().take(j));
        lemma_pages_of_kind_mono(cs.drop_last(), kind, j);
    } else {
        assert(cs.take(j) =~= cs);
        lemma_pages_of_kind_nonneg(cs, kind);
    }
}

/// Page counts are not negative
proof fn lemma_pages_of_kind_nonneg(cs: Seq<OrdChunk>, kind: Option<DataSource>)
    ensures
        pages_of_kind(cs, kind) >= 0,
    decreases cs.len(),
{
    if cs.len() > 0 {
        lemma_pages_of_kind_nonneg(cs.drop_last(), kind);
    }
}

/// Number of pages in the ordering chunks of a kind (of every kind where none is given), or
/// `None` where the count does not fit a `u64`
pub fn ord_pages(cs: &[OrdChunk], kind: Option<DataSource>) -> (r: Option<u64>)
    ensures
        match r {
            Some(n) => n == pages_of_kind(cs@, kind),
            None => pages_of_kind(cs@, kind) > u64::MAX,
        },
{
    let mut acc: u64 = 0;
    let mut k: usize = 0;
    assert(cs@.take(0) =~= Seq::<OrdChunk>::empty());
    while k < cs.len()
        invariant
            k <= cs@.len(),
            acc == pages_of_kind(cs@.take(k as int), kind),
        decreases cs@.len() - k,
    {
        let c = cs[k];
        proof {
            assert(cs@.take(k + 1).drop_last() =~= cs@.take(k as int));
            assert(cs@.take(k + 1).last() == c);
        }
        let counted = match kind {
            Some(kd) => c.kind == kd,
            None => true,
        };
        if counted {
            match acc.checked_add(c.n_pages) {
                Some(v) => {
                    acc = v;
                },
                None => {
                    proof {
                        lemma_pages_of_kind_mono(cs@, kind, k + 1);
                    }
                    return None;
                },
            }
        }
        k = k + 1;
    }
    assert(cs@.take(k as int) =~= cs@);
    Some(acc)
}

/// The starts of the intervals that the chunks' addresses resolve to in `jif`, for intervals
/// whose source is of the kind (any source where none is given), in chunk order
pub open spec fn resolved_starts(jif: Jif, cs: Seq<OrdChunk>, kind: Option<DataSource>) -> Seq<u64>
    decreases cs.len(),
{
    if cs.len() == 0 {
        seq![]
    } else {
        let rest = resolved_starts(jif, cs.drop_last(), kind);
        match jif.spec_resolve(cs.last().vaddr) {
            Some(i) => if kind matches Some(k) && i.source != k {
                rest
            } else {
                rest.push(i.start)
            },
            None => rest,
        }
    }
}

/// The starts of the intervals of the kind (of any kind where none is given) that the address of
/// some chunk resolves to
pub open spec fn landed_starts(jif: Jif, cs: Seq<OrdChunk>, kind: Option<DataSource>) -> Set<u64> {
    Set::new(
        |s: u64|
            exists|k: int|
                0 <= k < cs.len() && (#[trigger] jif.spec_resolve(cs[k].vaddr)) is Some && jif.spec_resolve(cs[k].vaddr)->Some_0.start
                    == s && (kind matches Some(d) ==> jif.spec_resolve(cs[k].vaddr)->Some_0.source == d),
    )
}

/// The starts listed are those of the intervals that the chunks land in: a chunk counts the
/// interval its address resolves to, so chunks that land in one interval count it once
pub proof fn law_resolved_starts(jif: Jif, cs: Seq<OrdChunk>, kind: Option<DataSource>)
    ensures
        resolved_starts(jif, cs, kind).to_set() == landed_starts(jif, cs, kind),
        landed_starts(jif, cs, kind).finite(),
    decreases cs.len(),
{
    let l = landed_starts(jif, cs, kind);
    if cs.len() == 0 {
        assert(l =~= Set::<u64>::empty());
        assert(Seq::<u64>::empty().to_set() =~= Set::<u64>::empty());
    } else {
        let p = cs.drop_last();
        law_resolved_starts(jif, p, kind);
        let lp = landed_starts(jif, p, kind);
        let rest = resolved_starts(jif, p, kind);
        let c = cs.last();
        let hit = jif.spec_resolve(c.vaddr) is Some && (kind matches Some(d) ==> jif.spec_resolve(c.vaddr)->Some_0.source == d);
        assert forall|x: u64| #[trigger] l.contains(x) == (lp.contains(x) || (hit && x == jif.spec_resolve(c.vaddr)->Some_0.start)) by {
            if l.contains(x) {
                let k = choose|k: int|
                    0 <= k < cs.len() && (#[trigger] jif.spec_resolve(cs[k].vaddr)) is Some && jif.spec_resolve(cs[k].vaddr)->Some_0.start
                        == x && (kind matches Some(d) ==> jif.spec_resolve(cs[k].vaddr)->Some_0.source == d);
                if k < p.len() {
                    assert(p[k] == cs[k]);
                } else {
                    assert(cs[k] == c);
                }
            }
            if lp.contains(x) {
                let k = choose|k: int|
                    0 <= k < p.len() && (#[trigger] jif.spec_resolve(p[k].vaddr)) is Some && jif.spec_resolve(p[k].vaddr)->Some_0.start
                        == x && (kind matches Some(d) ==> jif.spec_resolve(p[k].vaddr)->Some_0.source == d);
                assert(cs[k] == p[k]);
            }
            if hit && x == jif.spec_resolve(c.vaddr)->Some_0.start {
                assert(cs[cs.len() - 1] == c);
            }
        }
        if hit {
            rest.lemma_push_to_set_commute(jif.spec_resolve(c.vaddr)->Some_0.start);
            assert(l =~= lp.insert(jif.spec_resolve(c.vaddr)->Some_0.start));
        } else {
            assert(l =~= lp);
        }
    }
}

/// The chunks whose address no pheader of `jif` maps, in order
pub open spec fn unmapped(jif: Jif, cs: Seq<OrdChunk>) -> Seq<OrdChunk>
    decreases cs.len(),
{
    if cs.len() == 0 {
        seq![]
    } else if jif.spec_resolve(cs.last().vaddr) is None {
        unmapped(jif, cs.drop_last()).push(cs.last())
    } else {
        unmapped(jif, cs.drop_last())
    }
}

/// The chunks listed as unmapped are, in order, exactly those whose address no pheader maps
pub proof fn law_unmapped(jif: Jif, cs: Seq<OrdChunk>)
    ensures
        unmapped(jif, cs) == cs.filter(|c: OrdChunk| jif.spec_resolve(c.vaddr) is None),
    decreases cs.len(),
{
    reveal(Seq::filter);
    if cs.len() > 0 {
        law_unmapped(jif, cs.drop_last());
    }
}

/// The indices of the pheaders that map the chunks' addresses, in chunk order
pub open spec fn mapping_indices(jif: Jif, cs: Seq<OrdChunk>) -> Seq<u64>
    decreases cs.len(),
{
    if cs.len() == 0 {
        seq![]
    } else {
        let rest = mapping_indices(jif, cs.drop_last());
        match spec_find_pheader(jif.pheaders@, cs.last().vaddr, 0) {
            Some(i) => rest.push(i as u64),
            None => rest,
        }
    }
}

/// The pheaders (by index) that map the address of some chunk
pub open spec fn mapping_set(jif: Jif, cs: Seq<OrdChunk>) -> Set<u64> {
    Set::new(
        |i: u64|
            exists|k: int|
                0 <= k < cs.len() && (#[trigger] spec_find_pheader(jif.pheaders@, cs[k].vaddr, 0)) is Some
                    && spec_find_pheader(jif.pheaders@, cs[k].vaddr, 0)->Some_0 as u64 == i,
    )
}

/// The indices listed are those of the pheaders that map some chunk: chunks that one pheader
/// maps count it once
pub proof fn law_mapping_indices(jif: Jif, cs: Seq<OrdChunk>)
    ensures
        mapping_indices(jif, cs).to_set() == mapping_set(jif, cs),
        mapping_set(jif, cs).finite(),
    decreases cs.len(),
{
    let l = mapping_set(jif, cs);
    if cs.len() == 0 {
        assert(l =~= Set::<u64>::empty());
        assert(Seq::<u64>::empty().to_set() =~= Set::<u64>::empty());
    } else {
        let p = cs.drop_last();
        law_mapping_indices(jif, p);
        let lp = mapping_set(jif, p);
        let rest = mapping_indices(jif, p);
        let c = cs.last();
        let f = spec_find_pheader(jif.pheaders@, c.vaddr, 0);
        assert forall|x: u64| #[trigger] l.contains(x) == (lp.contains(x) || (f is Some && f->Some_0 as u64 == x)) by {
            if l.contains(x) {
                let k = choose|k: int|
                    0 <= k < cs.len() && (#[trigger] spec_find_pheader(jif.pheaders@, cs[k].vaddr, 0)) is Some
                        && spec_find_pheader(jif.pheaders@, cs[k].vaddr, 0)->Some_0 as u64 == x;
                if k < p.len() {
                    assert(p[k] == cs[k]);
                } else {
                    assert(cs[k] == c);
                }
            }
            if lp.contains(x) {
                let k = choose|k: int|
                    0 <= k < p.len() && (#[trigger] spec_find_pheader(jif.pheaders@, p[k].vaddr, 0)) is Some
                        && spec_find_pheader(jif.pheaders@, p[k].vaddr, 0)->Some_0 as u64 == x;
                assert(cs[k] == p[k]);
            }
            if f is Some && f->Some_0 as u64 == x {
                assert(cs[cs.len() - 1] == c);
            }
        }
        if f is Some {
            let i = f->Some_0;
            rest.lemma_push_to_set_commute(i as u64);
            assert(l =~= lp.insert(i as u64));
        } else {
            assert(l =~= lp);
        }
    }
}

/// Page counts add up over lists put one after the other, and a single chunk counts its pages
/// when it is of the kind (of any kind where none is given)
pub proof fn law_pages_of_kind(a: Seq<OrdChunk>, b: Seq<OrdChunk>, c: OrdChunk, kind: Option<DataSource>)
    ensures
        pages_of_kind(a + b, kind) == pages_of_kind(a, kind) + pages_of_kind(b, kind),
        pages_of_kind(seq![c], kind) == (if kind is None || kind == Some(c.kind) { c.n_pages as int } else { 0 }),
        pages_of_kind(a, None) == pages_of_kind(a, Some(DataSource::Private)) + pages_of_kind(a, Some(DataSource::Shared))
            + pages_of_kind(a, Some(DataSource::Zero)),
    decreases b.len(), a.len(),
{
    assert(seq![c].drop_last() =~= Seq::<OrdChunk>::empty());
    assert(seq![c].last() == c);
    assert(pages_of_kind(seq![c].drop_last(), kind) == 0);
    if b.len() == 0 {
        assert(a + b =~= a);
    } else {
        law_pages_of_kind(a, b.drop_last(), c, kind);
        assert((a + b).drop_last() =~= a + b.drop_last());
        assert((a + b).last() == b.last());
    }
    if a.len() > 0 {
        law_pages_of_kind(a.drop_last(), b, c, kind);
    }
}

/// Add `x` to a list of distinct values, unless it holds it already
fn insert_distinct(v: &mut Vec<u64>, x: u64)
    requires
        old(v)@.no_duplicates(),
    ensures
        final(v)@.no_duplicates(),
        final(v)@.to_set() == old(v)@.to_set().insert(x),
        final(v)@.len() <= old(v)@.len() + 1,
{
    let mut k: usize = 0;
    while k < v.len()
        invariant
            k <= v@.len(),
            v@ == old(v)@,
            v@.no_duplicates(),
            forall|j: int| 0 <= j < k ==> v@[j] != x,
        decreases v@.len() - k,
    {
        if v[k] == x {
            proof {
                assert(v@.to_set().contains(x));
                assert(v@.to_set().insert(x) =~= v@.to_set());
            }
            return;
        }
        k = k + 1;
    }
    let ghost before = v@;
    v.push(x);
    proof {
        before.lemma_push_to_set_commute(x);
        assert(!before.contains(x));
    }
}

/// Number of distinct intervals that the ordering chunks land in, in all and by source
#[derive(Debug, Clone, Copy, PartialEq, Eq, Structural)]
pub struct OrdIntervalCounts {
    pub total: usize,
    pub private: usize,
    pub shared: usize,
    pub zero: usize,
}

/// Count the distinct intervals (by start) that the addresses of the ordering chunks resolve
/// to, in all and by source, and list the chunks that no pheader maps
pub fn ord_interval_counts(jif: &Jif) -> (r: (OrdIntervalCounts, Vec<OrdChunk>))
    requires
        jif.wf(),
    ensures
        r.0.total == resolved_starts(*jif, jif.ord_chunks@, None).to_set().len(),
        r.0.private == resolved_starts(*jif, jif.ord_chunks@, Some(DataSource::Private)).to_set().len(),
        r.0.shared == resolved_starts(*jif, jif.ord_chunks@, Some(DataSource::Shared)).to_set().len(),
        r.0.zero == resolved_starts(*jif, jif.ord_chunks@, Some(DataSource::Zero)).to_set().len(),
        r.1@ == unmapped(*jif, jif.ord_chunks@),
        r.1@ == jif.ord_chunks@.filter(|c: OrdChunk| jif.spec_resolve(c.vaddr) is None),
        r.0.total == landed_starts(*jif, jif.ord_chunks@, None).len(),
        r.0.private == landed_starts(*jif, jif.ord_chunks@, Some(DataSource::Private)).len(),
        r.0.shared == landed_starts(*jif, jif.ord_chunks@, Some(DataSource::Shared)).len(),
        r.0.zero == landed_starts(*jif, jif.ord_chunks@, Some(DataSource::Zero)).len(),
{
    let ghost cs = jif.ord_chunks@;
    let mut all: Vec<u64> = Vec::new();
    let mut private: Vec<u64> = Vec::new();
    let mut shared: Vec<u64> = Vec::new();
    let mut zero: Vec<u64> = Vec::new();
    let mut lost: Vec<OrdChunk> = Vec::new();
    let mut k: usize = 0;
    assert(cs.take(0) =~= Seq::<OrdChunk>::empty());
    assert(Seq::<u64>::empty().to_set() =~= Set::<u64>::empty());
    while k < jif.ord_chunks.len()
        invariant
            k <= cs.len(),
            cs == jif.ord_chunks@,
            jif.wf(),
            all@.no_duplicates(),
            private@.no_duplicates(),
            shared@.no_duplicates(),
            zero@.no_duplicates(),
            all@.len() <= k,
            private@.len() <= k,
            shared@.len() <= k,
            zero@.len() <= k,
            all@.to_set() == resolved_starts(*jif, cs.take(k as int), None).to_set(),
            private@.to_set() == resolved_starts(*jif, cs.take(k as int), Some(DataSource::Private)).to_set(),
            shared@.to_set() == resolved_starts(*jif, cs.take(k as int), Some(DataSource::Shared)).to_set(),
            zero@.to_set() == resolved_starts(*jif, cs.take(k as int), Some(DataSource::Zero)).to_set(),
            lost@ == unmapped(*jif, cs.take(k as int)),
        decreases cs.len() - k,
    {
        let c = jif.ord_chunks[k];
        let ghost t = cs.take(k + 1);
        proof {
            assert(t.drop_last() =~= cs.take(k as int));
            assert(t.last() == c);
        }
        match jif.resolve(c.vaddr) {
            Some(i) => {
                let ghost p = resolved_starts(*jif, cs.take(k as int), Some(DataSource::Private));
                let ghost s = resolved_starts(*jif, cs.take(k as int), Some(DataSource::Shared));
                let ghost z = resolved_starts(*jif, cs.take(k as int), Some(DataSource::Zero));
                let ghost a = resolved_starts(*jif, cs.take(k as int), None);
                insert_distinct(&mut all, i.start);
                proof {
                    a.lemma_push_to_set_commute(i.start);
                }
                match i.source {
                    DataSource::Private => {
                        insert_distinct(&mut private, i.start);
                        proof {
                            p.lemma_push_to_set_commute(i.start);
                        }
                    },
                    DataSource::Shared => {
                        insert_distinct(&mut shared, i.start);
                        proof {
                            s.lemma_push_to_set_commute(i.start);
                        }
                    },
                    DataSource::Zero => {
                        insert_distinct(&mut zero, i.start);
                        proof {
                            z.lemma_push_to_set_commute(i.start);
                        }
                    },
                }
            },
            None => {
                lost.push(c);
            },
        }
        k = k + 1;
    }
    assert(cs.take(k as int) =~= cs);
    proof {
        all@.unique_seq_to_set();
        private@.unique_seq_to_set();
        shared@.unique_seq_to_set();
        zero@.unique_seq_to_set();
        law_resolved_starts(*jif, cs, None);
        law_resolved_starts(*jif, cs, Some(DataSource::Private));
        law_resolved_starts(*jif, cs, Some(DataSource::Shared));
        law_resolved_starts(*jif, cs, Some(DataSource::Zero));
        law_unmapped(*jif, cs);
    }
    let counts = OrdIntervalCounts { total: all.len(), private: private.len(), shared: shared.len(), zero: zero.len() };
    (counts, lost)
}

/// Count the distinct pheaders that map the addresses of the ordering chunks
pub fn ord_vma_count(jif: &Jif) -> (r: usize)
    ensures
        r == mapping_indices(*jif, jif.ord_chunks@).to_set().len(),
        r == mapping_set(*jif, jif.ord_chunks@).len(),
{
    let ghost cs = jif.ord_chunks@;
    let mut seen: Vec<u64> = Vec::new();
    let mut k: usize = 0;
    assert(cs.take(0) =~= Seq::<OrdChunk>::empty());
    assert(Seq::<u64>::empty().to_set() =~= Set::<u64>::empty());
    while k < jif.ord_chunks.len()
        invariant
            k <= cs.len(),
            cs == jif.ord_chunks@,
            seen@.no_duplicates(),
            seen@.len() <= k,
            seen@.to_set() == mapping_indices(*jif, cs.take(k as int)).to_set(),
        decreases cs.len() - k,
    {
        let c = jif.ord_chunks[k];
        let ghost t = cs.take(k + 1);
        proof {
            assert(t.drop_last() =~= cs.take(k as int));
            assert(t.last() == c);
        }
        match jif.mapping_pheader_idx(c.vaddr) {
            Some(i) => {
                let ghost m = mapping_indices(*jif, cs.take(k as int));
                insert_distinct(&mut seen, i as u64);
                proof {
                    m.lemma_push_to_set_commute(i as u64);
                }
            },
            None => {},
        }
        k = k + 1;
    }
    assert(cs.take(k as int) =~= cs);
    proof {
        seen@.unique_seq_to_set();
        law_mapping_indices(*jif, cs);
    }
    seen.len()
}

} // verus!
