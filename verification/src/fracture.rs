//! Fracturing data intervals by the ordering chunks, so that the pages that a chunk orders can
//! be placed in the file on their own

use vstd::prelude::*;
use vstd::slice::{slice_subrange, slice_to_vec};
use crate::deduper::{DedupToken, Deduper};
use crate::error::{ITreeError, JifError, JifResult};
use crate::fragment::{built, lemma_flat_index, lemma_flat_len, lemma_insert_pos_bounds, lemma_node_bound, maps_data, same_data};
use crate::itree::interval::{DataKind, DataSource, Interval, IntervalData};
use crate::itree::itree_node::ITreeNode;
use crate::itree::tree::{ITree, ref_tokens, data_bytes, flat, nodes_wf, sort_bounds, sort_by_start};
use crate::jif::Jif;
use crate::ord::OrdChunk;
use crate::pheader::{JifPheader, deduped};
use crate::utils::PAGE_SIZE;

verus! {

/// The bounds of an ordering chunk: its first page to the end of its last page
pub open spec fn chunk_bounds(c: OrdChunk) -> (u64, u64) {
    (c.vaddr, (c.spec_last_page_addr() + PAGE_SIZE) as u64)
}

/// The chunk orders private data and starts within `vr`
pub open spec fn pertinent(c: OrdChunk, vr: (u64, u64)) -> bool {
    c.kind == DataSource::Private && vr.0 <= c.vaddr && c.vaddr < vr.1
}

/// The bounds of the chunks pertinent to `vr`, in order
pub open spec fn pertinent_bounds(cs: Seq<OrdChunk>, vr: (u64, u64)) -> Seq<(u64, u64)>
    decreases cs.len(),
{
    if cs.len() == 0 {
        seq![]
    } else if pertinent(cs.last(), vr) {
        pertinent_bounds(cs.drop_last(), vr).push(chunk_bounds(cs.last()))
    } else {
        pertinent_bounds(cs.drop_last(), vr)
    }
}

/// The chunks (by bounds) that start within `[a; b)`, in order
pub open spec fn chunks_in(cs: Seq<(u64, u64)>, a: u64, b: u64) -> Seq<(u64, u64)>
    decreases cs.len(),
{
    if cs.len() == 0 {
        seq![]
    } else if a <= cs.last().0 && cs.last().0 < b {
        chunks_in(cs.drop_last(), a, b).push(cs.last())
    } else {
        chunks_in(cs.drop_last(), a, b)
    }
}

/// The pieces of `[a; b)` that the chunks `cs` cut it into: before each chunk the gap that
/// precedes it, if any, then the chunk, and last what is left after the chunks
pub open spec fn cut(a: u64, b: u64, cs: Seq<(u64, u64)>) -> Seq<(u64, u64)>
    decreases cs.len(),
{
    if cs.len() == 0 {
        if a < b {
            seq![(a, b)]
        } else {
            seq![]
        }
    } else {
        (if a < cs[0].0 {
            seq![(a, cs[0].0)]
        } else {
            seq![]
        }) + seq![cs[0]] + cut(cs[0].1, b, cs.drop_first())
    }
}

/// The intervals that map something, in order
pub open spec fn present_ivs<Data: IntervalData>(s: Seq<Interval<Data>>) -> Seq<Interval<Data>>
    decreases s.len(),
{
    if s.len() == 0 {
        seq![]
    } else if !s.last().spec_is_none() {
        present_ivs(s.drop_last()).push(s.last())
    } else {
        present_ivs(s.drop_last())
    }
}

/// The interval is left whole: it holds no data, no chunk starts in it, or a single chunk
/// spans it exactly
pub open spec fn left_whole<Data: IntervalData>(iv: Interval<Data>, cs: Seq<(u64, u64)>) -> bool {
    ||| !maps_data(iv)
    ||| chunks_in(cs, iv.start, iv.end).len() == 0
    ||| chunks_in(cs, iv.start, iv.end) == seq![(iv.start, iv.end)]
}

/// How many intervals fracturing `iv` gives
pub open spec fn pieces_len<Data: IntervalData>(iv: Interval<Data>, cs: Seq<(u64, u64)>) -> int {
    if left_whole(iv, cs) {
        1
    } else {
        cut(iv.start, iv.end, chunks_in(cs, iv.start, iv.end)).len() as int
    }
}

/// The interval `p` owns the bytes of `iv` over `piece`
pub open spec fn piece_of<Data: IntervalData>(p: Interval<Data>, piece: (u64, u64), iv: Interval<Data>, d: Deduper) -> bool {
    &&& p.start == piece.0
    &&& p.end == piece.1
    &&& p.data.kind() == DataKind::Owned
    &&& p.data.owned_bytes() == data_bytes(iv, d).subrange(piece.0 - iv.start, piece.1 - iv.start)
}

/// `seg` is what fracturing `iv` by the chunks `cs` gives: `iv` itself where it is left whole,
/// otherwise one interval owning its bytes per piece that the chunks starting in it cut it into
pub open spec fn fractured_one<Data: IntervalData>(iv: Interval<Data>, cs: Seq<(u64, u64)>, d: Deduper, seg: Seq<Interval<Data>>) -> bool {
    if left_whole(iv, cs) {
        &&& seg.len() == 1
        &&& seg[0].start == iv.start
        &&& seg[0].end == iv.end
        &&& same_data(seg[0].data, iv.data)
    } else {
        let p = cut(iv.start, iv.end, chunks_in(cs, iv.start, iv.end));
        &&& seg.len() == p.len()
        &&& forall|k: int| 0 <= k < p.len() ==> piece_of(#[trigger] seg[k], p[k], iv, d)
    }
}

/// `out` is what fracturing each of `ivs` in turn gives
pub open spec fn fractured<Data: IntervalData>(ivs: Seq<Interval<Data>>, cs: Seq<(u64, u64)>, d: Deduper, out: Seq<Interval<Data>>) -> bool
    decreases ivs.len(),
{
    if ivs.len() == 0 {
        out.len() == 0
    } else {
        let m = out.len() - pieces_len(ivs.last(), cs);
        &&& 0 <= m
        &&& fractured(ivs.drop_last(), cs, d, out.take(m))
        &&& fractured_one(ivs.last(), cs, d, out.skip(m))
    }
}

/// The chunks are sorted and do not overlap, and each is non-empty
pub open spec fn disjoint_chunks(cs: Seq<(u64, u64)>) -> bool {
    &&& forall|k: int| 0 <= k < cs.len() ==> (#[trigger] cs[k]).0 < cs[k].1
    &&& forall|k: int, l: int| 0 <= k && l == k + 1 && l < cs.len() ==> (#[trigger] cs[k]).1 <= (#[trigger] cs[l]).0
}

/// What fracturing a tree needs: each data interval holds as many bytes as it spans (its
/// referenced data in the deduper), and each chunk that starts in it ends within it; the
/// pertinent chunks do not overlap and their ends fit the range
pub open spec fn fracturable<Data: IntervalData>(t: ITree<Data>, chunks: Seq<OrdChunk>, d: Deduper) -> bool {
    let ivs = present_ivs(flat(t.nodes@));
    let cs = sort_by_start(pertinent_bounds(chunks, t.virtual_range));
    ivs.len() > 0 ==> {
        &&& forall|k: int| 0 <= k < chunks.len() && pertinent(#[trigger] chunks[k], t.virtual_range) ==> chunks[k].fits()
            && chunk_bounds(chunks[k]).1 <= t.virtual_range.1
        &&& disjoint_chunks(cs)
        &&& forall|k: int| 0 <= k < ivs.len() && maps_data(#[trigger] ivs[k]) ==> {
            &&& ivs[k].start <= ivs[k].end
            &&& ivs[k].data.kind() == DataKind::Ref ==> d.has_token(ivs[k].data.token())
            &&& data_bytes(ivs[k], d).len() == ivs[k].end - ivs[k].start
            &&& forall|j: int| 0 <= j < cs.len() && ivs[k].start <= #[trigger] cs[j].0 < ivs[k].end ==> cs[j].1 <= ivs[k].end
        }
    }
}

/// A cut gives at most one gap and one piece per chunk, and what is left
proof fn lemma_cut_len(a: u64, b: u64, cs: Seq<(u64, u64)>)
    ensures
        cut(a, b, cs).len() <= 2 * cs.len() + 1,
    decreases cs.len(),
{
    if cs.len() > 0 {
        lemma_cut_len(cs[0].1, b, cs.drop_first());
    }
}

/// No more chunks start in a range than there are chunks
proof fn lemma_chunks_in_len(cs: Seq<(u64, u64)>, a: u64, b: u64)
    ensures
        chunks_in(cs, a, b).len() <= cs.len(),
    decreases cs.len(),
{
    if cs.len() > 0 {
        lemma_chunks_in_len(cs.drop_last(), a, b);
    }
}

/// The chunks that start in a range are chunks of the list, in the same order
proof fn lemma_chunks_in_sub(cs: Seq<(u64, u64)>, a: u64, b: u64)
    ensures
        forall|k: int| 0 <= k < chunks_in(cs, a, b).len() ==> a <= (#[trigger] chunks_in(cs, a, b)[k]).0 < b
            && exists|j: int| 0 <= j < cs.len() && cs[j] == chunks_in(cs, a, b)[k],
    decreases cs.len(),
{
    if cs.len() > 0 {
        lemma_chunks_in_sub(cs.drop_last(), a, b);
        let w = chunks_in(cs.drop_last(), a, b);
        assert forall|k: int| 0 <= k < chunks_in(cs, a, b).len() implies a <= (#[trigger] chunks_in(cs, a, b)[k]).0 < b
            && exists|j: int| 0 <= j < cs.len() && cs[j] == chunks_in(cs, a, b)[k] by {
            if k < w.len() {
                assert(chunks_in(cs, a, b)[k] == w[k]);
                let j = choose|j: int| 0 <= j < cs.drop_last().len() && cs.drop_last()[j] == w[k];
                assert(cs[j] == cs.drop_last()[j]);
            } else {
                assert(chunks_in(cs, a, b)[k] == cs[cs.len() - 1]);
            }
        }
    }
}

/// Pieces of fracturing one interval, bounded by the number of chunks
proof fn lemma_pieces_len<Data: IntervalData>(iv: Interval<Data>, cs: Seq<(u64, u64)>)
    ensures
        1 <= pieces_len(iv, cs) <= 2 * cs.len() + 1 || (!left_whole(iv, cs) && pieces_len(iv, cs) <= 2 * cs.len() + 1),
        pieces_len(iv, cs) <= 2 * cs.len() + 1,
        pieces_len(iv, cs) >= 0,
{
    lemma_chunks_in_len(cs, iv.start, iv.end);
    lemma_cut_len(iv.start, iv.end, chunks_in(cs, iv.start, iv.end));
}

/// The intervals of the tree that map something, in order
fn present_intervals<'a, Data: IntervalData>(nodes: &'a Vec<ITreeNode<Data>>) -> (r: Vec<&'a Interval<Data>>)
    requires
        nodes_wf(nodes@),
        nodes@.len() <= usize::MAX / 16,
    ensures
        r@.len() == present_ivs(flat(nodes@)).len(),
        forall|k: int| 0 <= k < r@.len() ==> *(#[trigger] r@[k]) == present_ivs(flat(nodes@))[k],
{
    let ghost f = flat(nodes@);
    proof {
        lemma_flat_len(nodes@);
    }
    let total = nodes.len() * 3;
    let mut out: Vec<&Interval<Data>> = Vec::new();
    let mut t: usize = 0;
    assert(f.take(0) =~= Seq::<Interval<Data>>::empty());
    while t < total
        invariant
            t <= total,
            total == f.len(),
            f == flat(nodes@),
            nodes_wf(nodes@),
            total == 3 * nodes@.len(),
            out@.len() == present_ivs(f.take(t as int)).len(),
            forall|k: int| 0 <= k < out@.len() ==> *(#[trigger] out@[k]) == present_ivs(f.take(t as int))[k],
        decreases total - t,
    {
        let i = t / 3;
        let j = t % 3;
        proof {
            lemma_flat_index(nodes@, i as int, j as int);
            assert(f.take(t + 1).drop_last() =~= f.take(t as int));
            assert(f.take(t + 1).last() == f[t as int]);
        }
        assert(nodes@[i as int].wf());
        let iv = &nodes[i].ranges[j];
        if !iv.is_none() {
            out.push(iv);
        }
        t = t + 1;
    }
    assert(f.take(t as int) =~= f);
    out
}

/// The bounds of the chunks pertinent to `vr`, in order
fn pertinent_chunks(chunks: &[OrdChunk], vr: (u64, u64)) -> (r: Vec<(u64, u64)>)
    requires
        forall|k: int| 0 <= k < chunks@.len() && pertinent(#[trigger] chunks@[k], vr) ==> chunks@[k].fits(),
    ensures
        r@ == pertinent_bounds(chunks@, vr),
{
    let mut out: Vec<(u64, u64)> = Vec::new();
    let mut k: usize = 0;
    assert(chunks@.take(0) =~= Seq::<OrdChunk>::empty());
    while k < chunks.len()
        invariant
            k <= chunks@.len(),
            forall|j: int| 0 <= j < chunks@.len() && pertinent(#[trigger] chunks@[j], vr) ==> chunks@[j].fits(),
            out@ == pertinent_bounds(chunks@.take(k as int), vr),
        decreases chunks@.len() - k,
    {
        let c = &chunks[k];
        proof {
            assert(chunks@.take(k + 1).drop_last() =~= chunks@.take(k as int));
            assert(chunks@.take(k + 1).last() == chunks@[k as int]);
        }
        if c.kind == DataSource::Private && vr.0 <= c.vaddr && c.vaddr < vr.1 {
            out.push((c.vaddr, c.end()));
        }
        k = k + 1;
    }
    assert(chunks@.take(k as int) =~= chunks@);
    out
}

/// The chunks that start within `[a; b)`, in order
fn chunks_within(cs: &Vec<(u64, u64)>, a: u64, b: u64) -> (r: Vec<(u64, u64)>)
    ensures
        r@ == chunks_in(cs@, a, b),
{
    let mut out: Vec<(u64, u64)> = Vec::new();
    let mut k: usize = 0;
    assert(cs@.take(0) =~= Seq::<(u64, u64)>::empty());
    while k < cs.len()
        invariant
            k <= cs@.len(),
            out@ == chunks_in(cs@.take(k as int), a, b),
        decreases cs@.len() - k,
    {
        let c = cs[k];
        proof {
            assert(cs@.take(k + 1).drop_last() =~= cs@.take(k as int));
            assert(cs@.take(k + 1).last() == c);
        }
        if a <= c.0 && c.0 < b {
            out.push(c);
        }
        k = k + 1;
    }
    assert(cs@.take(k as int) =~= cs@);
    out
}

/// An interval owning the bytes of `iv` over `[s; e)`
fn piece<Data: IntervalData>(iv: &Interval<Data>, bytes: &[u8], s: u64, e: u64, d: &Deduper) -> (r: Interval<Data>)
    requires
        bytes@ == data_bytes(*iv, *d),
        bytes@.len() == iv.end - iv.start,
        iv.start <= s <= e <= iv.end,
    ensures
        piece_of(r, (s, e), *iv, *d),
{
    let n = bytes.len();
    assert(e - iv.start <= n);
    let lo = (s - iv.start) as usize;
    let hi = (e - iv.start) as usize;
    let v = slice_to_vec(slice_subrange(bytes, lo, hi));
    Interval { start: s, end: e, data: Data::owned(v) }
}

/// Fracture one interval by the chunks `cs` (sorted, disjoint), appending the result
fn fracture_one<Data: IntervalData>(iv: &Interval<Data>, cs: &Vec<(u64, u64)>, d: &Deduper, out: &mut Vec<Interval<Data>>)
    requires
        disjoint_chunks(cs@),
        maps_data(*iv) ==> {
            &&& iv.start <= iv.end
            &&& iv.data.kind() == DataKind::Ref ==> d.has_token(iv.data.token())
            &&& data_bytes(*iv, *d).len() == iv.end - iv.start
            &&& forall|j: int| 0 <= j < cs@.len() && iv.start <= #[trigger] cs@[j].0 < iv.end ==> cs@[j].1 <= iv.end
        },
        old(out)@.len() + 2 * cs@.len() + 1 <= usize::MAX,
    ensures
        final(out)@.len() == old(out)@.len() + pieces_len(*iv, cs@),
        final(out)@.take(old(out)@.len() as int) == old(out)@,
        fractured_one(*iv, cs@, *d, final(out)@.skip(old(out)@.len() as int)),
{
    let ghost base = out@.len() as int;
    let ghost before = out@;
    let w = chunks_within(cs, iv.start, iv.end);
    let whole = !iv.data.is_data() || w.len() == 0 || (w.len() == 1 && w[0].0 == iv.start && w[0].1 == iv.end);
    if whole {
        proof {
            if w@.len() == 1 && w@[0].0 == iv.start && w@[0].1 == iv.end {
                assert(w@ =~= seq![(iv.start, iv.end)]);
            }
        }
        out.push(iv.duplicate());
        assert(out@.take(base) =~= before);
        assert(out@.skip(base)[0] == out@[base]);
        return;
    }
    proof {
        lemma_chunks_in_sub(cs@, iv.start, iv.end);
        lemma_chunks_in_len(cs@, iv.start, iv.end);
        lemma_cut_len(iv.start, iv.end, w@);
    }
    let bytes = match iv.data.get_data(d) {
        Some(b) => b,
        None => {
            proof {
                assert(false);
            }
            return;
        },
    };
    let ghost whole_cut = cut(iv.start, iv.end, w@);
    let ghost mut done: Seq<(u64, u64)> = Seq::empty();
    let mut seg: Vec<Interval<Data>> = Vec::new();
    let mut a = iv.start;
    let mut j: usize = 0;
    assert(w@.skip(0) =~= w@);
    while j < w.len()
        invariant
            j <= w@.len(),
            w@ == chunks_in(cs@, iv.start, iv.end),
            w@.len() <= cs@.len(),
            forall|k: int| 0 <= k < w@.len() ==> iv.start <= (#[trigger] w@[k]).0 < iv.end && w@[k].0 < w@[k].1
                && w@[k].1 <= iv.end,
            iv.start <= a <= iv.end,
            bytes@ == data_bytes(*iv, *d),
            bytes@.len() == iv.end - iv.start,
            whole_cut == cut(iv.start, iv.end, w@),
            whole_cut == done + cut(a, iv.end, w@.skip(j as int)),
            done.len() <= 2 * j,
            seg@.len() == done.len(),
            forall|k: int| 0 <= k < done.len() ==> piece_of(#[trigger] seg@[k], done[k], *iv, *d),
        decreases w@.len() - j,
    {
        let c = w[j];
        let ghost rest = w@.skip(j as int);
        assert(rest[0] == c);
        assert(rest.drop_first() =~= w@.skip(j + 1));
        if a < c.0 {
            let p = piece(iv, bytes, a, c.0, d);
            seg.push(p);
            proof {
                done = done.push((a, c.0));
            }
        }
        let p = piece(iv, bytes, c.0, c.1, d);
        seg.push(p);
        proof {
            done = done.push(c);
            assert(whole_cut == done + cut(c.1, iv.end, w@.skip(j + 1)));
        }
        a = c.1;
        j = j + 1;
    }
    if a < iv.end {
        let p = piece(iv, bytes, a, iv.end, d);
        seg.push(p);
        proof {
            done = done.push((a, iv.end));
        }
    }
    proof {
        assert(w@.skip(j as int) =~= Seq::<(u64, u64)>::empty());
        assert(whole_cut == done);
    }
    let ghost segv = seg@;
    out.append(&mut seg);
    assert(out@.take(base) =~= before);
    assert(out@.skip(base) =~= segv);
}

/// Sorting keeps the number of bounds
proof fn lemma_sort_by_start_len(s: Seq<(u64, u64)>)
    ensures
        sort_by_start(s).len() == s.len(),
    decreases s.len(),
{
    if s.len() > 0 {
        lemma_sort_by_start_len(s.drop_last());
        lemma_insert_pos_bounds(sort_by_start(s.drop_last()), s.last());
    }
}

/// No more chunks are pertinent than there are chunks
proof fn lemma_pertinent_len(cs: Seq<OrdChunk>, vr: (u64, u64))
    ensures
        pertinent_bounds(cs, vr).len() <= cs.len(),
    decreases cs.len(),
{
    if cs.len() > 0 {
        lemma_pertinent_len(cs.drop_last(), vr);
    }
}

/// No more intervals map something than there are intervals
proof fn lemma_present_len<Data: IntervalData>(s: Seq<Interval<Data>>)
    ensures
        present_ivs(s).len() <= s.len(),
    decreases s.len(),
{
    if s.len() > 0 {
        lemma_present_len(s.drop_last());
    }
}

/// What fracturing the tree `before` by the ordering chunks does: a tree with no interval is
/// left as it is; otherwise its intervals, fractured by the pertinent chunks (sorted by start),
/// make the new tree, and where that tree fails its checks the error is reported as
/// [`JifError::InvalidITree`] and the tree is left as it was
pub open spec fn refractured<Data: IntervalData>(
    before: ITree<Data>,
    after: ITree<Data>,
    chunks: Seq<OrdChunk>,
    d: Deduper,
    r: JifResult<()>,
) -> bool {
    let ivs = present_ivs(flat(before.nodes@));
    let vr = before.virtual_range;
    let cs = sort_by_start(pertinent_bounds(chunks, vr));
    if ivs.len() == 0 {
        r is Ok && after == before
    } else {
        exists|out: Seq<Interval<Data>>| {
            &&& fractured(ivs, cs, d, out)
            &&& match r {
                Ok(_) => built(Ok(after), out, vr),
                Err(e) => after == before && exists|error: ITreeError|
                    built(Err(error), out, vr) && e == (JifError::InvalidITree { virtual_range: vr, error }),
            }
        }
    }
}

impl<Data: IntervalData> ITree<Data> {
    /// Fracture data intervals in the tree by the ordering section boundaries, so that the
    /// pages each chunk orders can be placed on their own in the file
    ///
    /// Only the chunks that order private data and start within the tree's range count. A data
    /// interval in which such chunks start is cut at their bounds into intervals that own their
    /// bytes (referenced data is copied out of the deduper), unless a single chunk spans it
    /// exactly; every other interval is kept.
    pub fn fracture(&mut self, ord_chunks: &[OrdChunk], deduper: &Deduper) -> (r: JifResult<()>)
        requires
            nodes_wf(old(self).nodes@),
            old(self).nodes@.len() <= usize::MAX / 16,
            fracturable(*old(self), ord_chunks@, *deduper),
            flat(old(self).nodes@).len() * (2 * ord_chunks@.len() + 1) <= usize::MAX / 8,
        ensures
            refractured(*old(self), *final(self), ord_chunks@, *deduper, r),
    {
        let ghost before = *self;
        let ghost ivs = present_ivs(flat(self.nodes@));
        let vr = self.virtual_range;
        let out = {
            let present = present_intervals(&self.nodes);
            if present.len() == 0 {
                return Ok(());
            }
            let pc = pertinent_chunks(ord_chunks, vr);
            let cs = sort_bounds(&pc);
            proof {
                lemma_pertinent_len(ord_chunks@, vr);
                lemma_sort_by_start_len(pc@);
                lemma_present_len(flat(self.nodes@));
            }
            let ghost n = flat(self.nodes@).len() as int;
            let ghost nc = ord_chunks@.len() as int;
            let mut out: Vec<Interval<Data>> = Vec::new();
            let mut k: usize = 0;
            assert(ivs.take(0) =~= Seq::<Interval<Data>>::empty());
            while k < present.len()
                invariant
                    k <= present@.len(),
                    present@.len() == ivs.len(),
                    ivs.len() <= n,
                    ivs.len() > 0,
                    forall|j: int| 0 <= j < present@.len() ==> *(#[trigger] present@[j]) == ivs[j],
                    cs@ == sort_by_start(pertinent_bounds(ord_chunks@, vr)),
                    cs@.len() <= nc,
                    vr == before.virtual_range,
                    ivs == present_ivs(flat(before.nodes@)),
                    fracturable(before, ord_chunks@, *deduper),
                    n * (2 * nc + 1) <= usize::MAX / 8,
                    out@.len() <= k * (2 * cs@.len() + 1),
                    fractured(ivs.take(k as int), cs@, *deduper, out@),
                decreases present@.len() - k,
            {
                let ghost o = out@;
                let ghost c = cs@.len() as int;
                assert((k + 1) * (2 * c + 1) <= n * (2 * nc + 1)) by (nonlinear_arith)
                    requires
                        k + 1 <= n,
                        0 <= c <= nc,
                ;
                assert(k * (2 * c + 1) + (2 * c + 1) == (k + 1) * (2 * c + 1)) by (nonlinear_arith);
                assert(ivs[k as int] == *present@[k as int]);
                fracture_one(present[k], &cs, deduper, &mut out);
                proof {
                    let t = ivs.take(k + 1);
                    assert(t.drop_last() =~= ivs.take(k as int));
                    assert(t.last() == ivs[k as int]);
                    lemma_pieces_len(ivs[k as int], cs@);
                }
                k = k + 1;
            }
            assert(ivs.take(k as int) =~= ivs);
            out
        };
        proof {
            let c = sort_by_start(pertinent_bounds(ord_chunks@, vr)).len() as int;
            let n = flat(before.nodes@).len() as int;
            let nc = ord_chunks@.len() as int;
            let m = ivs.len() as int;
            assert(m * (2 * c + 1) <= n * (2 * c + 1)) by (nonlinear_arith)
                requires
                    0 <= m <= n,
                    0 <= c,
            ;
            assert(n * (2 * c + 1) <= n * (2 * nc + 1)) by (nonlinear_arith)
                requires
                    0 <= n,
                    0 <= c <= nc,
            ;
            lemma_node_bound(out@);
        }
        let ghost outv = out@;
        match ITree::build(out, vr) {
            Ok(t) => {
                *self = t;
                assert(built(Ok(*self), outv, vr));
                Ok(())
            },
            Err(error) => {
                assert(built(Err(error), outv, vr));
                Err(JifError::InvalidITree { virtual_range: vr, error })
            },
        }
    }
}

/// The pheader `after` keeps the kind, range, protections and reference of `before`, and its
/// tree is the tree of `before` fractured by the chunks
pub open spec fn ph_refractured(before: JifPheader, after: JifPheader, chunks: Seq<OrdChunk>, d: Deduper, r: JifResult<()>) -> bool {
    match before {
        JifPheader::Anonymous { vaddr_range, itree, prot } => {
            &&& after is Anonymous
            &&& after.spec_range() == vaddr_range
            &&& after.spec_prot() == prot
            &&& refractured(itree, after->Anonymous_itree, chunks, d, r)
        },
        JifPheader::Reference { vaddr_range, itree, prot, ref_path, ref_offset } => {
            &&& after is Reference
            &&& after.spec_range() == vaddr_range
            &&& after.spec_prot() == prot
            &&& after->ref_path == ref_path
            &&& after->ref_offset == ref_offset
            &&& refractured(itree, after->Reference_itree, chunks, d, r)
        },
    }
}

/// What fracturing a pheader needs: a well formed tree that can be fractured, and few enough
/// intervals and chunks for the pieces to fit in memory
pub open spec fn ph_fracturable(ph: JifPheader, chunks: Seq<OrdChunk>, d: Deduper) -> bool {
    &&& ph.wf()
    &&& match ph {
        JifPheader::Anonymous { itree, .. } => fracturable(itree, chunks, d) && flat(itree.nodes@).len() * (2
            * chunks.len() + 1) <= usize::MAX / 8,
        JifPheader::Reference { itree, .. } => fracturable(itree, chunks, d) && flat(itree.nodes@).len() * (2
            * chunks.len() + 1) <= usize::MAX / 8,
    }
}

/// The tokens that the intervals of a pheader reference, in order
pub open spec fn ph_tokens(ph: JifPheader) -> Seq<DedupToken> {
    match ph {
        JifPheader::Anonymous { itree, .. } => ref_tokens(flat(itree.nodes@)),
        JifPheader::Reference { itree, .. } => ref_tokens(flat(itree.nodes@)),
    }
}

/// The tokens that the pheaders reference, pheader after pheader
pub open spec fn tokens_in(phs: Seq<JifPheader>) -> Seq<DedupToken>
    decreases phs.len(),
{
    if phs.len() == 0 {
        seq![]
    } else {
        tokens_in(phs.drop_last()) + ph_tokens(phs.last())
    }
}

/// The deduper `after` is `before` with every segment that no token of `tokens` names released
pub open spec fn collected(before: Deduper, after: Deduper, tokens: Seq<DedupToken>) -> bool {
    &&& after@.len() == before@.len()
    &&& forall|i: int| 0 <= i < before@.len() ==> #[trigger] after@[i] == if (exists|k: int|
        0 <= k < tokens.len() && tokens[k].index() == i) {
        before@[i]
    } else {
        None
    }
}

/// A fractured pheader whose tree was well formed still has a well formed tree
proof fn lemma_refractured_wf(before: JifPheader, after: JifPheader, chunks: Seq<OrdChunk>, d: Deduper)
    requires
        before.wf(),
        ph_refractured(before, after, chunks, d, Ok(())),
    ensures
        after.wf(),
{
}

/// A slot deduped into a deduper stays so in a deduper that keeps its segments
proof fn lemma_deduped_grows(before: JifPheader, after: JifPheader, d: Deduper, d2: Deduper)
    requires
        deduped(before, after, d),
        forall|t: DedupToken| #[trigger] d.has_token(t) ==> d2.has_token(t) && d2.data_of(t) == d.data_of(t),
    ensures
        deduped(before, after, d2),
{
}

impl JifPheader {
    /// Fracture the pheader intervals based on the ordering chunks that it backs (see
    /// [`ITree::fracture`]). This allows the ordering chunks to be reordered
    pub fn fracture_by_ord_chunk(&mut self, ord_chunks: &[OrdChunk], deduper: &Deduper) -> (r: JifResult<()>)
        requires
            ph_fracturable(*old(self), ord_chunks@, *deduper),
        ensures
            ph_refractured(*old(self), *final(self), ord_chunks@, *deduper, r),
    {
        match self {
            JifPheader::Anonymous { itree, .. } => itree.fracture(ord_chunks, deduper),
            JifPheader::Reference { itree, .. } => itree.fracture(ord_chunks, deduper),
        }
    }
}

/// The pheaders `before` were fractured into `mid`, whose owned data was then moved into the
/// deduper (`d0` growing into `d1`), giving `after`; `d1` then released every segment that no
/// interval of `after` references, giving `d_after`
pub open spec fn fractured_and_collected(
    before: Seq<JifPheader>,
    chunks: Seq<OrdChunk>,
    d0: Deduper,
    mid: Seq<JifPheader>,
    d1: Deduper,
    after: Seq<JifPheader>,
    d_after: Deduper,
) -> bool {
    &&& mid.len() == before.len()
    &&& forall|i: int| 0 <= i < mid.len() ==> ph_refractured(#[trigger] before[i], mid[i], chunks, d0, Ok(()))
    &&& forall|i: int| 0 <= i < mid.len() ==> deduped(#[trigger] mid[i], after[i], d1)
    &&& forall|t: DedupToken| #[trigger] d0.has_token(t) ==> d1.has_token(t) && d1.data_of(t) == d0.data_of(t)
    &&& collected(d1, d_after, tokens_in(after))
}

impl Jif {
    /// Use ordering chunks to break apart intervals so that data pages can be reordered
    ///
    /// Every pheader is fractured by the ordering chunks (see
    /// [`JifPheader::fracture_by_ord_chunk`]), stopping at the first failure; then the data the
    /// pieces own is moved into the deduper, and the deduper releases every segment that no
    /// interval references any more.
    pub fn fracture_by_ord_chunk(&mut self) -> (r: JifResult<()>)
        requires
            forall|i: int| 0 <= i < old(self).pheaders@.len() ==> ph_fracturable(
                #[trigger] old(self).pheaders@[i],
                old(self).ord_chunks@,
                old(self).deduper,
            ),
        ensures
            final(self).ord_chunks == old(self).ord_chunks,
            final(self).pheaders@.len() == old(self).pheaders@.len(),
            match r {
                Ok(_) => exists|mid: Seq<JifPheader>, d1: Deduper|
                    fractured_and_collected(
                        old(self).pheaders@,
                        old(self).ord_chunks@,
                        old(self).deduper,
                        mid,
                        d1,
                        final(self).pheaders@,
                        final(self).deduper,
                    ),
                Err(e) => {
                    &&& final(self).deduper == old(self).deduper
                    &&& exists|k: int|
                        #![trigger old(self).pheaders@[k]]
                        0 <= k < old(self).pheaders@.len() && (forall|i: int| 0 <= i < k ==> ph_refractured(
                            #[trigger] old(self).pheaders@[i],
                            final(self).pheaders@[i],
                            old(self).ord_chunks@,
                            old(self).deduper,
                            Ok(()),
                        )) && ph_refractured(
                            old(self).pheaders@[k],
                            final(self).pheaders@[k],
                            old(self).ord_chunks@,
                            old(self).deduper,
                            Err(e),
                        ) && (forall|i: int| k < i < old(self).pheaders@.len() ==> #[trigger] final(self).pheaders@[i]
                            == old(self).pheaders@[i])
                },
            },
    {
        let ghost orig = self.pheaders@;
        let ghost chunks = self.ord_chunks@;
        let ghost d0 = self.deduper;
        let n = self.pheaders.len();
        let mut i: usize = 0;
        while i < n
            invariant
                i <= n,
                n == orig.len(),
                orig == old(self).pheaders@,
                chunks == old(self).ord_chunks@,
                d0 == old(self).deduper,
                self.ord_chunks == old(self).ord_chunks,
                self.deduper == d0,
                self.pheaders@.len() == n,
                forall|j: int| 0 <= j < n ==> ph_fracturable(#[trigger] orig[j], chunks, d0),
                forall|j: int| 0 <= j < i ==> ph_refractured(#[trigger] orig[j], self.pheaders@[j], chunks, d0, Ok(())),
                forall|j: int| i <= j < n ==> #[trigger] self.pheaders@[j] == orig[j],
            decreases n - i,
        {
            let ghost before = self.pheaders@;
            let res = self.pheaders[i].fracture_by_ord_chunk(self.ord_chunks.as_slice(), &self.deduper);
            proof {
                assert forall|j: int| i < j < n implies #[trigger] self.pheaders@[j] == orig[j] by {
                    assert(self.pheaders@[j] == before[j]);
                }
                assert forall|j: int| 0 <= j < i implies ph_refractured(#[trigger] orig[j], self.pheaders@[j], chunks, d0, Ok(())) by {
                    assert(self.pheaders@[j] == before[j]);
                }
            }
            match res {
                Ok(()) => {},
                Err(e) => {
                    return Err(e);
                },
            }
            i = i + 1;
        }
        let ghost mid = self.pheaders@;
        proof {
            assert forall|j: int| 0 <= j < n implies (#[trigger] mid[j]).wf() by {
                lemma_refractured_wf(orig[j], mid[j], chunks, d0);
            }
        }
        let mut i: usize = 0;
        while i < n
            invariant
                i <= n,
                n == mid.len(),
                self.pheaders@.len() == n,
                self.ord_chunks == old(self).ord_chunks,
                forall|j: int| 0 <= j < n ==> (#[trigger] mid[j]).wf(),
                forall|j: int| 0 <= j < i ==> deduped(#[trigger] mid[j], self.pheaders@[j], self.deduper),
                forall|j: int| 0 <= j < i ==> (#[trigger] self.pheaders@[j]).wf(),
                forall|j: int| i <= j < n ==> #[trigger] self.pheaders@[j] == mid[j],
                forall|t: DedupToken| #[trigger] d0.has_token(t) ==> self.deduper.has_token(t) && self.deduper.data_of(t)
                    == d0.data_of(t),
            decreases n - i,
        {
            let ghost before = self.pheaders@;
            let ghost d_before = self.deduper;
            self.pheaders[i].dedup(&mut self.deduper);
            proof {
                assert forall|j: int| i < j < n implies #[trigger] self.pheaders@[j] == mid[j] by {
                    assert(self.pheaders@[j] == before[j]);
                }
                assert forall|j: int| 0 <= j < i + 1 implies deduped(#[trigger] mid[j], self.pheaders@[j], self.deduper)
                    && self.pheaders@[j].wf() by {
                    if j < i {
                        assert(self.pheaders@[j] == before[j]);
                        lemma_deduped_grows(mid[j], self.pheaders@[j], d_before, self.deduper);
                    }
                }
            }
            i = i + 1;
        }
        let ghost d1 = self.deduper;
        let mut tokens: Vec<DedupToken> = Vec::new();
        let mut i: usize = 0;
        while i < n
            invariant
                i <= n,
                self.pheaders@.len() == n,
                forall|j: int| 0 <= j < n ==> (#[trigger] self.pheaders@[j]).wf(),
                tokens@ == tokens_in(self.pheaders@.take(i as int)),
            decreases n - i,
        {
            proof {
                assert(self.pheaders@.take(i + 1).drop_last() =~= self.pheaders@.take(i as int));
                assert(self.pheaders@.take(i + 1).last() == self.pheaders@[i as int]);
            }
            self.pheaders[i].add_tokens_in_use(&mut tokens);
            i = i + 1;
        }
        assert(self.pheaders@.take(n as int) =~= self.pheaders@);
        self.deduper.garbage_collect(&tokens);
        assert(collected(d1, self.deduper, tokens_in(self.pheaders@)));
        assert(fractured_and_collected(orig, chunks, d0, mid, d1, self.pheaders@, self.deduper));
        Ok(())
    }
}

} // verus!
