//! Data deduplication logic
//!
//! The deduper holds the data segments of a JIF. Each distinct segment is stored once, and is
//! named by a [`DedupToken`]: inserting a segment equal to one already held gives back the token
//! of the segment already held.

use vstd::prelude::*;
use crate::utils::bytes_eq;

verus! {

/// Tokens issued by a [`Deduper`]
///
/// This new-type ensures that unless there is a bug (i.e., re-using tokens
/// from a wrong deduper into the new one) any data request will succeed
#[derive(Copy, Clone, Debug, PartialEq, Eq, PartialOrd, Ord, Hash, Structural)]
pub struct DedupToken(pub(crate) usize);

impl DedupToken {
    /// The slot of the deduper this token names
    pub closed spec fn index(self) -> int {
        self.0 as int
    }
}

/// The token that names slot `i`
pub closed spec fn token_at(i: int) -> DedupToken {
    DedupToken(i as usize)
}

/// The token of a slot names that slot
pub proof fn lemma_token_at_index(i: int)
    requires
        0 <= i <= usize::MAX,
    ensures
        token_at(i).index() == i,
{
}

/// A token is the token of the slot it names
pub proof fn lemma_token_at(t: DedupToken)
    ensures
        token_at(t.index()) == t,
{
}

/// The data aggregator to de-duplicate data segments
///
/// This holds all the non-owned interval data and is used to deduplicate them
#[derive(Debug)]
pub struct Deduper {
    /// the canonical copy of each segment (a released slot holds nothing)
    canonical: Vec<Option<Vec<u8>>>,
}

/// The contents of a slot, as bytes
pub open spec fn slot_view(o: Option<Vec<u8>>) -> Option<Seq<u8>> {
    match o {
        Some(v) => Some(v@),
        None => None,
    }
}

impl View for Deduper {
    type V = Seq<Option<Seq<u8>>>;

    closed spec fn view(&self) -> Seq<Option<Seq<u8>>> {
        self.canonical@.map_values(|o: Option<Vec<u8>>| slot_view(o))
    }
}

/// The contents of a deduper built from the data segments `m` (inserted in order), and the
/// token of each segment
pub open spec fn dedup_of(m: Seq<((u64, u64), Vec<u8>)>) -> (Seq<Option<Seq<u8>>>, Seq<((u64, u64), DedupToken)>)
    decreases m.len(),
{
    if m.len() == 0 {
        (Seq::empty(), Seq::empty())
    } else {
        let prev = dedup_of(m.drop_last());
        let ins = spec_insert(prev.0, m.last().1@);
        (ins.0, prev.1.push((m.last().0, token_at(ins.1))))
    }
}

impl Deduper {
    /// Whether `token` names a segment held by this deduper
    pub open spec fn has_token(&self, token: DedupToken) -> bool {
        0 <= token.index() < self@.len() && self@[token.index()] is Some
    }

    /// The segment named by `token`
    pub open spec fn data_of(&self, token: DedupToken) -> Seq<u8> {
        self@[token.index()]->Some_0
    }

    /// Whether some slot holds `data`
    pub open spec fn holds(&self, data: Seq<u8>) -> bool {
        exists|i: int| 0 <= i < self@.len() && self@[i] == Some(data)
    }

    /// An empty deduper
    pub fn new() -> (d: Self)
        ensures
            d@ == Seq::<Option<Seq<u8>>>::empty(),
    {
        let d = Deduper { canonical: Vec::new() };
        assert(d@ =~= Seq::<Option<Seq<u8>>>::empty());
        d
    }

    /// An empty deduper, with room for `n` segments
    pub fn with_capacity(n: usize) -> (d: Self)
        ensures
            d@ == Seq::<Option<Seq<u8>>>::empty(),
    {
        let d = Deduper { canonical: Vec::with_capacity(n) };
        assert(d@ =~= Seq::<Option<Seq<u8>>>::empty());
        d
    }

    /// Find a slot holding `data`
    fn find(&self, data: &[u8]) -> (r: Option<usize>)
        ensures
            match r {
                Some(i) => spec_find(self@, data@, 0) == Some(i as int),
                None => spec_find(self@, data@, 0) is None,
            },
    {
        let mut i: usize = 0;
        while i < self.canonical.len()
            invariant
                i <= self.canonical@.len(),
                self@.len() == self.canonical@.len(),
                spec_find(self@, data@, 0) == spec_find(self@, data@, i as int),
            decreases self.canonical@.len() - i,
        {
            assert(self@[i as int] == slot_view(self.canonical@[i as int]));
            match &self.canonical[i] {
                Some(v) => {
                    if bytes_eq(v.as_slice(), data) {
                        return Some(i);
                    }
                },
                None => {},
            }
            i = i + 1;
        }
        None
    }

    /// Store a segment, reusing the slot of an equal segment if there is one
    pub fn insert(&mut self, data: Vec<u8>) -> (token: DedupToken)
        ensures
            (final(self)@, token.index()) == spec_insert(old(self)@, data@),
            final(self).has_token(token),
            final(self).data_of(token) == data@,
    {
        proof {
            lemma_find_holds(self@, data@, 0);
        }
        match self.find(data.as_slice()) {
            Some(i) => DedupToken(i),
            None => {
                let idx = self.canonical.len();
                let ghost d = data@;
                self.canonical.push(Some(data));
                assert(self@ =~= old(self)@.push(Some(d)));
                DedupToken(idx)
            },
        }
    }

    /// The segment named by a token, if the deduper holds one
    pub fn try_get(&self, token: DedupToken) -> (r: Option<&[u8]>)
        ensures
            match r {
                Some(d) => self.has_token(token) && d@ == self.data_of(token),
                None => !self.has_token(token),
            },
    {
        if token.0 < self.canonical.len() {
            assert(self@[token.index()] == slot_view(self.canonical@[token.index()]));
            match &self.canonical[token.0] {
                Some(v) => Some(v.as_slice()),
                None => None,
            }
        } else {
            None
        }
    }

    /// Access the segment named by a token
    pub fn get(&self, token: DedupToken) -> (r: &[u8])
        requires
            self.has_token(token),
        ensures
            r@ == self.data_of(token),
    {
        assert(self@[token.index()] == slot_view(self.canonical@[token.index()]));
        match &self.canonical[token.0] {
            Some(v) => v.as_slice(),
            None => {
                proof {
                    assert(false);
                }
                &[]
            },
        }
    }

    /// Release every segment whose token is not in `tokens_in_use`
    pub fn garbage_collect(&mut self, tokens_in_use: &Vec<DedupToken>)
        ensures
            final(self)@.len() == old(self)@.len(),
            forall|i: int|
                0 <= i < old(self)@.len() ==> #[trigger] final(self)@[i] == if (exists|k: int|
                    0 <= k < tokens_in_use@.len() && tokens_in_use@[k].index() == i) {
                    old(self)@[i]
                } else {
                    None
                },
    {
        let ghost old_view = self@;
        let mut i: usize = 0;
        while i < self.canonical.len()
            invariant
                i <= self.canonical@.len(),
                self.canonical@.len() == old_view.len(),
                self@.len() == old_view.len(),
                forall|j: int|
                    0 <= j < old_view.len() ==> #[trigger] self@[j] == if j < i {
                        if (exists|k: int|
                            0 <= k < tokens_in_use@.len() && tokens_in_use@[k].index() == j) {
                            old_view[j]
                        } else {
                            None
                        }
                    } else {
                        old_view[j]
                    },
            decreases self.canonical@.len() - i,
        {
            let mut used = false;
            let mut k: usize = 0;
            while k < tokens_in_use.len()
                invariant
                    k <= tokens_in_use@.len(),
                    i < self.canonical@.len(),
                    used == (exists|m: int| 0 <= m < k && tokens_in_use@[m].index() == i),
                decreases tokens_in_use@.len() - k,
            {
                if tokens_in_use[k].0 == i {
                    used = true;
                }
                k = k + 1;
            }
            let ghost prev = self@;
            let ghost prev_c = self.canonical@;
            if !used {
                self.canonical.set(i, None);
            }
            proof {
                assert forall|j: int| 0 <= j < old_view.len() && j != i implies #[trigger] self@[j] == prev[j] by {
                    assert(self@[j] == slot_view(self.canonical@[j]));
                    assert(prev[j] == slot_view(prev_c[j]));
                }
                assert(self@[i as int] == slot_view(self.canonical@[i as int]));
                assert(prev[i as int] == slot_view(prev_c[i as int]));
                assert forall|j: int| 0 <= j < old_view.len() implies #[trigger] self@[j] == if j
                    < i + 1 {
                    if (exists|k: int|
                        0 <= k < tokens_in_use@.len() && tokens_in_use@[k].index() == j) {
                        old_view[j]
                    } else {
                        None
                    }
                } else {
                    old_view[j]
                } by {
                    assert(self@[j] == slot_view(self.canonical@[j]));
                }
            }
            i = i + 1;
        }
    }

    /// Build a deduper out of the data segments of a file, along with the token of each
    /// segment (in the order of the segments)
    pub fn from_data_map(data_map: Vec<((u64, u64), Vec<u8>)>) -> (r: (
        Self,
        Vec<((u64, u64), DedupToken)>,
    ))
        ensures
            r.0@ == dedup_of(data_map@).0,
            r.1@ == dedup_of(data_map@).1,
            r.1@.len() == data_map@.len(),
            forall|i: int|
                0 <= i < data_map@.len() ==> (#[trigger] r.1@[i]).0 == data_map@[i].0
                    && r.0.has_token(r.1@[i].1) && r.0.data_of(r.1@[i].1) == data_map@[i].1@,
    {
        let mut deduper = Self::with_capacity(data_map.len());
        let mut offset_index: Vec<((u64, u64), DedupToken)> = Vec::new();
        let mut data_map = data_map;
        let ghost orig = data_map@;
        let mut i: usize = 0;
        let n = data_map.len();
        // take the entries out from the back, and restore the original order at the end
        let mut rev: Vec<((u64, u64), Vec<u8>)> = Vec::new();
        while data_map.len() > 0
            invariant
                rev@.len() + data_map@.len() == orig.len(),
                data_map@ == orig.subrange(0, data_map@.len() as int),
                forall|k: int|
                    0 <= k < rev@.len() ==> #[trigger] rev@[k] == orig[orig.len() - 1 - k],
            decreases data_map@.len(),
        {
            let e = data_map.pop().unwrap();
            rev.push(e);
        }
        while rev.len() > 0
            invariant
                i + rev@.len() == orig.len(),
                n == orig.len(),
                forall|k: int|
                    0 <= k < rev@.len() ==> #[trigger] rev@[k] == orig[orig.len() - 1 - k],
                offset_index@.len() == i,
                deduper@.len() <= i,
                deduper@ == dedup_of(orig.take(i as int)).0,
                offset_index@ == dedup_of(orig.take(i as int)).1,
                forall|k: int|
                    0 <= k < i ==> (#[trigger] offset_index@[k]).0 == orig[k].0
                        && deduper.has_token(offset_index@[k].1) && deduper.data_of(
                        offset_index@[k].1,
                    ) == orig[k].1@,
            decreases rev@.len(),
        {
            let (range, data) = rev.pop().unwrap();
            let ghost before = deduper@;
            let ghost e = orig[i as int];
            assert((range, data) == e);
            let token = deduper.insert(data);
            offset_index.push((range, token));
            proof {
                lemma_token_at(token);
                assert(orig.take(i + 1).drop_last() =~= orig.take(i as int));
                assert(orig.take(i + 1).last() == e);
                assert forall|k: int| 0 <= k < i implies deduper.has_token(
                    (#[trigger] offset_index@[k]).1,
                ) && deduper.data_of(offset_index@[k].1) == orig[k].1@ by {
                    assert(before.len() <= deduper@.len());
                    assert(deduper@[offset_index@[k].1.index()] == before[offset_index@[k].1.index()]);
                }
            }
            i = i + 1;
        }
        assert(orig.take(i as int) =~= orig);
        (deduper, offset_index)
    }

    /// Take out the data of each token, to be laid out at the given (contiguous) ranges
    pub fn destructure(self, token_map: &Vec<(DedupToken, (u64, u64))>) -> (r: Vec<((u64, u64), Vec<u8>)>)
        requires
            forall|k: int| 0 <= k < token_map@.len() ==> self.has_token(#[trigger] token_map@[k].0),
            forall|k: int|
                0 <= k < token_map@.len() - 1 ==> (#[trigger] token_map@[k]).1.1 == token_map@[k + 1].1.0,
        ensures
            r@.len() == token_map@.len(),
            forall|k: int|
                0 <= k < token_map@.len() ==> (#[trigger] r@[k]).0 == token_map@[k].1 && r@[k].1@
                    == self.data_of(token_map@[k].0),
    {
        let mut out: Vec<((u64, u64), Vec<u8>)> = Vec::new();
        let mut k: usize = 0;
        while k < token_map.len()
            invariant
                k <= token_map@.len(),
                out@.len() == k,
                forall|j: int| 0 <= j < token_map@.len() ==> self.has_token(#[trigger] token_map@[j].0),
                forall|j: int|
                    0 <= j < k ==> (#[trigger] out@[j]).0 == token_map@[j].1 && out@[j].1@
                        == self.data_of(token_map@[j].0),
            decreases token_map@.len() - k,
        {
            let (tok, range) = token_map[k];
            let data = crate::utils::copy_bytes(self.get(tok));
            out.push((range, data));
            k = k + 1;
        }
        out
    }
}

impl Default for Deduper {
    fn default() -> (d: Self)
        ensures
            d@ == Seq::<Option<Seq<u8>>>::empty(),
    {
        Deduper::new()
    }
}

/// The first slot, at or after `from`, that holds `data`
pub open spec fn spec_find(s: Seq<Option<Seq<u8>>>, data: Seq<u8>, from: int) -> Option<int>
    decreases s.len() - from,
{
    if from < 0 || from >= s.len() {
        None
    } else if s[from] == Some(data) {
        Some(from)
    } else {
        spec_find(s, data, from + 1)
    }
}

/// The slots after an insertion of `data`, and the slot that names it
pub open spec fn spec_insert(s: Seq<Option<Seq<u8>>>, data: Seq<u8>) -> (Seq<Option<Seq<u8>>>, int) {
    match spec_find(s, data, 0) {
        Some(i) => (s, i),
        None => (s.push(Some(data)), s.len() as int),
    }
}

/// A found slot holds the data
pub proof fn lemma_find_holds(s: Seq<Option<Seq<u8>>>, data: Seq<u8>, from: int)
    requires
        0 <= from,
    ensures
        spec_find(s, data, from) matches Some(i) ==> from <= i < s.len() && s[i] == Some(data),
        spec_find(s, data, from) is None ==> forall|j: int| from <= j < s.len() ==> s[j] != Some(data),
    decreases s.len() - from,
{
    if from < s.len() && s[from] != Some(data) {
        lemma_find_holds(s, data, from + 1);
    }
}

/// An insertion keeps every slot that was there before
pub proof fn lemma_insert_keeps(s: Seq<Option<Seq<u8>>>, data: Seq<u8>)
    ensures
        spec_insert(s, data).0.len() >= s.len(),
        forall|i: int| 0 <= i < s.len() ==> #[trigger] spec_insert(s, data).0[i] == s[i],
        0 <= spec_insert(s, data).1 < spec_insert(s, data).0.len(),
        spec_insert(s, data).0[spec_insert(s, data).1] == Some(data),
{
    lemma_find_holds(s, data, 0);
}

/// Inserting a segment that an earlier insertion already stored changes nothing and gives back
/// the same token: equal segments are stored once.
pub proof fn law_insert_idempotent(s: Seq<Option<Seq<u8>>>, data: Seq<u8>)
    ensures
        ({
            let (s1, t1) = spec_insert(s, data);
            let (s2, t2) = spec_insert(s1, data);
            &&& s2 == s1
            &&& t2 == t1
            &&& 0 <= t1 < s1.len()
            &&& s1[t1] == Some(data)
        }),
{
    lemma_find_holds(s, data, 0);
    let (s1, t1) = spec_insert(s, data);
    lemma_find_holds(s1, data, 0);
    match spec_find(s, data, 0) {
        Some(i) => {},
        None => {
            assert(s1[t1] == Some(data));
            match spec_find(s1, data, 0) {
                Some(j) => {
                    if j < t1 {
                        assert(s1[j] == s[j]);
                    }
                },
                None => {},
            }
        },
    }
}

} // verus!
