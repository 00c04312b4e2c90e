//! The format of the Junction tracer's output: a log of timestamped page accesses, one per line
//! (`<usecs>: <address>`)

use vstd::prelude::*;
use core::cmp::Ordering;
use crate::text::{IntErrorKind, parse_uint, spec_parse_uint, spec_trim, str_chars, trim_bounds};

verus! {

/// Flag of an access address whose page is written to
pub const ACCESS_WRITE_FLAG: u64 = 0x1000_0000_0000_0000;

/// Mask of the address bits of an access address
pub const ACCESS_FLAG_MASK: u64 = 0x0fff_ffff_ffff_ffff;

/// An entry in the log of recorded adresses in a Junction tracer output
#[derive(Debug, Copy, Clone, Hash, PartialEq, Eq, Structural)]
pub struct TimestampedAccess {
    pub usecs: usize,
    pub addr: usize,
}

/// Error obtained when parsing a [`TimestampedAccess`] from a string
#[derive(Debug, Clone, PartialEq, Eq)]
pub enum ParseTimestampedAccessError {
    /// The line has no `:`
    MissingDelimiter(String),
    /// The timestamp is not an unsigned integer
    BadTimestamp(IntErrorKind),
    /// The address is not an unsigned integer (decimal, or hexadecimal after `0x`)
    BadAddr(IntErrorKind),
}

/// Error obtained when reading a trace
#[derive(Debug, Clone, PartialEq, Eq)]
pub enum TraceReadError {
    /// A line could not be parsed
    ParseError { line: usize, error: ParseTimestampedAccessError },
}

impl TimestampedAccess {
    /// Make the address page aligned (we only care about pages when prefetching)
    pub fn truncate_addr(&mut self)
        ensures
            *final(self) == truncated(*old(self)),
    {
        self.addr = self.addr & !0xfff;
    }

    /// The raw address (even if it has certain metadata bits turned on)
    pub fn raw_addr(&self) -> (r: usize)
        ensures
            r == self.addr,
    {
        self.addr
    }

    /// The actual memory address (without the metadata bits)
    pub fn masked_addr(&self) -> (r: usize)
        ensures
            r == ((self.addr as u64) & ACCESS_FLAG_MASK) as usize,
    {
        ((self.addr as u64) & ACCESS_FLAG_MASK) as usize
    }

    /// Parse a line of the log of accesses: `<usecs>: <address>`, both surrounded by optional
    /// whitespace, the address decimal or hexadecimal (after `0x`)
    pub fn parse(s: &str) -> (r: Result<Self, ParseTimestampedAccessError>)
        ensures
            parse_agrees(r, s@),
    {
        let cs = str_chars(s);
        let mut i: usize = 0;
        while i < cs.len() && cs[i] != ':'
            invariant
                i <= cs@.len(),
                find_char(cs@, ':', 0) == find_char(cs@, ':', i as int),
            decreases cs@.len() - i,
        {
            i = i + 1;
        }
        if i == cs.len() {
            return Err(ParseTimestampedAccessError::MissingDelimiter(s.to_owned()));
        }
        let n = cs.len();
        let (a, b) = trim_bounds(&cs, 0, i);
        let usecs = match parse_uint(&cs, a, b, 10) {
            Ok(v) => v,
            Err(e) => {
                return Err(ParseTimestampedAccessError::BadTimestamp(e));
            },
        };
        let (c, d) = trim_bounds(&cs, i + 1, n);
        assert(cs@.subrange(0, i as int) =~= cs@.take(i as int));
        assert(cs@.subrange(i + 1, n as int) =~= cs@.skip(i + 1));
        let ghost t = cs@.subrange(c as int, d as int);
        let addr = if d - c >= 2 && cs[c] == '0' && cs[c + 1] == 'x' {
            assert(t.skip(2) =~= cs@.subrange(c + 2, d as int));
            parse_uint(&cs, c + 2, d, 16)
        } else {
            parse_uint(&cs, c, d, 10)
        };
        match addr {
            Ok(addr) => Ok(TimestampedAccess { usecs, addr }),
            Err(e) => Err(ParseTimestampedAccessError::BadAddr(e)),
        }
    }
}

impl core::str::FromStr for TimestampedAccess {
    type Err = ParseTimestampedAccessError;

    fn from_str(s: &str) -> (r: Result<Self, Self::Err>)
        ensures
            parse_agrees(r, s@),
    {
        Self::parse(s)
    }
}

impl PartialOrd for TimestampedAccess {
    fn partial_cmp(&self, other: &Self) -> (r: Option<Ordering>) {
        if self.usecs < other.usecs {
            Some(Ordering::Less)
        } else if self.usecs > other.usecs {
            Some(Ordering::Greater)
        } else if self.addr == other.addr {
            Some(Ordering::Equal)
        } else {
            None
        }
    }
}

impl vstd::std_specs::cmp::PartialOrdSpecImpl for TimestampedAccess {
    open spec fn obeys_partial_cmp_spec() -> bool {
        true
    }

    open spec fn partial_cmp_spec(&self, other: &Self) -> Option<Ordering> {
        if self.usecs < other.usecs {
            Some(Ordering::Less)
        } else if self.usecs > other.usecs {
            Some(Ordering::Greater)
        } else if self.addr == other.addr {
            Some(Ordering::Equal)
        } else {
            None
        }
    }
}

/// The access with its address made page aligned
pub open spec fn truncated(t: TimestampedAccess) -> TimestampedAccess {
    TimestampedAccess { usecs: t.usecs, addr: t.addr & !0xfffusize }
}

/// The first position of `c` in `s`, from `from` on
pub open spec fn find_char(s: Seq<char>, c: char, from: int) -> Option<int>
    decreases s.len() - from,
{
    if from < 0 || from >= s.len() {
        None
    } else if s[from] == c {
        Some(from)
    } else {
        find_char(s, c, from + 1)
    }
}

/// Parsing an address: hexadecimal after `0x`, decimal otherwise
pub open spec fn spec_parse_addr(t: Seq<char>) -> Result<int, IntErrorKind> {
    if t.len() >= 2 && t[0] == '0' && t[1] == 'x' {
        spec_parse_uint(t.skip(2), 16)
    } else {
        spec_parse_uint(t, 10)
    }
}

/// What parsing a line gives: `None` when it has no `:`; otherwise the timestamp before the
/// first `:` and the address after it, both trimmed
pub open spec fn spec_parse_access(s: Seq<char>) -> Option<Result<TimestampedAccess, ParseTimestampedAccessError>> {
    match find_char(s, ':', 0) {
        None => None,
        Some(i) => Some(
            match spec_parse_uint(spec_trim(s.take(i)), 10) {
                Err(e) => Err(ParseTimestampedAccessError::BadTimestamp(e)),
                Ok(u) => match spec_parse_addr(spec_trim(s.skip(i + 1))) {
                    Err(e) => Err(ParseTimestampedAccessError::BadAddr(e)),
                    Ok(a) => Ok(TimestampedAccess { usecs: u as usize, addr: a as usize }),
                },
            },
        ),
    }
}

/// The result of parsing agrees with the spec, the missing delimiter error quoting the line
pub open spec fn parse_agrees(r: Result<TimestampedAccess, ParseTimestampedAccessError>, s: Seq<char>) -> bool {
    match spec_parse_access(s) {
        None => r matches Err(ParseTimestampedAccessError::MissingDelimiter(m)) && m@ == s,
        Some(res) => r == res,
    }
}

/// The result of reading a trace agrees with parsing its lines: the accesses of all lines, or
/// the error of the first line that fails
pub open spec fn trace_agrees(r: Result<Vec<TimestampedAccess>, TraceReadError>, lines: Seq<String>) -> bool {
    match r {
        Ok(v) => v@.len() == lines.len() && forall|k: int|
            0 <= k < lines.len() ==> parse_agrees(Ok(#[trigger] v@[k]), lines[k]@),
        Err(TraceReadError::ParseError { line, error }) => {
            &&& line < lines.len()
            &&& parse_agrees(Err(error), lines[line as int]@)
            &&& forall|k: int| 0 <= k < line ==> (#[trigger] spec_parse_access(lines[k]@)) matches Some(Ok(_))
        },
    }
}

/// Read a full recorded trace, line by line
pub fn read_trace(lines: &Vec<String>) -> (r: Result<Vec<TimestampedAccess>, TraceReadError>)
    ensures
        trace_agrees(r, lines@),
{
    let mut out: Vec<TimestampedAccess> = Vec::new();
    let mut idx: usize = 0;
    while idx < lines.len()
        invariant
            idx <= lines@.len(),
            out@.len() == idx,
            forall|k: int| 0 <= k < idx ==> parse_agrees(Ok(#[trigger] out@[k]), lines@[k]@),
        decreases lines@.len() - idx,
    {
        match TimestampedAccess::parse(lines[idx].as_str()) {
            Ok(t) => {
                out.push(t);
            },
            Err(error) => {
                proof {
                    assert forall|k: int| 0 <= k < idx implies (#[trigger] spec_parse_access(lines@[k]@)) matches Some(Ok(_)) by {
                        assert(parse_agrees(Ok(out@[k]), lines@[k]@));
                    }
                }
                return Err(TraceReadError::ParseError { line: idx, error });
            },
        }
        idx = idx + 1;
    }
    Ok(out)
}

/// The first position of an access with address `a`
pub open spec fn index_of_addr(d: Seq<TimestampedAccess>, a: usize) -> Option<int>
    decreases d.len(),
{
    if d.len() == 0 {
        None
    } else {
        match index_of_addr(d.drop_last(), a) {
            Some(i) => Some(i),
            None => if d.last().addr == a {
                Some(d.len() - 1)
            } else {
                None
            },
        }
    }
}

/// The log deduplicated by page: for each page address, in order of first appearance, its
/// earliest access (the first of the earliest)
pub open spec fn dedup_log(log: Seq<TimestampedAccess>) -> Seq<TimestampedAccess>
    decreases log.len(),
{
    if log.len() == 0 {
        seq![]
    } else {
        let d = dedup_log(log.drop_last());
        let t = truncated(log.last());
        match index_of_addr(d, t.addr) {
            Some(i) => if t.usecs < d[i].usecs {
                d.update(i, t)
            } else {
                d
            },
            None => d.push(t),
        }
    }
}

/// Where an access goes in a list sorted by time: after all accesses at or before its time
pub open spec fn time_insert_pos(s: Seq<TimestampedAccess>, x: usize) -> int
    decreases s.len(),
{
    if s.len() == 0 {
        0
    } else if s.last().usecs <= x {
        s.len() as int
    } else {
        time_insert_pos(s.drop_last(), x)
    }
}

/// The stable sort of accesses by time
pub open spec fn sort_by_time(s: Seq<TimestampedAccess>) -> Seq<TimestampedAccess>
    decreases s.len(),
{
    if s.len() == 0 {
        seq![]
    } else {
        let r = sort_by_time(s.drop_last());
        let p = time_insert_pos(r, s.last().usecs);
        r.take(p) + seq![s.last()] + r.skip(p)
    }
}

/// The first position of an access with address `a`, found by a scan
fn find_addr(d: &Vec<TimestampedAccess>, a: usize) -> (r: Option<usize>)
    ensures
        match r {
            Some(j) => index_of_addr(d@, a) == Some(j as int),
            None => index_of_addr(d@, a) is None,
        },
{
    let mut i: usize = 0;
    while i < d.len()
        invariant
            i <= d@.len(),
            index_of_addr(d@.take(i as int), a) is None,
        decreases d@.len() - i,
    {
        proof {
            assert(d@.take(i + 1).drop_last() =~= d@.take(i as int));
        }
        if d[i].addr == a {
            proof {
                lemma_index_of_addr_prefix(d@, a, i + 1);
            }
            return Some(i);
        }
        i = i + 1;
    }
    assert(d@.take(i as int) =~= d@);
    None
}

/// The first match in a prefix that has one is the first match in the whole
proof fn lemma_index_of_addr_prefix(d: Seq<TimestampedAccess>, a: usize, k: int)
    requires
        0 <= k <= d.len(),
        index_of_addr(d.take(k), a) is Some,
    ensures
        index_of_addr(d, a) == index_of_addr(d.take(k), a),
    decreases d.len() - k,
{
    if k < d.len() {
        assert(d.take(k + 1).drop_last() =~= d.take(k));
        lemma_index_of_addr_prefix(d, a, k + 1);
    } else {
        assert(d.take(k) =~= d);
    }
}

/// A found position holds the address
proof fn lemma_index_of_addr(d: Seq<TimestampedAccess>, a: usize)
    ensures
        index_of_addr(d, a) matches Some(i) ==> 0 <= i < d.len() && d[i].addr == a,
    decreases d.len(),
{
    if d.len() > 0 {
        lemma_index_of_addr(d.drop_last(), a);
    }
}

/// The insertion position lies within the list
proof fn lemma_time_insert_pos_bounds(s: Seq<TimestampedAccess>, x: usize)
    ensures
        0 <= time_insert_pos(s, x) <= s.len(),
    decreases s.len(),
{
    if s.len() > 0 {
        lemma_time_insert_pos_bounds(s.drop_last(), x);
    }
}

/// The insertion position is the one after the last access at or before `x`
proof fn lemma_time_insert_pos_at(s: Seq<TimestampedAccess>, x: usize, j: int)
    requires
        0 <= j <= s.len(),
        forall|k: int| j <= k < s.len() ==> (#[trigger] s[k]).usecs > x,
        j == 0 || s[j - 1].usecs <= x,
    ensures
        time_insert_pos(s, x) == j,
    decreases s.len(),
{
    if s.len() > j {
        assert(s[s.len() - 1].usecs > x);
        assert forall|k: int| j <= k < s.drop_last().len() implies (#[trigger] s.drop_last()[k]).usecs > x by {
            assert(s.drop_last()[k] == s[k]);
        }
        if j > 0 {
            assert(s.drop_last()[j - 1] == s[j - 1]);
        }
        lemma_time_insert_pos_at(s.drop_last(), x, j);
    }
}

/// Dedup and sort a trace: one access per page, the earliest, in order of time
pub fn dedup_and_sort(log: Vec<TimestampedAccess>) -> (r: Vec<TimestampedAccess>)
    ensures
        r@ == sort_by_time(dedup_log(log@)),
{
    let mut d: Vec<TimestampedAccess> = Vec::new();
    let mut i: usize = 0;
    assert(log@.take(0) =~= Seq::<TimestampedAccess>::empty());
    while i < log.len()
        invariant
            i <= log@.len(),
            d@ == dedup_log(log@.take(i as int)),
        decreases log@.len() - i,
    {
        let mut t = log[i];
        t.truncate_addr();
        let ghost d0 = d@;
        proof {
            assert(log@.take(i + 1).drop_last() =~= log@.take(i as int));
            assert(log@.take(i + 1).last() == log@[i as int]);
            assert(t == truncated(log@[i as int]));
            assert(dedup_log(log@.take(i + 1)) == match index_of_addr(d0, t.addr) {
                Some(j) => if t.usecs < d0[j].usecs {
                    d0.update(j, t)
                } else {
                    d0
                },
                None => d0.push(t),
            });
            lemma_index_of_addr(d@, t.addr);
        }
        let found = find_addr(&d, t.addr);
        match found {
            Some(j) => {
                assert(index_of_addr(d0, t.addr) == Some(j as int));
                if t.usecs < d[j].usecs {
                    d.set(j, t);
                    assert(d@ == d0.update(j as int, t));
                }
            },
            None => {
                d.push(t);
            },
        }
        assert(d@ == dedup_log(log@.take(i + 1)));
        i = i + 1;
    }
    assert(log@.take(i as int) =~= log@);
    let mut out: Vec<TimestampedAccess> = Vec::new();
    let mut k: usize = 0;
    assert(d@.take(0) =~= Seq::<TimestampedAccess>::empty());
    while k < d.len()
        invariant
            k <= d@.len(),
            out@ == sort_by_time(d@.take(k as int)),
        decreases d@.len() - k,
    {
        let x = d[k];
        proof {
            lemma_sort_by_time_len(d@.take(k as int));
        }
        let mut j: usize = out.len();
        while j > 0 && out[j - 1].usecs > x.usecs
            invariant
                j <= out@.len(),
                forall|m: int| j <= m < out@.len() ==> (#[trigger] out@[m]).usecs > x.usecs,
            decreases j,
        {
            j = j - 1;
        }
        let ghost before = out@;
        proof {
            lemma_time_insert_pos_at(before, x.usecs, j as int);
            assert(d@.take(k + 1).drop_last() =~= d@.take(k as int));
            assert(d@.take(k + 1).last() == x);
        }
        out.insert(j, x);
        proof {
            assert(out@ =~= before.take(j as int) + seq![x] + before.skip(j as int));
        }
        k = k + 1;
    }
    assert(d@.take(k as int) =~= d@);
    out
}

/// Sorting keeps the count
proof fn lemma_sort_by_time_len(s: Seq<TimestampedAccess>)
    ensures
        sort_by_time(s).len() == s.len(),
    decreases s.len(),
{
    if s.len() > 0 {
        lemma_sort_by_time_len(s.drop_last());
        let r = sort_by_time(s.drop_last());
        lemma_time_insert_pos_bounds(r, s.last().usecs);
    }
}

} // verus!
