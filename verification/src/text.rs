//! Text helpers: the characters of a string, whitespace trimming and unsigned integer parsing,
//! with the rules of the standard library

use vstd::prelude::*;

verus! {

/// The characters of a string
pub fn str_chars(s: &str) -> (r: Vec<char>)
    ensures
        r@ == s@,
{
    broadcast use vstd::string::axiom_spec_iter;
    let mut v: Vec<char> = Vec::new();
    for c in it: s.chars()
        invariant
            it.seq() == s@,
            v@ == it.seq().take(it.index() as int),
    {
        v.push(c);
        assert(v@ =~= it.seq().take(it.index() + 1));
    }
    assert(v@ =~= s@);
    v
}

/// Unicode `White_Space` characters, the ones `char::is_whitespace` accepts
pub open spec fn spec_is_whitespace(c: char) -> bool {
    let u = c as u32;
    ||| 0x9 <= u <= 0xd
    ||| u == 0x20
    ||| u == 0x85
    ||| u == 0xa0
    ||| u == 0x1680
    ||| 0x2000 <= u <= 0x200a
    ||| u == 0x2028
    ||| u == 0x2029
    ||| u == 0x202f
    ||| u == 0x205f
    ||| u == 0x3000
}

/// Whether `c` is whitespace
pub fn is_whitespace(c: char) -> (r: bool)
    ensures
        r == spec_is_whitespace(c),
{
    let u = c as u32;
    (0x9 <= u && u <= 0xd) || u == 0x20 || u == 0x85 || u == 0xa0 || u == 0x1680 || (0x2000 <= u && u <= 0x200a)
        || u == 0x2028 || u == 0x2029 || u == 0x202f || u == 0x205f || u == 0x3000
}

/// `s` without its leading whitespace
pub open spec fn trim_front(s: Seq<char>) -> Seq<char>
    decreases s.len(),
{
    if s.len() > 0 && spec_is_whitespace(s[0]) {
        trim_front(s.drop_first())
    } else {
        s
    }
}

/// `s` without its trailing whitespace
pub open spec fn trim_back(s: Seq<char>) -> Seq<char>
    decreases s.len(),
{
    if s.len() > 0 && spec_is_whitespace(s.last()) {
        trim_back(s.drop_last())
    } else {
        s
    }
}

/// `s` without its leading and trailing whitespace (what `str::trim` gives)
pub open spec fn spec_trim(s: Seq<char>) -> Seq<char> {
    trim_back(trim_front(s))
}

/// The bounds, within `s[from..to]`, of its part without leading and trailing whitespace
pub fn trim_bounds(s: &Vec<char>, from: usize, to: usize) -> (r: (usize, usize))
    requires
        from <= to <= s@.len(),
    ensures
        from <= r.0 <= r.1 <= to,
        s@.subrange(r.0 as int, r.1 as int) == spec_trim(s@.subrange(from as int, to as int)),
{
    let mut lo = from;
    while lo < to && is_whitespace(s[lo])
        invariant
            from <= lo <= to <= s@.len(),
            trim_front(s@.subrange(from as int, to as int)) == trim_front(s@.subrange(lo as int, to as int)),
        decreases to - lo,
    {
        assert(s@.subrange(lo as int, to as int).drop_first() =~= s@.subrange(lo + 1, to as int));
        lo = lo + 1;
    }
    let mut hi = to;
    while hi > lo && is_whitespace(s[hi - 1])
        invariant
            from <= lo <= hi <= to <= s@.len(),
            trim_back(s@.subrange(lo as int, to as int)) == trim_back(s@.subrange(lo as int, hi as int)),
        decreases hi,
    {
        assert(s@.subrange(lo as int, hi as int).drop_last() =~= s@.subrange(lo as int, hi - 1));
        hi = hi - 1;
    }
    (lo, hi)
}

/// Why an unsigned integer could not be parsed (the kinds the standard library reports)
#[derive(Debug, Clone, Copy, PartialEq, Eq, Structural)]
pub enum IntErrorKind {
    /// Nothing to parse
    Empty,
    /// A character that is not a digit
    InvalidDigit,
    /// The number does not fit a `usize`
    PosOverflow,
}

/// The value of a digit in a radix of at most 36, if `c` is one
pub open spec fn digit_value(c: char, radix: u32) -> Option<int> {
    let u = c as u32;
    let d: int = if 0x30 <= u <= 0x39 {
        u - 0x30
    } else if 0x61 <= u <= 0x7a {
        u - 0x61 + 10
    } else if 0x41 <= u <= 0x5a {
        u - 0x41 + 10
    } else {
        99
    };
    if d < radix {
        Some(d)
    } else {
        None
    }
}

/// The value of a digit, if `c` is one
fn to_digit(c: char, radix: u32) -> (r: Option<u32>)
    requires
        radix <= 36,
    ensures
        match digit_value(c, radix) {
            Some(d) => r == Some(d as u32),
            None => r is None,
        },
{
    let u = c as u32;
    let d: u32 = if 0x30 <= u && u <= 0x39 {
        u - 0x30
    } else if 0x61 <= u && u <= 0x7a {
        u - 0x61 + 10
    } else if 0x41 <= u && u <= 0x5a {
        u - 0x41 + 10
    } else {
        99
    };
    if d < radix {
        Some(d)
    } else {
        None
    }
}

/// Reading digits left to right onto `acc`: the first character that is not a digit, or the
/// first step past `usize::MAX`, stops it
pub open spec fn parse_digits(s: Seq<char>, radix: u32, acc: int) -> Result<int, IntErrorKind>
    decreases s.len(),
{
    if s.len() == 0 {
        Ok(acc)
    } else {
        match digit_value(s[0], radix) {
            None => Err(IntErrorKind::InvalidDigit),
            Some(d) => if acc * radix + d > usize::MAX {
                Err(IntErrorKind::PosOverflow)
            } else {
                parse_digits(s.drop_first(), radix, acc * radix + d)
            },
        }
    }
}

/// Parsing an unsigned integer, as the standard library does: an optional leading `+`, then at
/// least one digit
pub open spec fn spec_parse_uint(s: Seq<char>, radix: u32) -> Result<int, IntErrorKind> {
    if s.len() == 0 {
        Err(IntErrorKind::Empty)
    } else if s.len() == 1 && (s[0] == '+' || s[0] == '-') {
        Err(IntErrorKind::InvalidDigit)
    } else if s[0] == '+' {
        parse_digits(s.drop_first(), radix, 0)
    } else {
        parse_digits(s, radix, 0)
    }
}

/// A parsed value fits a `usize`
pub proof fn lemma_parse_digits_bound(s: Seq<char>, radix: u32, acc: int)
    requires
        0 <= acc <= usize::MAX,
    ensures
        parse_digits(s, radix, acc) matches Ok(v) ==> 0 <= v <= usize::MAX,
    decreases s.len(),
{
    if s.len() > 0 {
        if let Some(d) = digit_value(s[0], radix) {
            if acc * radix + d <= usize::MAX {
                assert(acc * radix >= 0) by (nonlinear_arith)
                    requires
                        acc >= 0,
                ;
                lemma_parse_digits_bound(s.drop_first(), radix, acc * radix + d);
            }
        }
    }
}

/// Parse the unsigned integer in `s[from..to]`, in a radix between 2 and 36
pub fn parse_uint(s: &Vec<char>, from: usize, to: usize, radix: u32) -> (r: Result<usize, IntErrorKind>)
    requires
        from <= to <= s@.len(),
        2 <= radix <= 36,
    ensures
        match spec_parse_uint(s@.subrange(from as int, to as int), radix) {
            Ok(v) => r == Ok::<usize, IntErrorKind>(v as usize),
            Err(e) => r == Err::<usize, IntErrorKind>(e),
        },
{
    let ghost t = s@.subrange(from as int, to as int);
    if from == to {
        return Err(IntErrorKind::Empty);
    }
    if to - from == 1 && (s[from] == '+' || s[from] == '-') {
        return Err(IntErrorKind::InvalidDigit);
    }
    let start = if s[from] == '+' {
        from + 1
    } else {
        from
    };
    let ghost body = s@.subrange(start as int, to as int);
    assert(s[from as int] == '+' ==> body =~= t.drop_first());
    assert(s[from as int] != '+' ==> body =~= t);
    let mut acc: usize = 0;
    let mut k = start;
    while k < to
        invariant
            start <= k <= to <= s@.len(),
            2 <= radix <= 36,
            parse_digits(body, radix, 0) == parse_digits(s@.subrange(k as int, to as int), radix, acc as int),
            body == s@.subrange(start as int, to as int),
            spec_parse_uint(s@.subrange(from as int, to as int), radix) == parse_digits(body, radix, 0),
        decreases to - k,
    {
        assert(s@.subrange(k as int, to as int)[0] == s@[k as int]);
        assert(s@.subrange(k as int, to as int).drop_first() =~= s@.subrange(k + 1, to as int));
        let d = match to_digit(s[k], radix) {
            Some(d) => d,
            None => {
                return Err(IntErrorKind::InvalidDigit);
            },
        };
        let m = match acc.checked_mul(radix as usize) {
            Some(m) => m,
            None => {
                assert(acc * radix + d > usize::MAX);
                return Err(IntErrorKind::PosOverflow);
            },
        };
        acc = match m.checked_add(d as usize) {
            Some(a) => a,
            None => {
                return Err(IntErrorKind::PosOverflow);
            },
        };
        k = k + 1;
    }
    assert(s@.subrange(k as int, to as int).len() == 0);
    Ok(acc)
}

} // verus!
