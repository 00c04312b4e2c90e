//! The prefetch windows, and how they are read and written

use vstd::prelude::*;
use vstd::bytes::*;
use crate::error::{PrefetchWindowError, PrefetchWindowResult, WindowingStrategyError, WindowingStrategyResult};
use crate::utils::{ByteReader, le32_at, le64_at, write_u32, write_u64};

verus! {

/// How the prefetched pages are split into windows
#[derive(Debug, PartialEq, Eq, Copy, Clone, Structural)]
pub enum WindowingStrategy {
    /// Don't prefetch
    NoPrefetch,
    /// Create a single prefetch window
    Single,
    /// Create N prefetch windows, based on time
    UniformTime(u32),
    /// Create N prefetch windows, based on volume (# pages)
    UniformVolume(u32),
    /// Linear time windowing: window i corresponds to t < (i + 1) * x (in microseconds)
    LinearTime(u32),
    /// Linear volume windowing: window i corresponds to #n_pages < (i + 1) * x
    LinearVolume(u32),
    /// Exponential time windowing: window i corresponds to t < x^(i + 1) (in microseconds)
    ExponentialTime(u32),
    /// Exponential volume windowing: window i corresponds to #n_pages < x^(i + 1)
    ExponentialVolume(u32),
}

impl Default for WindowingStrategy {
    fn default() -> (r: Self)
        ensures
            r == WindowingStrategy::NoPrefetch,
    {
        WindowingStrategy::NoPrefetch
    }
}

/// The identifier and argument a strategy is stored as
pub open spec fn strategy_fields(s: WindowingStrategy) -> (u32, u32) {
    match s {
        WindowingStrategy::NoPrefetch => (0, 0),
        WindowingStrategy::Single => (1, 0),
        WindowingStrategy::UniformTime(a) => (2, a),
        WindowingStrategy::UniformVolume(a) => (3, a),
        WindowingStrategy::LinearTime(a) => (4, a),
        WindowingStrategy::LinearVolume(a) => (5, a),
        WindowingStrategy::ExponentialTime(a) => (6, a),
        WindowingStrategy::ExponentialVolume(a) => (7, a),
    }
}

/// The strategy an identifier and argument name
pub open spec fn strategy_of(id: u32, arg: u32) -> WindowingStrategyResult<WindowingStrategy> {
    if id == 0 {
        Ok(WindowingStrategy::NoPrefetch)
    } else if id == 1 {
        Ok(WindowingStrategy::Single)
    } else if id == 2 {
        Ok(WindowingStrategy::UniformTime(arg))
    } else if id == 3 {
        Ok(WindowingStrategy::UniformVolume(arg))
    } else if id == 4 {
        Ok(WindowingStrategy::LinearTime(arg))
    } else if id == 5 {
        Ok(WindowingStrategy::LinearVolume(arg))
    } else if id == 6 {
        Ok(WindowingStrategy::ExponentialTime(arg))
    } else if id == 7 {
        Ok(WindowingStrategy::ExponentialVolume(arg))
    } else {
        Err(WindowingStrategyError::InvalidId(id))
    }
}

/// Parsing a strategy at `p`: an identifier and an argument, each a little-endian `u32`
pub open spec fn spec_parse_strategy(b: Seq<u8>, p: int) -> WindowingStrategyResult<WindowingStrategy> {
    if p + 8 > b.len() {
        Err(WindowingStrategyError::UnexpectedEof)
    } else {
        strategy_of(le32_at(b, p), le32_at(b, p + 4))
    }
}

/// The bytes a strategy is written as
pub open spec fn strategy_bytes(s: WindowingStrategy) -> Seq<u8> {
    spec_u32_to_le_bytes(strategy_fields(s).0) + spec_u32_to_le_bytes(strategy_fields(s).1)
}

impl WindowingStrategy {
    /// The size of the [`WindowingStrategy`] when serialized on disk
    pub fn serialized_size() -> (r: usize)
        ensures
            r == 8,
    {
        2 * 4
    }

    /// Read and parse a [`WindowingStrategy`]
    pub fn from_reader(r: &mut ByteReader) -> (res: WindowingStrategyResult<Self>)
        ensures
            final(r).bytes == old(r).bytes,
            res == spec_parse_strategy(old(r).bytes@, old(r).pos as int),
            res is Ok ==> final(r).pos == old(r).pos + 8,
    {
        let strat_id = match r.read_u32() {
            Some(v) => v,
            None => {
                return Err(WindowingStrategyError::UnexpectedEof);
            },
        };
        let argument = match r.read_u32() {
            Some(v) => v,
            None => {
                return Err(WindowingStrategyError::UnexpectedEof);
            },
        };
        match strat_id {
            0 => Ok(WindowingStrategy::NoPrefetch),
            1 => Ok(WindowingStrategy::Single),
            2 => Ok(WindowingStrategy::UniformTime(argument)),
            3 => Ok(WindowingStrategy::UniformVolume(argument)),
            4 => Ok(WindowingStrategy::LinearTime(argument)),
            5 => Ok(WindowingStrategy::LinearVolume(argument)),
            6 => Ok(WindowingStrategy::ExponentialTime(argument)),
            7 => Ok(WindowingStrategy::ExponentialVolume(argument)),
            _ => Err(WindowingStrategyError::InvalidId(strat_id)),
        }
    }

    /// Write the strategy, returning the number of bytes written
    pub fn to_writer(&self, w: &mut Vec<u8>) -> (r: usize)
        ensures
            final(w)@ == old(w)@ + strategy_bytes(*self),
            r == 8,
    {
        let (strat_id, argument): (u32, u32) = match self {
            WindowingStrategy::NoPrefetch => (0, 0),
            WindowingStrategy::Single => (1, 0),
            WindowingStrategy::UniformTime(argument) => (2, *argument),
            WindowingStrategy::UniformVolume(argument) => (3, *argument),
            WindowingStrategy::LinearTime(argument) => (4, *argument),
            WindowingStrategy::LinearVolume(argument) => (5, *argument),
            WindowingStrategy::ExponentialTime(argument) => (6, *argument),
            WindowingStrategy::ExponentialVolume(argument) => (7, *argument),
        };
        write_u32(w, strat_id);
        write_u32(w, argument);
        assert(final(w)@ =~= old(w)@ + strategy_bytes(*self));
        Self::serialized_size()
    }
}

/// Window to prefetch
#[derive(Debug, PartialEq, Eq, Copy, Clone, Structural)]
pub struct PrefetchWindow {
    /// Number of pages in the window that are written to
    pub n_write: u64,
    /// Total size (in #pages) of the prefetch window
    pub n_total: u64,
}

/// Parsing a prefetch window at `p`: the written and total page counts, each a little-endian
/// `u64`, the first no greater than the second
pub open spec fn spec_parse_window(b: Seq<u8>, p: int) -> PrefetchWindowResult<PrefetchWindow> {
    if p + 16 > b.len() {
        Err(PrefetchWindowError::UnexpectedEof)
    } else if le64_at(b, p) > le64_at(b, p + 8) {
        Err(PrefetchWindowError::InvalidFraction { write: le64_at(b, p), total: le64_at(b, p + 8) })
    } else {
        Ok(PrefetchWindow { n_write: le64_at(b, p), n_total: le64_at(b, p + 8) })
    }
}

/// The bytes a prefetch window is written as
pub open spec fn window_bytes(w: PrefetchWindow) -> Seq<u8> {
    spec_u64_to_le_bytes(w.n_write) + spec_u64_to_le_bytes(w.n_total)
}

impl PrefetchWindow {
    /// The size of the [`PrefetchWindow`] when serialized on disk
    pub fn serialized_size() -> (r: usize)
        ensures
            r == 16,
    {
        2 * 8
    }

    /// Whether this is an empty prefetch window (i.e., no pages)
    pub fn is_empty(&self) -> (r: bool)
        ensures
            r == (self.n_write == 0 && self.n_total == 0),
    {
        self.n_write == 0 && self.n_total == 0
    }

    /// Read and parse a [`PrefetchWindow`]
    pub fn from_reader(r: &mut ByteReader) -> (res: PrefetchWindowResult<Self>)
        ensures
            final(r).bytes == old(r).bytes,
            res == spec_parse_window(old(r).bytes@, old(r).pos as int),
            res is Ok ==> final(r).pos == old(r).pos + 16,
    {
        let n_write = match r.read_u64() {
            Some(v) => v,
            None => {
                return Err(PrefetchWindowError::UnexpectedEof);
            },
        };
        let n_total = match r.read_u64() {
            Some(v) => v,
            None => {
                return Err(PrefetchWindowError::UnexpectedEof);
            },
        };
        if n_write > n_total {
            Err(PrefetchWindowError::InvalidFraction { write: n_write, total: n_total })
        } else {
            Ok(PrefetchWindow { n_write, n_total })
        }
    }

    /// Write the window, returning the number of bytes written
    pub fn to_writer(&self, w: &mut Vec<u8>) -> (r: usize)
        ensures
            final(w)@ == old(w)@ + window_bytes(*self),
            r == 16,
    {
        write_u64(w, self.n_write);
        write_u64(w, self.n_total);
        assert(final(w)@ =~= old(w)@ + window_bytes(*self));
        Self::serialized_size()
    }
}

/// Reading back a written strategy gives it back
pub proof fn law_strategy_roundtrip(s: WindowingStrategy, b: Seq<u8>, p: int)
    requires
        0 <= p,
        p + 8 <= b.len(),
        b.subrange(p, p + 8) == strategy_bytes(s),
    ensures
        spec_parse_strategy(b, p) == Ok::<WindowingStrategy, WindowingStrategyError>(s),
{
    let w = strategy_bytes(s);
    lemma_auto_spec_u32_to_from_le_bytes();
    assert(spec_u32_to_le_bytes(strategy_fields(s).0).len() == 4);
    assert(spec_u32_to_le_bytes(strategy_fields(s).1).len() == 4);
    assert(b.subrange(p, p + 4) =~= spec_u32_to_le_bytes(strategy_fields(s).0)) by {
        assert(b.subrange(p, p + 4) =~= w.subrange(0, 4));
    }
    assert(b.subrange(p + 4, p + 8) =~= spec_u32_to_le_bytes(strategy_fields(s).1)) by {
        assert(b.subrange(p + 4, p + 8) =~= w.subrange(4, 8));
    }
    assert(le32_at(b, p) == strategy_fields(s).0);
    assert(le32_at(b, p + 4) == strategy_fields(s).1);
}

/// Reading back a written window gives it back, when it has no more written pages than pages
pub proof fn law_window_roundtrip(win: PrefetchWindow, b: Seq<u8>, p: int)
    requires
        win.n_write <= win.n_total,
        0 <= p,
        p + 16 <= b.len(),
        b.subrange(p, p + 16) == window_bytes(win),
    ensures
        spec_parse_window(b, p) == Ok::<PrefetchWindow, PrefetchWindowError>(win),
{
    let w = window_bytes(win);
    lemma_auto_spec_u64_to_from_le_bytes();
    assert(b.subrange(p, p + 8) =~= w.subrange(0, 8));
    assert(b.subrange(p + 8, p + 16) =~= w.subrange(8, 16));
    assert(w.subrange(0, 8) =~= spec_u64_to_le_bytes(win.n_write));
    assert(w.subrange(8, 16) =~= spec_u64_to_le_bytes(win.n_total));
}

} // verus!
