//! JIF error types
//!
//! Encodes the error types possible when parsing/writing and manipulating JIF files

use vstd::prelude::*;

verus! {

/// Interval parsing error
#[derive(Debug, Clone, Copy, PartialEq, Eq, Structural)]
pub enum IntervalError {
    /// The input ended before the interval did
    UnexpectedEof,
    /// Value should be page aligned, but wasn't
    BadAlignment(u64),
    /// The interval range is invalid
    BadRange(u64, u64),
    /// The interval is invalid (mixed validity of fields)
    InvalidInterval(u64, u64, u64),
    /// Zero interval in anonymous segment
    ZeroIntervalInAnon,
}

/// Interval result type
pub type IntervalResult<T> = Result<T, IntervalError>;

/// Error parsing `ITreeNode`s
#[derive(Debug, Clone, Copy, PartialEq, Eq, Structural)]
pub enum ITreeNodeError {
    /// The input ended before the node did
    UnexpectedEof,
    /// An error with one of the inner intervals ocurred
    Interval { interval_idx: usize, interval_err: IntervalError },
}

/// ITree node result type
pub type ITreeNodeResult<T> = Result<T, ITreeNodeError>;

/// ITree error types
#[derive(Debug, Clone, Copy, PartialEq, Eq)]
pub enum ITreeError {
    /// The reference data needed to build the tree was not provided
    MissingReference,
    /// The tree does not cover its range
    RangeNotCovered {
        expected_coverage: usize,
        covered_by_zero: usize,
        covered_by_private: usize,
        non_mapped: usize,
    },
    /// Intervals cannot intersect
    IntersectingInterval { interval_1: (u64, u64), interval_2: (u64, u64) },
    /// Interval out of the virtual address range
    IntervalOutOfRange { interval: (u64, u64) },
    /// The tree holds more nodes than its intervals need
    NotCompact { expected_n_nodes: usize, n_nodes: usize },
    /// The in-order traversal of the tree is not sorted
    NotInOrder { interval_1: (u64, u64), interval_2: (u64, u64) },
}

/// ITree result type
pub type ITreeResult<T> = Result<T, ITreeError>;

/// Ord chunk error type
#[derive(Debug, Clone, Copy, PartialEq, Eq, Structural)]
pub enum OrdChunkError {
    /// The input ended before the chunk did
    UnexpectedEof,
    /// The integer should have been page aligned, but wasn't
    BadAlignment(u64),
    /// The flag bits do not name a data source
    BadFlags(u64),
}

/// Ord chunk result type
pub type OrdChunkResult<T> = Result<T, OrdChunkError>;

/// Pheader error types
#[derive(Debug, Clone, Copy, PartialEq, Eq, Structural)]
pub enum PheaderError {
    /// The input ended before the pheader did
    UnexpectedEof,
    /// The integer should have been page aligned, but wasn't
    BadAlignment(u64),
    /// Invalid virtual range
    BadVirtualRange(u64, u64),
    /// Invalid reference range
    BadRefRange { offset: u64, pathname_offset: u32 },
    /// Invalid string offset
    InvalidOffset { offset: u32, size: u32 },
    /// Invalid itree index
    InvalidITreeIndex { index: u32, tree_len: u32, len: usize },
}

/// Pheader result type
pub type PheaderResult<T> = Result<T, PheaderError>;

/// Windowing strategy error
#[derive(Debug, Clone, Copy, PartialEq, Eq, Structural)]
pub enum WindowingStrategyError {
    /// The input ended before the strategy did
    UnexpectedEof,
    /// Unknown strategy id
    InvalidId(u32),
}

/// Windowing strategy result type
pub type WindowingStrategyResult<T> = Result<T, WindowingStrategyError>;

/// Prefetch window error type
#[derive(Debug, Clone, Copy, PartialEq, Eq, Structural)]
pub enum PrefetchWindowError {
    /// The input ended before the window did
    UnexpectedEof,
    /// There are more write pages than total
    InvalidFraction { write: u64, total: u64 },
}

/// Prefetch window result type
pub type PrefetchWindowResult<T> = Result<T, PrefetchWindowError>;

/// JIF error type
#[derive(Debug, Clone, Copy, PartialEq, Eq)]
pub enum JifError {
    /// The input ended before the JIF did
    UnexpectedEof,
    /// Bad JIF magic header
    BadMagic,
    /// Ill-formed JIF header
    BadHeader,
    /// Version mismatch
    BadVersion { expected: u32, found: u32 },
    /// A particular section was poorly aligned
    BadAlignment,
    /// Error with a particular pheader
    BadPheader { pheader_idx: usize, pheader_err: PheaderError },
    /// Error with a particular itree node
    BadITreeNode { itree_node_idx: usize, itree_node_err: ITreeNodeError },
    /// Error with an ord chunk
    BadOrdChunk { ord_chunk_idx: usize, ord_chunk_err: OrdChunkError },
    /// Could not find a particular data segment mentioned by a particular virtual address range
    DataSegmentNotFound { data_range: (u64, u64), virtual_range: (u64, u64), found_len: usize },
    /// Could not find an itree
    ITreeNotFound { index: usize, len: usize, n_nodes: usize },
    /// The provided interval tree is badly formed
    InvalidITree { virtual_range: (u64, u64), error: ITreeError },
}

/// JIF result type
pub type JifResult<T> = Result<T, JifError>;

} // verus!
