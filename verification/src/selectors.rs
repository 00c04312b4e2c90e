//! Query selectors over JIFs: the commands that select parts of a materialized or a raw JIF
//! (such as `pheader[2..4].virtual_range.prot` or `ord.len`), and their parsing

use vstd::prelude::*;
use crate::text::{IntErrorKind, parse_uint, spec_parse_uint, spec_trim, str_chars, trim_bounds};

verus! {

/// A range of indices into a list
#[derive(Debug, Clone, Copy, PartialEq, Eq, Structural)]
pub enum IndexRange {
    LeftOpen { end: usize },
    RightOpen { start: usize },
    Closed { start: usize, end: usize },
    Index(usize),
    NoRange,
}

impl IndexRange {
    /// Whether a range was given
    pub fn is_some(&self) -> (r: bool)
        ensures
            r == !(*self is NoRange),
    {
        !matches!(self, IndexRange::NoRange)
    }
}

/// Which kinds of regions to count
#[derive(Debug, Default, Clone, Copy, PartialEq, Eq, Structural)]
pub struct RegionTypeSelector {
    pub zero: bool,
    pub private: bool,
    pub shared: bool,
    pub total: bool,
}

/// Selection over the whole materialized JIF
#[derive(Debug, Clone, Copy, PartialEq, Eq, Structural)]
pub enum JifCmd {
    All,
    Strings,
    Pages(RegionTypeSelector),
    Intervals(RegionTypeSelector),
}

/// Selection over the ordering chunks
#[derive(Debug, Clone, Copy, PartialEq, Eq, Structural)]
pub enum OrdCmd {
    All,
    Range(IndexRange),
    Len,
    Files,
    Vmas,
    Pages(RegionTypeSelector),
    Intervals(RegionTypeSelector),
}

/// Which fields of the materialized pheaders to show
#[derive(Debug, Default, Clone, Copy, PartialEq, Eq, Structural)]
pub struct PheaderSelector {
    pub virtual_range: bool,
    pub virtual_size: bool,
    pub data_size: bool,
    pub pathname: bool,
    pub ref_offset: bool,
    pub prot: bool,
    pub itree: bool,
    pub n_itree_nodes: bool,
    pub zero_pages: bool,
    pub private_pages: bool,
    pub shared_pages: bool,
    pub pages: bool,
}

/// Selection over the materialized pheaders
#[derive(Debug, Clone, Copy, PartialEq, Eq, Structural)]
pub enum PheaderCmd {
    Len,
    Selector { range: IndexRange, selector: PheaderSelector },
    All,
}

/// A command over the materialized JIF
#[derive(Debug, Clone, Copy, PartialEq, Eq, Structural)]
pub enum MaterializedCommand {
    Ord(OrdCmd),
    Pheader(PheaderCmd),
    Jif(JifCmd),
}

/// Selection over the whole raw JIF
#[derive(Debug, Clone, Copy, PartialEq, Eq, Structural)]
pub enum RawJifCmd {
    All,
    Metadata,
    Data,
}

/// Selection over the interval tree nodes
#[derive(Debug, Clone, Copy, PartialEq, Eq, Structural)]
pub enum ITreeCmd {
    All,
    Range(IndexRange),
    Len,
}

/// Which fields of the raw pheaders to show
#[derive(Debug, Default, Clone, Copy, PartialEq, Eq, Structural)]
pub struct RawPheaderSelector {
    pub virtual_range: bool,
    pub virtual_size: bool,
    pub pathname_offset: bool,
    pub ref_offset: bool,
    pub prot: bool,
    pub itree: bool,
}

/// Selection over the raw pheaders
#[derive(Debug, Clone, Copy, PartialEq, Eq, Structural)]
pub enum RawPheaderCmd {
    Len,
    Selector { range: IndexRange, selector: RawPheaderSelector },
    All,
}

/// A command over the raw JIF
#[derive(Debug, Clone, Copy, PartialEq, Eq, Structural)]
pub enum RawCommand {
    Ord(OrdCmd),
    Pheader(RawPheaderCmd),
    Strings,
    ITree(ITreeCmd),
    Jif(RawJifCmd),
}

/// Why a command could not be parsed
#[derive(Debug, Clone, Copy, PartialEq, Eq, Structural)]
pub enum SelectorError {
    /// The command does not start with a known selector
    UnknownCommand,
    /// The options list more than one empty option
    InvalidOptions,
    /// Part of the command is no option
    UnknownOption,
    /// The rest of the command is none of the options
    MissingOption,
    /// `strings` goes with no other option
    IncompatibleStrings,
    /// `len` goes with no other option (nor a range, for pheaders)
    IncompatibleLen,
    /// `files` goes with no other option
    IncompatibleFiles,
    /// `vmas` goes with no other option
    IncompatibleVmas,
    /// Something follows a range that takes nothing after it
    TrailingData,
    /// A `[` has no matching `]`
    UnmatchedBracket,
    /// The start of a range is not an index
    BadRangeStart(IntErrorKind),
    /// The end of a range is not an index
    BadRangeEnd(IntErrorKind),
    /// An index is not an index
    BadIndex(IntErrorKind),
}

/// The message that describes an error
pub open spec fn spec_message(e: SelectorError) -> Seq<char> {
    match e {
        SelectorError::UnknownCommand => "unknown command"@,
        SelectorError::InvalidOptions => "invalid options: multiple empty patterns"@,
        SelectorError::UnknownOption => "unknown option"@,
        SelectorError::MissingOption => "failed to find option"@,
        SelectorError::IncompatibleStrings => "strings option is incompatible with the other options"@,
        SelectorError::IncompatibleLen => "length option is incompatible with the other options"@,
        SelectorError::IncompatibleFiles => "files option is incompatible with the other options"@,
        SelectorError::IncompatibleVmas => "vmas option is incompatible with the other options"@,
        SelectorError::TrailingData => "trailing data after range"@,
        SelectorError::UnmatchedBracket => "failed to find range: unmatched bracket"@,
        SelectorError::BadRangeStart(_) => "failed to parse start of the interval"@,
        SelectorError::BadRangeEnd(_) => "failed to parse end of the interval"@,
        SelectorError::BadIndex(_) => "failed to parse index"@,
    }
}

impl SelectorError {
    /// What went wrong, in words
    pub fn message(&self) -> (r: &'static str)
        ensures
            r@ == spec_message(*self),
    {
        match self {
            SelectorError::UnknownCommand => "unknown command",
            SelectorError::InvalidOptions => "invalid options: multiple empty patterns",
            SelectorError::UnknownOption => "unknown option",
            SelectorError::MissingOption => "failed to find option",
            SelectorError::IncompatibleStrings => "strings option is incompatible with the other options",
            SelectorError::IncompatibleLen => "length option is incompatible with the other options",
            SelectorError::IncompatibleFiles => "files option is incompatible with the other options",
            SelectorError::IncompatibleVmas => "vmas option is incompatible with the other options",
            SelectorError::TrailingData => "trailing data after range",
            SelectorError::UnmatchedBracket => "failed to find range: unmatched bracket",
            SelectorError::BadRangeStart(_) => "failed to parse start of the interval",
            SelectorError::BadRangeEnd(_) => "failed to parse end of the interval",
            SelectorError::BadIndex(_) => "failed to parse index",
        }
    }
}

/// `s` has `p` at `at`
pub open spec fn has_at(s: Seq<char>, p: Seq<char>, at: int) -> bool {
    0 <= at && at + p.len() <= s.len() && s.subrange(at, at + p.len()) == p
}

/// The first nonempty option, from index `j` on, that `s` has at `at`
pub open spec fn first_option(s: Seq<char>, at: int, opts: Seq<Seq<char>>, j: int) -> Option<int>
    decreases opts.len() - j,
{
    if j < 0 || j >= opts.len() {
        None
    } else if opts[j].len() > 0 && has_at(s, opts[j], at) {
        Some(j)
    } else {
        first_option(s, at, opts, j + 1)
    }
}

/// The options found scanning `s` from `at`, marked in `found`: at each position, the first
/// nonempty option that starts there; `None` when a position has none
pub open spec fn scan_options(s: Seq<char>, at: int, opts: Seq<Seq<char>>, found: Seq<bool>) -> Option<Seq<bool>>
    decreases s.len() - at,
{
    if at < 0 || at >= s.len() {
        Some(found)
    } else {
        match first_option(s, at, opts, 0) {
            None => None,
            Some(j) => if opts[j].len() > 0 && at + opts[j].len() <= s.len() {
                scan_options(s, at + opts[j].len(), opts, found.update(j, true))
            } else {
                None
            },
        }
    }
}

/// How many of the options are empty
pub open spec fn count_empty(opts: Seq<Seq<char>>) -> int
    decreases opts.len(),
{
    if opts.len() == 0 {
        0
    } else {
        count_empty(opts.drop_last()) + if opts.last().len() == 0 {
            1int
        } else {
            0
        }
    }
}

/// The first empty option
pub open spec fn first_empty(opts: Seq<Seq<char>>, j: int) -> Option<int>
    decreases opts.len() - j,
{
    if j < 0 || j >= opts.len() {
        None
    } else if opts[j].len() == 0 {
        Some(j)
    } else {
        first_empty(opts, j + 1)
    }
}

/// The options selected by `suffix`, as marks: the empty option alone for an empty suffix (when
/// there is one), otherwise the options found scanning it
pub open spec fn spec_find_multiple(suffix: Seq<char>, opts: Seq<Seq<char>>) -> Result<Seq<bool>, SelectorError> {
    let none = Seq::new(opts.len(), |_i: int| false);
    if count_empty(opts) > 1 {
        Err(SelectorError::InvalidOptions)
    } else if first_empty(opts, 0) is Some && suffix.len() == 0 {
        Ok(none.update(first_empty(opts, 0)->Some_0, true))
    } else {
        match scan_options(suffix, 0, opts, none) {
            Some(f) => Ok(f),
            None => Err(SelectorError::UnknownOption),
        }
    }
}

/// The first option equal to `suffix`, from `j` on
pub open spec fn spec_find_single(suffix: Seq<char>, opts: Seq<Seq<char>>, j: int) -> Result<int, SelectorError>
    decreases opts.len() - j,
{
    if j < 0 || j >= opts.len() {
        Err(SelectorError::MissingOption)
    } else if opts[j] == suffix {
        Ok(j)
    } else {
        spec_find_single(suffix, opts, j + 1)
    }
}

/// How many marks are set
pub open spec fn count_marks(f: Seq<bool>) -> int
    decreases f.len(),
{
    if f.len() == 0 {
        0
    } else {
        count_marks(f.drop_last()) + if f.last() {
            1int
        } else {
            0
        }
    }
}

/// The first position of `c` in `s`, from `from` on
pub open spec fn find_char_from(s: Seq<char>, c: char, from: int) -> Option<int>
    decreases s.len() - from,
{
    if from < 0 || from >= s.len() {
        None
    } else if s[from] == c {
        Some(from)
    } else {
        find_char_from(s, c, from + 1)
    }
}

/// The first position of `..` in `s`, from `from` on
pub open spec fn find_dots(s: Seq<char>, from: int) -> Option<int>
    decreases s.len() - from,
{
    if from < 0 || from + 1 >= s.len() {
        None
    } else if s[from] == '.' && s[from + 1] == '.' {
        Some(from)
    } else {
        find_dots(s, from + 1)
    }
}

/// An optional bound of a range: nothing when empty, an index otherwise
pub open spec fn range_bound(s: Seq<char>) -> Option<Result<int, IntErrorKind>> {
    if s.len() == 0 {
        None
    } else {
        Some(spec_parse_uint(s, 10))
    }
}

/// A range `[..]` of `s` at its start, and how much of `s` it takes: `[<start>..<end>]` (either
/// bound optional; none gives no range) or `[<index>]`; no `[` gives no range and takes nothing
pub open spec fn spec_find_range(s: Seq<char>) -> Result<(IndexRange, int), SelectorError> {
    if !(s.len() > 0 && s[0] == '[') {
        Ok((IndexRange::NoRange, 0))
    } else {
        match find_char_from(s, ']', 1) {
            None => Err(SelectorError::UnmatchedBracket),
            Some(c) => {
                let range = s.subrange(1, c);
                match find_dots(range, 0) {
                    Some(d) => match (range_bound(range.take(d)), range_bound(range.skip(d + 2))) {
                        (Some(Err(e)), _) => Err(SelectorError::BadRangeStart(e)),
                        (_, Some(Err(e))) => Err(SelectorError::BadRangeEnd(e)),
                        (None, None) => Ok((IndexRange::NoRange, c + 1)),
                        (Some(Ok(a)), None) => Ok((IndexRange::RightOpen { start: a as usize }, c + 1)),
                        (None, Some(Ok(b))) => Ok((IndexRange::LeftOpen { end: b as usize }, c + 1)),
                        (Some(Ok(a)), Some(Ok(b))) => Ok((IndexRange::Closed { start: a as usize, end: b as usize }, c + 1)),
                    },
                    None => match spec_parse_uint(range, 10) {
                        Ok(v) => Ok((IndexRange::Index(v as usize), c + 1)),
                        Err(e) => Err(SelectorError::BadIndex(e)),
                    },
                }
            },
        }
    }
}

/// The characters of each string
pub open spec fn views(opts: Seq<&str>) -> Seq<Seq<char>> {
    opts.map_values(|o: &str| o@)
}

/// Options of the `jif` selector of a materialized command
pub open spec fn jif_options() -> Seq<Seq<char>> {
    views(
        seq![
            "",
            ".strings",
            ".zero_pages",
            ".private_pages",
            ".shared_pages",
            ".pages",
            ".intervals",
            ".private_intervals",
            ".shared_intervals",
            ".zero_intervals",
        ],
    )
}

/// Options of the `ord` selector of a materialized command
pub open spec fn ord_options() -> Seq<Seq<char>> {
    views(
        seq![
            "",
            ".len",
            ".files",
            ".vmas",
            ".pages",
            ".private_pages",
            ".shared_pages",
            ".zero_pages",
            ".intervals",
            ".private_intervals",
            ".shared_intervals",
            ".zero_intervals",
        ],
    )
}

/// Options of the `pheader` selector of a materialized command
pub open spec fn pheader_options() -> Seq<Seq<char>> {
    views(
        seq![
            "",
            ".len",
            ".virtual_range",
            ".virtual_size",
            ".data_size",
            ".pathname",
            ".ref_offset",
            ".prot",
            ".itree",
            ".n_itree_nodes",
            ".zero_pages",
            ".private_pages",
            ".shared_pages",
            ".pages",
        ],
    )
}

/// Options of the `jif` selector of a raw command
pub open spec fn raw_jif_options() -> Seq<Seq<char>> {
    views(seq!["", ".metadata", ".data"])
}

/// Options of the `ord` selector of a raw command
pub open spec fn raw_ord_options() -> Seq<Seq<char>> {
    views(seq!["", ".len", ".pages", ".private_pages", ".shared_pages", ".zero_pages"])
}

/// Options of the `itrees` selector of a raw command
pub open spec fn raw_itree_options() -> Seq<Seq<char>> {
    views(seq!["", ".len"])
}

/// The single empty option
pub open spec fn empty_options() -> Seq<Seq<char>> {
    views(seq![""])
}

/// Options of the `pheader` selector of a raw command
pub open spec fn raw_pheader_options() -> Seq<Seq<char>> {
    views(seq!["", ".len", ".virtual_range", ".virtual_size", ".pathname_offset", ".ref_offset", ".prot", ".itree"])
}

/// The region selector of four marks, in the order zero, private, shared, total
pub open spec fn region_sel(zero: bool, private: bool, shared: bool, total: bool) -> RegionTypeSelector {
    RegionTypeSelector { zero, private, shared, total }
}

/// The materialized `jif` command the marks select
pub open spec fn jif_cmd_of(f: Seq<bool>) -> Result<MaterializedCommand, SelectorError> {
    if f[0] {
        Ok(MaterializedCommand::Jif(JifCmd::All))
    } else if f[1] {
        if count_marks(f) > 1 {
            Err(SelectorError::IncompatibleStrings)
        } else {
            Ok(MaterializedCommand::Jif(JifCmd::Strings))
        }
    } else if f[6] || f[7] || f[8] || f[9] {
        Ok(MaterializedCommand::Jif(JifCmd::Intervals(region_sel(f[9], f[7], f[8], f[6]))))
    } else {
        Ok(MaterializedCommand::Jif(JifCmd::Pages(region_sel(f[2], f[3], f[4], f[5]))))
    }
}

/// The materialized `ord` command the marks select
pub open spec fn ord_cmd_of(f: Seq<bool>) -> Result<MaterializedCommand, SelectorError> {
    if f[0] {
        Ok(MaterializedCommand::Ord(OrdCmd::All))
    } else if f[1] {
        if count_marks(f) > 1 {
            Err(SelectorError::IncompatibleLen)
        } else {
            Ok(MaterializedCommand::Ord(OrdCmd::Len))
        }
    } else if f[2] {
        if count_marks(f) > 1 {
            Err(SelectorError::IncompatibleFiles)
        } else {
            Ok(MaterializedCommand::Ord(OrdCmd::Files))
        }
    } else if f[3] {
        if count_marks(f) > 1 {
            Err(SelectorError::IncompatibleVmas)
        } else {
            Ok(MaterializedCommand::Ord(OrdCmd::Vmas))
        }
    } else if f[4] || f[5] || f[6] || f[7] {
        Ok(MaterializedCommand::Ord(OrdCmd::Pages(region_sel(f[7], f[5], f[6], f[4]))))
    } else {
        Ok(MaterializedCommand::Ord(OrdCmd::Intervals(region_sel(f[11], f[9], f[10], f[8]))))
    }
}

/// The materialized `pheader` command the range and the marks select
pub open spec fn pheader_cmd_of(range: IndexRange, f: Seq<bool>) -> Result<MaterializedCommand, SelectorError> {
    if f[0] {
        Ok(MaterializedCommand::Pheader(PheaderCmd::All))
    } else if f[1] {
        if !(range is NoRange) || count_marks(f) > 1 {
            Err(SelectorError::IncompatibleLen)
        } else {
            Ok(MaterializedCommand::Pheader(PheaderCmd::Len))
        }
    } else {
        Ok(
            MaterializedCommand::Pheader(
                PheaderCmd::Selector {
                    range,
                    selector: PheaderSelector {
                        virtual_range: f[2],
                        virtual_size: f[3],
                        data_size: f[4],
                        pathname: f[5],
                        ref_offset: f[6],
                        prot: f[7],
                        itree: f[8],
                        n_itree_nodes: f[9],
                        zero_pages: f[10],
                        private_pages: f[11],
                        shared_pages: f[12],
                        pages: f[13],
                    },
                },
            ),
        )
    }
}

/// What a (trimmed) materialized command selects
pub open spec fn spec_parse_materialized(t: Seq<char>) -> Result<MaterializedCommand, SelectorError> {
    if has_at(t, "jif"@, 0) {
        match spec_find_multiple(t.skip("jif"@.len() as int), jif_options()) {
            Err(e) => Err(e),
            Ok(f) => jif_cmd_of(f),
        }
    } else if has_at(t, "ord"@, 0) {
        let suffix = t.skip("ord"@.len() as int);
        match spec_find_range(suffix) {
            Err(e) => Err(e),
            Ok((range, used)) => if !(range is NoRange) {
                if used < suffix.len() {
                    Err(SelectorError::TrailingData)
                } else {
                    Ok(MaterializedCommand::Ord(OrdCmd::Range(range)))
                }
            } else {
                match spec_find_multiple(suffix.skip(used), ord_options()) {
                    Err(e) => Err(e),
                    Ok(f) => ord_cmd_of(f),
                }
            },
        }
    } else if has_at(t, "pheader"@, 0) {
        let suffix = t.skip("pheader"@.len() as int);
        match spec_find_range(suffix) {
            Err(e) => Err(e),
            Ok((range, used)) => match spec_find_multiple(suffix.skip(used), pheader_options()) {
                Err(e) => Err(e),
                Ok(f) => pheader_cmd_of(range, f),
            },
        }
    } else {
        Err(SelectorError::UnknownCommand)
    }
}

/// The raw `ord` command the marks select
pub open spec fn raw_ord_cmd_of(f: Seq<bool>) -> Result<RawCommand, SelectorError> {
    if f[0] {
        Ok(RawCommand::Ord(OrdCmd::All))
    } else if f[1] {
        if count_marks(f) > 1 {
            Err(SelectorError::IncompatibleLen)
        } else {
            Ok(RawCommand::Ord(OrdCmd::Len))
        }
    } else {
        Ok(RawCommand::Ord(OrdCmd::Pages(region_sel(f[5], f[3], f[4], f[2]))))
    }
}

/// The raw `pheader` command the range and the marks select
pub open spec fn raw_pheader_cmd_of(range: IndexRange, f: Seq<bool>) -> Result<RawCommand, SelectorError> {
    if f[0] {
        Ok(RawCommand::Pheader(RawPheaderCmd::All))
    } else if f[1] {
        if !(range is NoRange) || count_marks(f) > 1 {
            Err(SelectorError::IncompatibleLen)
        } else {
            Ok(RawCommand::Pheader(RawPheaderCmd::Len))
        }
    } else {
        Ok(
            RawCommand::Pheader(
                RawPheaderCmd::Selector {
                    range,
                    selector: RawPheaderSelector {
                        virtual_range: f[2],
                        virtual_size: f[3],
                        pathname_offset: f[4],
                        ref_offset: f[5],
                        prot: f[6],
                        itree: f[7],
                    },
                },
            ),
        )
    }
}

/// What a (trimmed) raw command selects
pub open spec fn spec_parse_raw(t: Seq<char>) -> Result<RawCommand, SelectorError> {
    if has_at(t, "jif"@, 0) {
        match spec_find_single(t.skip("jif"@.len() as int), raw_jif_options(), 0) {
            Err(e) => Err(e),
            Ok(i) => Ok(
                RawCommand::Jif(
                    if i == 2 {
                        RawJifCmd::Data
                    } else if i == 1 {
                        RawJifCmd::Metadata
                    } else {
                        RawJifCmd::All
                    },
                ),
            ),
        }
    } else if has_at(t, "strings"@, 0) {
        match spec_find_single(t.skip("strings"@.len() as int), empty_options(), 0) {
            Err(e) => Err(e),
            Ok(_) => Ok(RawCommand::Strings),
        }
    } else if has_at(t, "ord"@, 0) {
        let suffix = t.skip("ord"@.len() as int);
        match spec_find_range(suffix) {
            Err(e) => Err(e),
            Ok((range, used)) => if !(range is NoRange) {
                if used < suffix.len() {
                    Err(SelectorError::TrailingData)
                } else {
                    Ok(RawCommand::Ord(OrdCmd::Range(range)))
                }
            } else {
                match spec_find_multiple(suffix.skip(used), raw_ord_options()) {
                    Err(e) => Err(e),
                    Ok(f) => raw_ord_cmd_of(f),
                }
            },
        }
    } else if has_at(t, "itrees"@, 0) {
        let suffix = t.skip("itrees"@.len() as int);
        match spec_find_range(suffix) {
            Err(e) => Err(e),
            Ok((range, used)) => if !(range is NoRange) {
                if used < suffix.len() {
                    Err(SelectorError::TrailingData)
                } else {
                    Ok(RawCommand::ITree(ITreeCmd::Range(range)))
                }
            } else {
                match spec_find_single(suffix.skip(used), raw_itree_options(), 0) {
                    Err(e) => Err(e),
                    Ok(i) => Ok(
                        RawCommand::ITree(
                            if i == 1 {
                                ITreeCmd::Len
                            } else {
                                ITreeCmd::All
                            },
                        ),
                    ),
                }
            },
        }
    } else if has_at(t, "pheader"@, 0) {
        let suffix = t.skip("pheader"@.len() as int);
        match spec_find_range(suffix) {
            Err(e) => Err(e),
            Ok((range, used)) => match spec_find_multiple(suffix.skip(used), raw_pheader_options()) {
                Err(e) => Err(e),
                Ok(f) => raw_pheader_cmd_of(range, f),
            },
        }
    } else {
        Err(SelectorError::UnknownCommand)
    }
}

/// The characters of each option
pub open spec fn tview(s: Seq<Vec<char>>) -> Seq<Seq<char>> {
    s.map_values(|v: Vec<char>| v@)
}

/// The characters of `s` from `from` on
fn suffix_of(s: &Vec<char>, from: usize) -> (r: Vec<char>)
    requires
        from <= s@.len(),
    ensures
        r@ == s@.skip(from as int),
{
    let mut r: Vec<char> = Vec::new();
    let mut k = from;
    while k < s.len()
        invariant
            from <= k <= s@.len(),
            r@ == s@.subrange(from as int, k as int),
        decreases s@.len() - k,
    {
        r.push(s[k]);
        k = k + 1;
        assert(r@ =~= s@.subrange(from as int, k as int));
    }
    assert(r@ =~= s@.skip(from as int));
    r
}

/// The characters of `s[from..to]`
fn subvec(s: &Vec<char>, from: usize, to: usize) -> (r: Vec<char>)
    requires
        from <= to <= s@.len(),
    ensures
        r@ == s@.subrange(from as int, to as int),
{
    let mut r: Vec<char> = Vec::new();
    let mut k = from;
    while k < to
        invariant
            from <= k <= to <= s@.len(),
            r@ == s@.subrange(from as int, k as int),
        decreases to - k,
    {
        r.push(s[k]);
        k = k + 1;
        assert(r@ =~= s@.subrange(from as int, k as int));
    }
    r
}

/// Whether `s` has `p` at `at`
fn has_at_exec(s: &Vec<char>, p: &Vec<char>, at: usize) -> (r: bool)
    ensures
        r == has_at(s@, p@, at as int),
{
    let n = s.len();
    if at > n || p.len() > n - at {
        return false;
    }
    let mut k: usize = 0;
    while k < p.len()
        invariant
            k <= p@.len(),
            n == s@.len(),
            at + p@.len() <= n,
            forall|m: int| 0 <= m < k ==> s@[at + m] == p@[m],
        decreases p@.len() - k,
    {
        if s[at + k] != p[k] {
            assert(s@.subrange(at as int, at + p@.len())[k as int] != p@[k as int]);
            return false;
        }
        k = k + 1;
    }
    assert(s@.subrange(at as int, at + p@.len()) =~= p@);
    true
}

/// Find the option equal to `suffix`, returning its index
pub fn find_single_option(suffix: &Vec<char>, options: &Vec<Vec<char>>) -> (r: Result<usize, SelectorError>)
    ensures
        match r {
            Ok(i) => spec_find_single(suffix@, tview(options@), 0) == Ok::<int, SelectorError>(i as int),
            Err(e) => spec_find_single(suffix@, tview(options@), 0) == Err::<int, SelectorError>(e),
        },
{
    let ghost ov = tview(options@);
    let mut j: usize = 0;
    while j < options.len()
        invariant
            j <= options@.len(),
            ov == tview(options@),
            spec_find_single(suffix@, ov, 0) == spec_find_single(suffix@, ov, j as int),
        decreases options@.len() - j,
    {
        assert(ov[j as int] == options@[j as int]@);
        if options[j].len() == suffix.len() && has_at_exec(suffix, &options[j], 0) {
            assert(suffix@.subrange(0, suffix@.len() as int) =~= suffix@);
            return Ok(j);
        }
        proof {
            if ov[j as int] == suffix@ {
                assert(suffix@.subrange(0, suffix@.len() as int) =~= suffix@);
            }
        }
        j = j + 1;
    }
    Err(SelectorError::MissingOption)
}

/// The first nonempty option that `s` has at `at`
fn first_option_at(s: &Vec<char>, at: usize, options: &Vec<Vec<char>>) -> (r: Option<usize>)
    ensures
        match r {
            Some(j) => first_option(s@, at as int, tview(options@), 0) == Some(j as int),
            None => first_option(s@, at as int, tview(options@), 0) is None,
        },
{
    let ghost ov = tview(options@);
    let mut j: usize = 0;
    while j < options.len()
        invariant
            j <= options@.len(),
            ov == tview(options@),
            first_option(s@, at as int, ov, 0) == first_option(s@, at as int, ov, j as int),
        decreases options@.len() - j,
    {
        assert(ov[j as int] == options@[j as int]@);
        if options[j].len() > 0 && has_at_exec(s, &options[j], at) {
            return Some(j);
        }
        j = j + 1;
    }
    None
}

/// Find the options selected by `suffix`, marking each found option
pub fn find_multiple_option(suffix: &Vec<char>, options: &Vec<Vec<char>>) -> (r: Result<Vec<bool>, SelectorError>)
    ensures
        match spec_find_multiple(suffix@, tview(options@)) {
            Ok(f) => r matches Ok(v) && v@ == f,
            Err(e) => r == Err::<Vec<bool>, SelectorError>(e),
        },
        r matches Ok(v) ==> v@.len() == options@.len(),
{
    let ghost ov = tview(options@);
    let n = options.len();
    // count the empty options, and find the first
    let mut n_empty: usize = 0;
    let mut empty_idx: Option<usize> = None;
    let mut j: usize = 0;
    assert(ov.take(0) =~= Seq::<Seq<char>>::empty());
    while j < n
        invariant
            j <= n == options@.len(),
            ov == tview(options@),
            n_empty == count_empty(ov.take(j as int)),
            n_empty <= j,
            match empty_idx {
                Some(e) => first_empty(ov, 0) == Some(e as int),
                None => first_empty(ov, 0) == first_empty(ov, j as int),
            },
        decreases n - j,
    {
        assert(ov[j as int] == options@[j as int]@);
        assert(ov.take(j + 1).drop_last() =~= ov.take(j as int));
        if options[j].len() == 0 {
            n_empty = n_empty + 1;
            if empty_idx.is_none() {
                empty_idx = Some(j);
            }
        }
        j = j + 1;
    }
    assert(ov.take(n as int) =~= ov);
    if n_empty > 1 {
        return Err(SelectorError::InvalidOptions);
    }
    let mut found: Vec<bool> = Vec::new();
    let mut k: usize = 0;
    while k < n
        invariant
            k <= n,
            found@ == Seq::new(k as nat, |_i: int| false),
        decreases n - k,
    {
        found.push(false);
        k = k + 1;
    }
    assert(found@ =~= Seq::new(ov.len(), |_i: int| false));
    if let Some(e) = empty_idx {
        if suffix.len() == 0 {
            proof {
                lemma_first_empty_in(ov, 0);
            }
            found.set(e, true);
            return Ok(found);
        }
    }
    let mut cursor: usize = 0;
    while cursor < suffix.len()
        invariant
            cursor <= suffix@.len(),
            ov == tview(options@),
            found@.len() == n == options@.len(),
            count_empty(ov) <= 1,
            suffix@.len() > 0 || first_empty(ov, 0) is None,
            scan_options(suffix@, 0, ov, Seq::new(ov.len(), |_i: int| false)) == scan_options(suffix@, cursor as int, ov, found@),
        decreases suffix@.len() - cursor,
    {
        match first_option_at(suffix, cursor, options) {
            None => {
                return Err(SelectorError::UnknownOption);
            },
            Some(j) => {
                proof {
                    lemma_first_option_in(suffix@, cursor as int, ov, 0);
                }
                assert(ov[j as int] == options@[j as int]@);
                found.set(j, true);
                cursor = cursor + options[j].len();
            },
        }
    }
    Ok(found)
}

/// A first empty option lies within the options and is empty
proof fn lemma_first_empty_in(opts: Seq<Seq<char>>, j: int)
    ensures
        first_empty(opts, j) matches Some(e) ==> j <= e < opts.len() && opts[e].len() == 0,
    decreases opts.len() - j,
{
    if 0 <= j < opts.len() && opts[j].len() != 0 {
        lemma_first_empty_in(opts, j + 1);
    }
}

/// A first option found lies within the options, is nonempty and is there
proof fn lemma_first_option_in(s: Seq<char>, at: int, opts: Seq<Seq<char>>, j: int)
    ensures
        first_option(s, at, opts, j) matches Some(k) ==> j <= k < opts.len() && opts[k].len() > 0 && has_at(s, opts[k], at),
    decreases opts.len() - j,
{
    if 0 <= j < opts.len() && !(opts[j].len() > 0 && has_at(s, opts[j], at)) {
        lemma_first_option_in(s, at, opts, j + 1);
    }
}

/// Find a range at the start of `s`, returning it and how many characters it takes
pub fn find_range(s: &Vec<char>) -> (r: Result<(IndexRange, usize), SelectorError>)
    ensures
        match r {
            Ok((range, used)) => spec_find_range(s@) == Ok::<(IndexRange, int), SelectorError>((range, used as int)) && used
                <= s@.len(),
            Err(e) => spec_find_range(s@) == Err::<(IndexRange, int), SelectorError>(e),
        },
{
    if !(s.len() > 0 && s[0] == '[') {
        return Ok((IndexRange::NoRange, 0));
    }
    let mut c: usize = 1;
    while c < s.len() && s[c] != ']'
        invariant
            1 <= c <= s@.len(),
            find_char_from(s@, ']', 1) == find_char_from(s@, ']', c as int),
        decreases s@.len() - c,
    {
        c = c + 1;
    }
    if c == s.len() {
        return Err(SelectorError::UnmatchedBracket);
    }
    let range = subvec(s, 1, c);
    let rl = range.len();
    let mut d: usize = 0;
    while d + 1 < rl && !(range[d] == '.' && range[d + 1] == '.')
        invariant
            d <= rl == range@.len(),
            d == 0 || d < rl,
            find_dots(range@, 0) == find_dots(range@, d as int),
        decreases rl - d,
    {
        d = d + 1;
    }
    if d + 1 < rl {
        assert(range@.take(d as int) =~= range@.subrange(0, d as int));
        assert(range@.skip(d + 2) =~= range@.subrange(d + 2, rl as int));
        let start = if d == 0 {
            None
        } else {
            match parse_uint(&range, 0, d, 10) {
                Ok(v) => Some(v),
                Err(e) => {
                    return Err(SelectorError::BadRangeStart(e));
                },
            }
        };
        let end = if d + 2 == rl {
            None
        } else {
            match parse_uint(&range, d + 2, rl, 10) {
                Ok(v) => Some(v),
                Err(e) => {
                    return Err(SelectorError::BadRangeEnd(e));
                },
            }
        };
        let range = match (start, end) {
            (None, None) => IndexRange::NoRange,
            (Some(start), None) => IndexRange::RightOpen { start },
            (None, Some(end)) => IndexRange::LeftOpen { end },
            (Some(start), Some(end)) => IndexRange::Closed { start, end },
        };
        Ok((range, c + 1))
    } else {
        assert(range@.subrange(0, rl as int) =~= range@);
        match parse_uint(&range, 0, rl, 10) {
            Ok(v) => Ok((IndexRange::Index(v), c + 1)),
            Err(e) => Err(SelectorError::BadIndex(e)),
        }
    }
}

/// How many marks are set
fn count_set(f: &Vec<bool>) -> (r: usize)
    ensures
        r == count_marks(f@),
{
    let mut n: usize = 0;
    let mut k: usize = 0;
    assert(f@.take(0) =~= Seq::<bool>::empty());
    while k < f.len()
        invariant
            k <= f@.len(),
            n == count_marks(f@.take(k as int)),
            n <= k,
        decreases f@.len() - k,
    {
        assert(f@.take(k + 1).drop_last() =~= f@.take(k as int));
        if f[k] {
            n = n + 1;
        }
        k = k + 1;
    }
    assert(f@.take(k as int) =~= f@);
    n
}

/// The options of a table, as characters
fn options_table(lits: &Vec<&str>) -> (r: Vec<Vec<char>>)
    ensures
        tview(r@) == views(lits@),
{
    let mut r: Vec<Vec<char>> = Vec::new();
    let mut k: usize = 0;
    while k < lits.len()
        invariant
            k <= lits@.len(),
            tview(r@) == views(lits@.take(k as int)),
        decreases lits@.len() - k,
    {
        let ghost before = r@;
        let v = str_chars(lits[k]);
        r.push(v);
        proof {
            assert(tview(r@) =~= tview(before).push(v@));
            assert(lits@.take(k + 1) =~= lits@.take(k as int).push(lits@[k as int]));
            assert(views(lits@.take(k + 1)) =~= views(lits@.take(k as int)).push(lits@[k as int]@));
        }
        k = k + 1;
    }
    assert(lits@.take(k as int) =~= lits@);
    r
}

/// The characters of a command, without leading and trailing whitespace
fn trimmed_chars(cmd: &String) -> (r: Vec<char>)
    ensures
        r@ == spec_trim(cmd@),
{
    let all = str_chars(cmd.as_str());
    let (a, b) = trim_bounds(&all, 0, all.len());
    assert(all@.subrange(0, all@.len() as int) =~= all@);
    subvec(&all, a, b)
}

impl MaterializedCommand {
    /// Parse a command over the materialized JIF (surrounding whitespace is ignored)
    pub fn try_from(cmd: String) -> (r: Result<Self, SelectorError>)
        ensures
            r == spec_parse_materialized(spec_trim(cmd@)),
    {
        let t = trimmed_chars(&cmd);
        parse_materialized(&t)
    }
}

impl RawCommand {
    /// Parse a command over the raw JIF (surrounding whitespace is ignored)
    pub fn try_from(cmd: String) -> (r: Result<Self, SelectorError>)
        ensures
            r == spec_parse_raw(spec_trim(cmd@)),
    {
        let t = trimmed_chars(&cmd);
        parse_raw(&t)
    }
}

/// The options of `jif_options`, as characters
fn jif_table() -> (r: Vec<Vec<char>>)
    ensures
        tview(r@) == jif_options(),
{
    let mut lits: Vec<&str> = Vec::new();
    lits.push("");
    lits.push(".strings");
    lits.push(".zero_pages");
    lits.push(".private_pages");
    lits.push(".shared_pages");
    lits.push(".pages");
    lits.push(".intervals");
    lits.push(".private_intervals");
    lits.push(".shared_intervals");
    lits.push(".zero_intervals");
    assert(lits@ =~= seq!["", ".strings", ".zero_pages", ".private_pages", ".shared_pages", ".pages", ".intervals", ".private_intervals", ".shared_intervals", ".zero_intervals"]);
    options_table(&lits)
}

/// The options of `ord_options`, as characters
fn ord_table() -> (r: Vec<Vec<char>>)
    ensures
        tview(r@) == ord_options(),
{
    let mut lits: Vec<&str> = Vec::new();
    lits.push("");
    lits.push(".len");
    lits.push(".files");
    lits.push(".vmas");
    lits.push(".pages");
    lits.push(".private_pages");
    lits.push(".shared_pages");
    lits.push(".zero_pages");
    lits.push(".intervals");
    lits.push(".private_intervals");
    lits.push(".shared_intervals");
    lits.push(".zero_intervals");
    assert(lits@ =~= seq!["", ".len", ".files", ".vmas", ".pages", ".private_pages", ".shared_pages", ".zero_pages", ".intervals", ".private_intervals", ".shared_intervals", ".zero_intervals"]);
    options_table(&lits)
}

/// The options of `pheader_options`, as characters
fn pheader_table() -> (r: Vec<Vec<char>>)
    ensures
        tview(r@) == pheader_options(),
{
    let mut lits: Vec<&str> = Vec::new();
    lits.push("");
    lits.push(".len");
    lits.push(".virtual_range");
    lits.push(".virtual_size");
    lits.push(".data_size");
    lits.push(".pathname");
    lits.push(".ref_offset");
    lits.push(".prot");
    lits.push(".itree");
    lits.push(".n_itree_nodes");
    lits.push(".zero_pages");
    lits.push(".private_pages");
    lits.push(".shared_pages");
    lits.push(".pages");
    assert(lits@ =~= seq!["", ".len", ".virtual_range", ".virtual_size", ".data_size", ".pathname", ".ref_offset", ".prot", ".itree", ".n_itree_nodes", ".zero_pages", ".private_pages", ".shared_pages", ".pages"]);
    options_table(&lits)
}

/// The options of `raw_jif_options`, as characters
fn raw_jif_table() -> (r: Vec<Vec<char>>)
    ensures
        tview(r@) == raw_jif_options(),
{
    let mut lits: Vec<&str> = Vec::new();
    lits.push("");
    lits.push(".metadata");
    lits.push(".data");
    assert(lits@ =~= seq!["", ".metadata", ".data"]);
    options_table(&lits)
}

/// The options of `raw_ord_options`, as characters
fn raw_ord_table() -> (r: Vec<Vec<char>>)
    ensures
        tview(r@) == raw_ord_options(),
{
    let mut lits: Vec<&str> = Vec::new();
    lits.push("");
    lits.push(".len");
    lits.push(".pages");
    lits.push(".private_pages");
    lits.push(".shared_pages");
    lits.push(".zero_pages");
    assert(lits@ =~= seq!["", ".len", ".pages", ".private_pages", ".shared_pages", ".zero_pages"]);
    options_table(&lits)
}

/// The options of `raw_itree_options`, as characters
fn raw_itree_table() -> (r: Vec<Vec<char>>)
    ensures
        tview(r@) == raw_itree_options(),
{
    let mut lits: Vec<&str> = Vec::new();
    lits.push("");
    lits.push(".len");
    assert(lits@ =~= seq!["", ".len"]);
    options_table(&lits)
}

/// The options of `raw_pheader_options`, as characters
fn raw_pheader_table() -> (r: Vec<Vec<char>>)
    ensures
        tview(r@) == raw_pheader_options(),
{
    let mut lits: Vec<&str> = Vec::new();
    lits.push("");
    lits.push(".len");
    lits.push(".virtual_range");
    lits.push(".virtual_size");
    lits.push(".pathname_offset");
    lits.push(".ref_offset");
    lits.push(".prot");
    lits.push(".itree");
    assert(lits@ =~= seq!["", ".len", ".virtual_range", ".virtual_size", ".pathname_offset", ".ref_offset", ".prot", ".itree"]);
    options_table(&lits)
}

/// The options of `empty_options`, as characters
fn empty_table() -> (r: Vec<Vec<char>>)
    ensures
        tview(r@) == empty_options(),
{
    let mut lits: Vec<&str> = Vec::new();
    lits.push("");
    assert(lits@ =~= seq![""]);
    options_table(&lits)
}

/// The materialized `jif` command the marks select
fn jif_cmd(f: &Vec<bool>) -> (r: Result<MaterializedCommand, SelectorError>)
    requires
        f@.len() == 10,
    ensures
        r == jif_cmd_of(f@),
{
    if f[0] {
        Ok(MaterializedCommand::Jif(JifCmd::All))
    } else if f[1] {
        if count_set(f) > 1 {
            Err(SelectorError::IncompatibleStrings)
        } else {
            Ok(MaterializedCommand::Jif(JifCmd::Strings))
        }
    } else if f[6] || f[7] || f[8] || f[9] {
        Ok(MaterializedCommand::Jif(JifCmd::Intervals(RegionTypeSelector { zero: f[9], private: f[7], shared: f[8], total: f[6] })))
    } else {
        Ok(MaterializedCommand::Jif(JifCmd::Pages(RegionTypeSelector { zero: f[2], private: f[3], shared: f[4], total: f[5] })))
    }
}

/// The materialized `ord` command the marks select
fn ord_cmd(f: &Vec<bool>) -> (r: Result<MaterializedCommand, SelectorError>)
    requires
        f@.len() == 12,
    ensures
        r == ord_cmd_of(f@),
{
    if f[0] {
        Ok(MaterializedCommand::Ord(OrdCmd::All))
    } else if f[1] {
        if count_set(f) > 1 {
            Err(SelectorError::IncompatibleLen)
        } else {
            Ok(MaterializedCommand::Ord(OrdCmd::Len))
        }
    } else if f[2] {
        if count_set(f) > 1 {
            Err(SelectorError::IncompatibleFiles)
        } else {
            Ok(MaterializedCommand::Ord(OrdCmd::Files))
        }
    } else if f[3] {
        if count_set(f) > 1 {
            Err(SelectorError::IncompatibleVmas)
        } else {
            Ok(MaterializedCommand::Ord(OrdCmd::Vmas))
        }
    } else if f[4] || f[5] || f[6] || f[7] {
        Ok(MaterializedCommand::Ord(OrdCmd::Pages(RegionTypeSelector { zero: f[7], private: f[5], shared: f[6], total: f[4] })))
    } else {
        Ok(MaterializedCommand::Ord(OrdCmd::Intervals(RegionTypeSelector { zero: f[11], private: f[9], shared: f[10], total: f[8] })))
    }
}

/// The materialized `pheader` command the range and the marks select
fn pheader_cmd(range: IndexRange, f: &Vec<bool>) -> (r: Result<MaterializedCommand, SelectorError>)
    requires
        f@.len() == 14,
    ensures
        r == pheader_cmd_of(range, f@),
{
    if f[0] {
        Ok(MaterializedCommand::Pheader(PheaderCmd::All))
    } else if f[1] {
        if range.is_some() || count_set(f) > 1 {
            Err(SelectorError::IncompatibleLen)
        } else {
            Ok(MaterializedCommand::Pheader(PheaderCmd::Len))
        }
    } else {
        Ok(
            MaterializedCommand::Pheader(
                PheaderCmd::Selector {
                    range,
                    selector: PheaderSelector {
                        virtual_range: f[2],
                        virtual_size: f[3],
                        data_size: f[4],
                        pathname: f[5],
                        ref_offset: f[6],
                        prot: f[7],
                        itree: f[8],
                        n_itree_nodes: f[9],
                        zero_pages: f[10],
                        private_pages: f[11],
                        shared_pages: f[12],
                        pages: f[13],
                    },
                },
            ),
        )
    }
}

/// The raw `ord` command the marks select
fn raw_ord_cmd(f: &Vec<bool>) -> (r: Result<RawCommand, SelectorError>)
    requires
        f@.len() == 6,
    ensures
        r == raw_ord_cmd_of(f@),
{
    if f[0] {
        Ok(RawCommand::Ord(OrdCmd::All))
    } else if f[1] {
        if count_set(f) > 1 {
            Err(SelectorError::IncompatibleLen)
        } else {
            Ok(RawCommand::Ord(OrdCmd::Len))
        }
    } else {
        Ok(RawCommand::Ord(OrdCmd::Pages(RegionTypeSelector { zero: f[5], private: f[3], shared: f[4], total: f[2] })))
    }
}

/// The raw `pheader` command the range and the marks select
fn raw_pheader_cmd(range: IndexRange, f: &Vec<bool>) -> (r: Result<RawCommand, SelectorError>)
    requires
        f@.len() == 8,
    ensures
        r == raw_pheader_cmd_of(range, f@),
{
    if f[0] {
        Ok(RawCommand::Pheader(RawPheaderCmd::All))
    } else if f[1] {
        if range.is_some() || count_set(f) > 1 {
            Err(SelectorError::IncompatibleLen)
        } else {
            Ok(RawCommand::Pheader(RawPheaderCmd::Len))
        }
    } else {
        Ok(
            RawCommand::Pheader(
                RawPheaderCmd::Selector {
                    range,
                    selector: RawPheaderSelector {
                        virtual_range: f[2],
                        virtual_size: f[3],
                        pathname_offset: f[4],
                        ref_offset: f[5],
                        prot: f[6],
                        itree: f[7],
                    },
                },
            ),
        )
    }
}

/// Parse a (trimmed) command over the materialized JIF
fn parse_materialized(t: &Vec<char>) -> (r: Result<MaterializedCommand, SelectorError>)
    ensures
        r == spec_parse_materialized(t@),
{
    let jif = str_chars("jif");
    if has_at_exec(t, &jif, 0) {
        let suffix = suffix_of(t, jif.len());
        return match find_multiple_option(&suffix, &jif_table()) {
            Ok(f) => jif_cmd(&f),
            Err(e) => Err(e),
        };
    }
    let ord = str_chars("ord");
    if has_at_exec(t, &ord, 0) {
        let suffix = suffix_of(t, ord.len());
        let (range, used) = match find_range(&suffix) {
            Ok(x) => x,
            Err(e) => {
                return Err(e);
            },
        };
        if range.is_some() {
            if used < suffix.len() {
                return Err(SelectorError::TrailingData);
            }
            return Ok(MaterializedCommand::Ord(OrdCmd::Range(range)));
        }
        let rest = suffix_of(&suffix, used);
        return match find_multiple_option(&rest, &ord_table()) {
            Ok(f) => ord_cmd(&f),
            Err(e) => Err(e),
        };
    }
    let pheader = str_chars("pheader");
    if has_at_exec(t, &pheader, 0) {
        let suffix = suffix_of(t, pheader.len());
        let (range, used) = match find_range(&suffix) {
            Ok(x) => x,
            Err(e) => {
                return Err(e);
            },
        };
        let rest = suffix_of(&suffix, used);
        return match find_multiple_option(&rest, &pheader_table()) {
            Ok(f) => pheader_cmd(range, &f),
            Err(e) => Err(e),
        };
    }
    Err(SelectorError::UnknownCommand)
}

/// Parse a (trimmed) command over the raw JIF
fn parse_raw(t: &Vec<char>) -> (r: Result<RawCommand, SelectorError>)
    ensures
        r == spec_parse_raw(t@),
{
    let jif = str_chars("jif");
    if has_at_exec(t, &jif, 0) {
        let suffix = suffix_of(t, jif.len());
        return match find_single_option(&suffix, &raw_jif_table()) {
            Ok(i) => Ok(
                RawCommand::Jif(
                    if i == 2 {
                        RawJifCmd::Data
                    } else if i == 1 {
                        RawJifCmd::Metadata
                    } else {
                        RawJifCmd::All
                    },
                ),
            ),
            Err(e) => Err(e),
        };
    }
    let strings = str_chars("strings");
    if has_at_exec(t, &strings, 0) {
        let suffix = suffix_of(t, strings.len());
        return match find_single_option(&suffix, &empty_table()) {
            Ok(_) => Ok(RawCommand::Strings),
            Err(e) => Err(e),
        };
    }
    let ord = str_chars("ord");
    if has_at_exec(t, &ord, 0) {
        let suffix = suffix_of(t, ord.len());
        let (range, used) = match find_range(&suffix) {
            Ok(x) => x,
            Err(e) => {
                return Err(e);
            },
        };
        if range.is_some() {
            if used < suffix.len() {
                return Err(SelectorError::TrailingData);
            }
            return Ok(RawCommand::Ord(OrdCmd::Range(range)));
        }
        let rest = suffix_of(&suffix, used);
        return match find_multiple_option(&rest, &raw_ord_table()) {
            Ok(f) => raw_ord_cmd(&f),
            Err(e) => Err(e),
        };
    }
    let itrees = str_chars("itrees");
    if has_at_exec(t, &itrees, 0) {
        let suffix = suffix_of(t, itrees.len());
        let (range, used) = match find_range(&suffix) {
            Ok(x) => x,
            Err(e) => {
                return Err(e);
            },
        };
        if range.is_some() {
            if used < suffix.len() {
                return Err(SelectorError::TrailingData);
            }
            return Ok(RawCommand::ITree(ITreeCmd::Range(range)));
        }
        let rest = suffix_of(&suffix, used);
        return match find_single_option(&rest, &raw_itree_table()) {
            Ok(i) => Ok(
                RawCommand::ITree(
                    if i == 1 {
                        ITreeCmd::Len
                    } else {
                        ITreeCmd::All
                    },
                ),
            ),
            Err(e) => Err(e),
        };
    }
    let pheader = str_chars("pheader");
    if has_at_exec(t, &pheader, 0) {
        let suffix = suffix_of(t, pheader.len());
        let (range, used) = match find_range(&suffix) {
            Ok(x) => x,
            Err(e) => {
                return Err(e);
            },
        };
        let rest = suffix_of(&suffix, used);
        return match find_multiple_option(&rest, &raw_pheader_table()) {
            Ok(f) => raw_pheader_cmd(range, &f),
            Err(e) => Err(e),
        };
    }
    Err(SelectorError::UnknownCommand)
}

/// The options one after the other
pub open spec fn joined(os: Seq<Seq<char>>) -> Seq<char>
    decreases os.len(),
{
    if os.len() == 0 {
        seq![]
    } else {
        joined(os.drop_last()) + os.last()
    }
}

} // verus!
