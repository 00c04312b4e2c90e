//! What scanning a command's options gives: each option named marks its own field

use vstd::prelude::*;
use crate::selectors::{
    IndexRange, JifCmd, MaterializedCommand, OrdCmd, PheaderCmd, PheaderSelector, RawCommand, RawPheaderCmd,
    RawPheaderSelector, RegionTypeSelector, SelectorError, count_empty, first_option, has_at, jif_options, joined,
    ord_options, pheader_options, raw_ord_options, raw_pheader_options, scan_options, spec_find_range,
    spec_parse_materialized, spec_parse_raw,
};
use crate::text::{spec_trim, trim_back, trim_front};

verus! {

/// `a` and `b` differ at some position, from `d` on, that both have
pub open spec fn differ_from(a: Seq<char>, b: Seq<char>, d: nat) -> bool
    decreases a.len() - d,
{
    if d < a.len() && d < b.len() {
        a[d as int] != b[d as int] || differ_from(a, b, d + 1)
    } else {
        false
    }
}

/// Option `j` differs from every nonempty option before it
pub open spec fn apart_before(opts: Seq<Seq<char>>, j: int) -> bool {
    forall|i: int| 0 <= i < j && opts[i].len() > 0 ==> #[trigger] differ_from(opts[i], opts[j], 0)
}

/// Options that differ somewhere cannot both start at the same place
proof fn lemma_differ_not_both(s: Seq<char>, at: int, a: Seq<char>, b: Seq<char>, d: nat)
    requires
        differ_from(a, b, d),
    ensures
        !(has_at(s, a, at) && has_at(s, b, at)),
    decreases a.len() - d,
{
    if has_at(s, a, at) && has_at(s, b, at) {
        assert(s.subrange(at, at + a.len())[d as int] == s[at + d]);
        assert(s.subrange(at, at + b.len())[d as int] == s[at + d]);
        if a[d as int] == b[d as int] {
            lemma_differ_not_both(s, at, a, b, d + 1);
        }
    }
}

/// The first option found at `at`, searching from `i`, is option `j` when it starts there and
/// differs from the nonempty options before it
proof fn lemma_first_option_is(s: Seq<char>, at: int, opts: Seq<Seq<char>>, i: int, j: int)
    requires
        0 <= i <= j < opts.len(),
        opts[j].len() > 0,
        has_at(s, opts[j], at),
        apart_before(opts, j),
    ensures
        first_option(s, at, opts, i) == Some(j),
    decreases j - i,
{
    if i < j {
        if opts[i].len() > 0 && has_at(s, opts[i], at) {
            assert(differ_from(opts[i], opts[j], 0));
            lemma_differ_not_both(s, at, opts[i], opts[j], 0);
        }
        lemma_first_option_is(s, at, opts, i + 1, j);
    }
}

/// The options at positions `ks` of the table
pub open spec fn picked(opts: Seq<Seq<char>>, ks: Seq<int>) -> Seq<Seq<char>> {
    ks.map_values(|k: int| opts[k])
}

/// The marks, over `n` options, of the positions `ks`, set in turn
pub open spec fn index_marks(n: nat, ks: Seq<int>) -> Seq<bool>
    decreases ks.len(),
{
    if ks.len() == 0 {
        Seq::new(n, |_i: int| false)
    } else {
        index_marks(n, ks.drop_last()).update(ks.last(), true)
    }
}

/// The marks set are those of the positions met
proof fn lemma_index_marks(n: nat, ks: Seq<int>)
    requires
        forall|m: int| 0 <= m < ks.len() ==> 0 <= #[trigger] ks[m] < n,
    ensures
        index_marks(n, ks).len() == n,
        forall|i: int| 0 <= i < n ==> #[trigger] index_marks(n, ks)[i] == ks.contains(i),
    decreases ks.len(),
{
    if ks.len() > 0 {
        let p = ks.drop_last();
        assert forall|m: int| 0 <= m < p.len() implies 0 <= #[trigger] p[m] < n by {
            assert(p[m] == ks[m]);
        }
        lemma_index_marks(n, p);
        assert forall|i: int| 0 <= i < n implies #[trigger] index_marks(n, ks)[i] == ks.contains(i) by {
            if ks.contains(i) && i != ks.last() {
                let m = choose|m: int| 0 <= m < ks.len() && ks[m] == i;
                assert(m < p.len());
                assert(p[m] == i);
            }
            if p.contains(i) {
                let m = choose|m: int| 0 <= m < p.len() && p[m] == i;
                assert(ks[m] == i);
            }
            if i == ks.last() {
                assert(ks[ks.len() - 1] == i);
            }
        }
    }
}

/// The options put one after the other start each where the ones before end
proof fn lemma_joined_prefix(os: Seq<Seq<char>>, k: int)
    requires
        0 <= k < os.len(),
    ensures
        joined(os.take(k + 1)) == joined(os.take(k)) + os[k],
        joined(os).len() >= joined(os.take(k + 1)).len(),
        joined(os).subrange(0, joined(os.take(k + 1)).len() as int) == joined(os.take(k + 1)),
    decreases os.len(),
{
    assert(os.take(k + 1).drop_last() =~= os.take(k));
    if k + 1 < os.len() {
        lemma_joined_prefix(os.drop_last(), k);
        assert(os.drop_last().take(k + 1) =~= os.take(k + 1));
        assert(os.drop_last().take(k) =~= os.take(k));
        assert(joined(os) == joined(os.drop_last()) + os.last());
    } else {
        assert(os.take(k + 1) =~= os);
    }
}

/// Positions of nonempty options, each differing from the nonempty ones before it
pub open spec fn well_picked(opts: Seq<Seq<char>>, ks: Seq<int>) -> bool {
    forall|m: int| 0 <= m < ks.len() ==> 0 <= #[trigger] ks[m] < opts.len() && opts[ks[m]].len() > 0 && apart_before(opts, ks[m])
}

/// Scanning options put one after the other marks each of them
proof fn lemma_scan_picked(opts: Seq<Seq<char>>, ks: Seq<int>, k: int)
    requires
        well_picked(opts, ks),
        0 <= k <= ks.len(),
    ensures
        scan_options(joined(picked(opts, ks)), joined(picked(opts, ks).take(k)).len() as int, opts, index_marks(
            opts.len(),
            ks.take(k),
        )) == Some(index_marks(opts.len(), ks)),
    decreases ks.len() - k,
{
    let os = picked(opts, ks);
    let s = joined(os);
    if k == ks.len() {
        assert(os.take(k) =~= os);
        assert(ks.take(k) =~= ks);
    } else {
        lemma_joined_prefix(os, k);
        let at = joined(os.take(k)).len() as int;
        let o = os[k];
        assert(o == opts[ks[k]]);
        assert(s.subrange(at, at + o.len()) == o) by {
            assert(s.subrange(0, at + o.len()).subrange(at, at + o.len()) =~= s.subrange(at, at + o.len()));
            assert((joined(os.take(k)) + o).subrange(at, at + o.len()) =~= o);
        }
        lemma_first_option_is(s, at, opts, 0, ks[k]);
        assert(ks.take(k + 1).drop_last() =~= ks.take(k));
        assert(ks.take(k + 1).last() == ks[k]);
        lemma_scan_picked(opts, ks, k + 1);
    }
}

/// Scanning nonempty options put one after the other, none of them empty, marks exactly them
pub proof fn lemma_find_picked(opts: Seq<Seq<char>>, ks: Seq<int>)
    requires
        well_picked(opts, ks),
        ks.len() > 0,
        count_empty(opts) <= 1,
    ensures
        crate::selectors::spec_find_multiple(joined(picked(opts, ks)), opts) == Ok::<Seq<bool>, SelectorError>(
            index_marks(opts.len(), ks),
        ),
        joined(picked(opts, ks)).len() > 0,
{
    let os = picked(opts, ks);
    lemma_joined_prefix(os, 0);
    assert(os.take(0) =~= Seq::<Seq<char>>::empty());
    assert(ks.take(0) =~= Seq::<int>::empty());
    lemma_scan_picked(opts, ks, 0);
}

/// Positions, within `[lo; hi)` of the table, of the options `os`
pub proof fn lemma_pick_indices(opts: Seq<Seq<char>>, lo: int, hi: int, os: Seq<Seq<char>>) -> (ks: Seq<int>)
    requires
        0 <= lo <= hi <= opts.len(),
        forall|i: int, j: int| lo <= i < j < hi ==> opts[i] != opts[j],
        forall|m: int| 0 <= m < os.len() ==> opts.subrange(lo, hi).contains(#[trigger] os[m]),
    ensures
        ks.len() == os.len(),
        picked(opts, ks) == os,
        forall|m: int| 0 <= m < ks.len() ==> lo <= #[trigger] ks[m] < hi,
        forall|i: int| lo <= i < hi ==> (ks.contains(i) <==> os.contains(opts[i])),
{
    let ks = os.map_values(|o: Seq<char>| choose|i: int| lo <= i < hi && opts[i] == o);
    assert forall|m: int| 0 <= m < os.len() implies lo <= #[trigger] ks[m] < hi && opts[ks[m]] == os[m] by {
        let j = choose|j: int| 0 <= j < hi - lo && opts.subrange(lo, hi)[j] == os[m];
        assert(opts[lo + j] == os[m]);
    }
    assert(picked(opts, ks) =~= os);
    assert forall|i: int| lo <= i < hi implies (ks.contains(i) <==> os.contains(opts[i])) by {
        if ks.contains(i) {
            let m = choose|m: int| 0 <= m < ks.len() && ks[m] == i;
            assert(os[m] == opts[i]);
        }
        if os.contains(opts[i]) {
            let m = choose|m: int| 0 <= m < os.len() && os[m] == opts[i];
            assert(opts[ks[m]] == opts[i]);
            assert(ks[m] == i);
        }
    }
    ks
}

/// A command without surrounding whitespace is its own trimmed form
proof fn lemma_trim_none(t: Seq<char>)
    requires
        t.len() > 0,
        !crate::text::spec_is_whitespace(t[0]),
        !crate::text::spec_is_whitespace(t.last()),
    ensures
        spec_trim(t) == t,
{
    assert(trim_front(t) == t);
    assert(trim_back(t) == t);
}

/// What the literals of the `jif` options hold
proof fn lemma_jif_table()
    ensures
        jif_options().len() == 10,
        jif_options()[0] == ""@,
        jif_options()[1] == ".strings"@,
        jif_options()[2] == ".zero_pages"@,
        jif_options()[3] == ".private_pages"@,
        jif_options()[4] == ".shared_pages"@,
        jif_options()[5] == ".pages"@,
        jif_options()[6] == ".intervals"@,
        jif_options()[7] == ".private_intervals"@,
        jif_options()[8] == ".shared_intervals"@,
        jif_options()[9] == ".zero_intervals"@,
        count_empty(jif_options()) == 1,
        forall|j: int| 2 <= j < 10 ==> #[trigger] apart_before(jif_options(), j),
        forall|i: int, j: int| 2 <= i < j < 10 ==> jif_options()[i] != jif_options()[j],
        forall|j: int| 2 <= j < 10 ==> jif_options()[j].len() > 0 && jif_options()[j][0] == '.' && jif_options()[j].last() == 's',
{
    reveal_strlit("");
    reveal_strlit(".strings");
    reveal_strlit(".zero_pages");
    reveal_strlit(".private_pages");
    reveal_strlit(".shared_pages");
    reveal_strlit(".pages");
    reveal_strlit(".intervals");
    reveal_strlit(".private_intervals");
    reveal_strlit(".shared_intervals");
    reveal_strlit(".zero_intervals");
    let o = jif_options();
    reveal_with_fuel(differ_from, 12);
    assert(count_empty(o.take(0)) == 0);
    assert(o.take(1).drop_last() =~= o.take(0) && o.take(1).last() == o[0]);
    assert(o.take(2).drop_last() =~= o.take(1) && o.take(2).last() == o[1]);
    assert(o.take(3).drop_last() =~= o.take(2) && o.take(3).last() == o[2]);
    assert(o.take(4).drop_last() =~= o.take(3) && o.take(4).last() == o[3]);
    assert(o.take(5).drop_last() =~= o.take(4) && o.take(5).last() == o[4]);
    assert(o.take(6).drop_last() =~= o.take(5) && o.take(6).last() == o[5]);
    assert(o.take(7).drop_last() =~= o.take(6) && o.take(7).last() == o[6]);
    assert(o.take(8).drop_last() =~= o.take(7) && o.take(8).last() == o[7]);
    assert(o.take(9).drop_last() =~= o.take(8) && o.take(9).last() == o[8]);
    assert(o.take(10).drop_last() =~= o.take(9) && o.take(10).last() == o[9]);
    assert(o.take(10) =~= o);
    assert(count_empty(o.take(1)) == 1);
    assert(count_empty(o.take(2)) == 1);
    assert(count_empty(o.take(3)) == 1);
    assert(count_empty(o.take(4)) == 1);
    assert(count_empty(o.take(5)) == 1);
    assert(count_empty(o.take(6)) == 1);
    assert(count_empty(o.take(7)) == 1);
    assert(count_empty(o.take(8)) == 1);
    assert(count_empty(o.take(9)) == 1);
    assert(count_empty(o.take(10)) == 1);
    assert forall|j: int| 2 <= j < 10 implies #[trigger] apart_before(o, j) by {
        assert forall|i: int| 0 <= i < j && o[i].len() > 0 implies #[trigger] differ_from(o[i], o[j], 0) by {
            assert(differ_from(o[i], o[j], 0));
        }
    }
    assert forall|i: int, j: int| 2 <= i < j < 10 implies o[i] != o[j] by {
        assert(apart_before(o, j));
        assert(o[i].len() > 0);
        lemma_differ_ne(o[i], o[j], 0);
    }
}

/// The page options of the `jif` selector
pub open spec fn jif_page_options() -> Seq<Seq<char>> {
    seq![".zero_pages"@, ".private_pages"@, ".shared_pages"@, ".pages"@]
}

/// The interval options of the `jif` selector
pub open spec fn jif_interval_options() -> Seq<Seq<char>> {
    seq![".intervals"@, ".private_intervals"@, ".shared_intervals"@, ".zero_intervals"@]
}

/// The selector followed by the options, as a command with no surrounding whitespace, gives the
/// marks of the options' positions in the table
proof fn lemma_selector_options(name: Seq<char>, opts: Seq<Seq<char>>, ks: Seq<int>)
    requires
        well_picked(opts, ks),
        ks.len() > 0,
        count_empty(opts) <= 1,
        name.len() > 0,
        !crate::text::spec_is_whitespace(name[0]),
        forall|m: int| 0 <= m < ks.len() ==> !crate::text::spec_is_whitespace((#[trigger] opts[ks[m]]).last()),
    ensures
        spec_trim(name + joined(picked(opts, ks))) == name + joined(picked(opts, ks)),
        (name + joined(picked(opts, ks))).skip(name.len() as int) == joined(picked(opts, ks)),
        (name + joined(picked(opts, ks))).subrange(0, name.len() as int) == name,
        crate::selectors::spec_find_multiple(joined(picked(opts, ks)), opts) == Ok::<Seq<bool>, SelectorError>(
            index_marks(opts.len(), ks),
        ),
        joined(picked(opts, ks)).len() > 0,
        joined(picked(opts, ks))[0] == opts[ks[0]][0],
{
    let os = picked(opts, ks);
    let s = joined(os);
    let t = name + s;
    lemma_find_picked(opts, ks);
    let n = os.len() as int;
    lemma_joined_prefix(os, n - 1);
    assert(os.take(n) =~= os);
    assert(os[n - 1] == opts[ks[n - 1]]);
    assert(s == joined(os.take(n - 1)) + os[n - 1]);
    assert(os[n - 1].len() > 0);
    assert(t.last() == os[n - 1].last()) by {
        assert(t[t.len() - 1] == s[s.len() - 1]);
    }
    assert(!crate::text::spec_is_whitespace(opts[ks[n - 1]].last()));
    assert(t[0] == name[0]);
    lemma_trim_none(t);
    assert(t.skip(name.len() as int) =~= s);
    assert(t.subrange(0, name.len() as int) =~= name);
    lemma_joined_prefix(os, 0);
    assert(os.take(0) =~= Seq::<Seq<char>>::empty());
    assert(os[0] == opts[ks[0]]);
    assert(joined(os.take(1)) =~= os[0]);
    assert(s.subrange(0, os[0].len() as int)[0] == s[0]);
}

/// A `jif` command followed by page options counts the pages of the kinds those options name:
/// each option sets the field of its own name, and only those
#[verifier::rlimit(40)]
#[verifier::spinoff_prover]
pub proof fn law_jif_page_selectors(os: Seq<Seq<char>>)
    requires
        os.len() > 0,
        forall|m: int| 0 <= m < os.len() ==> jif_page_options().contains(#[trigger] os[m]),
    ensures
        spec_parse_materialized(spec_trim("jif"@ + joined(os))) == Ok::<MaterializedCommand, SelectorError>(
            MaterializedCommand::Jif(
                JifCmd::Pages(
                    RegionTypeSelector {
                        zero: os.contains(".zero_pages"@),
                        private: os.contains(".private_pages"@),
                        shared: os.contains(".shared_pages"@),
                        total: os.contains(".pages"@),
                    },
                ),
            ),
        ),
{
    reveal_strlit("jif");
    lemma_jif_table();
    let opts = jif_options();
    assert(opts.subrange(2, 6) =~= jif_page_options());
    let ks = lemma_pick_indices(opts, 2, 6, os);
    lemma_selector_options("jif"@, opts, ks);
    lemma_index_marks(10, ks);
    let f = index_marks(10, ks);
    assert(!f[0] && !f[1] && !f[6] && !f[7] && !f[8] && !f[9]);
}

/// A `jif` command followed by interval options counts the intervals of the kinds those options
/// name: each option sets the field of its own name, and only those
#[verifier::rlimit(40)]
#[verifier::spinoff_prover]
pub proof fn law_jif_interval_selectors(os: Seq<Seq<char>>)
    requires
        os.len() > 0,
        forall|m: int| 0 <= m < os.len() ==> jif_interval_options().contains(#[trigger] os[m]),
    ensures
        spec_parse_materialized(spec_trim("jif"@ + joined(os))) == Ok::<MaterializedCommand, SelectorError>(
            MaterializedCommand::Jif(
                JifCmd::Intervals(
                    RegionTypeSelector {
                        zero: os.contains(".zero_intervals"@),
                        private: os.contains(".private_intervals"@),
                        shared: os.contains(".shared_intervals"@),
                        total: os.contains(".intervals"@),
                    },
                ),
            ),
        ),
{
    reveal_strlit("jif");
    lemma_jif_table();
    let opts = jif_options();
    assert(opts.subrange(6, 10) =~= jif_interval_options());
    let ks = lemma_pick_indices(opts, 6, 10, os);
    lemma_selector_options("jif"@, opts, ks);
    lemma_index_marks(10, ks);
    let f = index_marks(10, ks);
    assert(!f[0] && !f[1] && !f[2] && !f[3] && !f[4] && !f[5]);
    assert(ks.contains(ks[0]));
    assert(f[6] || f[7] || f[8] || f[9]);
}

/// Options that differ somewhere are different
proof fn lemma_differ_ne(a: Seq<char>, b: Seq<char>, d: nat)
    requires
        differ_from(a, b, d),
    ensures
        a != b,
    decreases a.len() - d,
{
    if a[d as int] == b[d as int] {
        lemma_differ_ne(a, b, d + 1);
    }
}

/// A command whose first character differs from a selector's is not that selector
proof fn lemma_not_at(t: Seq<char>, p: Seq<char>)
    requires
        p.len() > 0,
        t.len() > 0,
        t[0] != p[0],
    ensures
        !has_at(t, p, 0),
{
    if has_at(t, p, 0) {
        assert(t.subrange(0, p.len() as int)[0] == t[0]);
    }
}

/// A table whose first option alone is empty holds a single empty option
proof fn lemma_count_empty_first(opts: Seq<Seq<char>>)
    requires
        opts.len() > 0,
        opts[0].len() == 0,
        forall|i: int| 1 <= i < opts.len() ==> (#[trigger] opts[i]).len() > 0,
    ensures
        count_empty(opts) == 1,
    decreases opts.len(),
{
    if opts.len() > 1 {
        let p = opts.drop_last();
        assert forall|i: int| 1 <= i < p.len() implies (#[trigger] p[i]).len() > 0 by {
            assert(p[i] == opts[i]);
        }
        lemma_count_empty_first(p);
        assert(opts.last() == opts[opts.len() - 1]);
        assert(opts[opts.len() - 1].len() > 0);
    } else {
        assert(opts.drop_last() =~= Seq::<Seq<char>>::empty());
        assert(count_empty(opts.drop_last()) == 0);
        assert(opts.last() == opts[0]);
    }
}

/// What the literals of the options of `ord_options` hold
proof fn lemma_ord_table()
    ensures
        ord_options().len() == 12,
        ord_options()[0] == ""@,
        ord_options()[1] == ".len"@,
        ord_options()[2] == ".files"@,
        ord_options()[3] == ".vmas"@,
        ord_options()[4] == ".pages"@,
        ord_options()[5] == ".private_pages"@,
        ord_options()[6] == ".shared_pages"@,
        ord_options()[7] == ".zero_pages"@,
        ord_options()[8] == ".intervals"@,
        ord_options()[9] == ".private_intervals"@,
        ord_options()[10] == ".shared_intervals"@,
        ord_options()[11] == ".zero_intervals"@,
        count_empty(ord_options()) == 1,
        forall|j: int| 4 <= j < 12 ==> #[trigger] apart_before(ord_options(), j),
        forall|i: int, j: int| 4 <= i < j < 12 ==> ord_options()[i] != ord_options()[j],
        forall|j: int| 1 <= j < 12 ==> ord_options()[j].len() > 0 && ord_options()[j][0] == '.'
            && !crate::text::spec_is_whitespace(ord_options()[j].last()),
{
    reveal_strlit("");
    reveal_strlit(".len");
    reveal_strlit(".files");
    reveal_strlit(".vmas");
    reveal_strlit(".pages");
    reveal_strlit(".private_pages");
    reveal_strlit(".shared_pages");
    reveal_strlit(".zero_pages");
    reveal_strlit(".intervals");
    reveal_strlit(".private_intervals");
    reveal_strlit(".shared_intervals");
    reveal_strlit(".zero_intervals");
    let o = ord_options();
    reveal_with_fuel(differ_from, 16);
    lemma_count_empty_first(o);
    assert forall|j: int| 4 <= j < 12 implies #[trigger] apart_before(o, j) by {
        assert forall|i: int| 0 <= i < j && o[i].len() > 0 implies #[trigger] differ_from(o[i], o[j], 0) by {
            assert(differ_from(o[i], o[j], 0));
        }
    }
    assert forall|i: int, j: int| 4 <= i < j < 12 implies o[i] != o[j] by {
        assert(apart_before(o, j));
        assert(o[i].len() > 0);
        lemma_differ_ne(o[i], o[j], 0);
    }
}

/// What the literals of the options of `pheader_options` hold
proof fn lemma_pheader_table()
    ensures
        pheader_options().len() == 14,
        pheader_options()[0] == ""@,
        pheader_options()[1] == ".len"@,
        pheader_options()[2] == ".virtual_range"@,
        pheader_options()[3] == ".virtual_size"@,
        pheader_options()[4] == ".data_size"@,
        pheader_options()[5] == ".pathname"@,
        pheader_options()[6] == ".ref_offset"@,
        pheader_options()[7] == ".prot"@,
        pheader_options()[8] == ".itree"@,
        pheader_options()[9] == ".n_itree_nodes"@,
        pheader_options()[10] == ".zero_pages"@,
        pheader_options()[11] == ".private_pages"@,
        pheader_options()[12] == ".shared_pages"@,
        pheader_options()[13] == ".pages"@,
        count_empty(pheader_options()) == 1,
        forall|j: int| 2 <= j < 14 ==> #[trigger] apart_before(pheader_options(), j),
        forall|i: int, j: int| 2 <= i < j < 14 ==> pheader_options()[i] != pheader_options()[j],
        forall|j: int| 1 <= j < 14 ==> pheader_options()[j].len() > 0 && pheader_options()[j][0] == '.'
            && !crate::text::spec_is_whitespace(pheader_options()[j].last()),
{
    reveal_strlit("");
    reveal_strlit(".len");
    reveal_strlit(".virtual_range");
    reveal_strlit(".virtual_size");
    reveal_strlit(".data_size");
    reveal_strlit(".pathname");
    reveal_strlit(".ref_offset");
    reveal_strlit(".prot");
    reveal_strlit(".itree");
    reveal_strlit(".n_itree_nodes");
    reveal_strlit(".zero_pages");
    reveal_strlit(".private_pages");
    reveal_strlit(".shared_pages");
    reveal_strlit(".pages");
    let o = pheader_options();
    reveal_with_fuel(differ_from, 16);
    lemma_count_empty_first(o);
    assert forall|j: int| 2 <= j < 14 implies #[trigger] apart_before(o, j) by {
        assert forall|i: int| 0 <= i < j && o[i].len() > 0 implies #[trigger] differ_from(o[i], o[j], 0) by {
            assert(differ_from(o[i], o[j], 0));
        }
    }
    assert forall|i: int, j: int| 2 <= i < j < 14 implies o[i] != o[j] by {
        assert(apart_before(o, j));
        assert(o[i].len() > 0);
        lemma_differ_ne(o[i], o[j], 0);
    }
}

/// What the literals of the options of `raw_ord_options` hold
proof fn lemma_raw_ord_table()
    ensures
        raw_ord_options().len() == 6,
        raw_ord_options()[0] == ""@,
        raw_ord_options()[1] == ".len"@,
        raw_ord_options()[2] == ".pages"@,
        raw_ord_options()[3] == ".private_pages"@,
        raw_ord_options()[4] == ".shared_pages"@,
        raw_ord_options()[5] == ".zero_pages"@,
        count_empty(raw_ord_options()) == 1,
        forall|j: int| 2 <= j < 6 ==> #[trigger] apart_before(raw_ord_options(), j),
        forall|i: int, j: int| 2 <= i < j < 6 ==> raw_ord_options()[i] != raw_ord_options()[j],
        forall|j: int| 1 <= j < 6 ==> raw_ord_options()[j].len() > 0 && raw_ord_options()[j][0] == '.'
            && !crate::text::spec_is_whitespace(raw_ord_options()[j].last()),
{
    reveal_strlit("");
    reveal_strlit(".len");
    reveal_strlit(".pages");
    reveal_strlit(".private_pages");
    reveal_strlit(".shared_pages");
    reveal_strlit(".zero_pages");
    let o = raw_ord_options();
    reveal_with_fuel(differ_from, 16);
    lemma_count_empty_first(o);
    assert forall|j: int| 2 <= j < 6 implies #[trigger] apart_before(o, j) by {
        assert forall|i: int| 0 <= i < j && o[i].len() > 0 implies #[trigger] differ_from(o[i], o[j], 0) by {
            assert(differ_from(o[i], o[j], 0));
        }
    }
    assert forall|i: int, j: int| 2 <= i < j < 6 implies o[i] != o[j] by {
        assert(apart_before(o, j));
        assert(o[i].len() > 0);
        lemma_differ_ne(o[i], o[j], 0);
    }
}

/// What the literals of the options of `raw_pheader_options` hold
proof fn lemma_raw_pheader_table()
    ensures
        raw_pheader_options().len() == 8,
        raw_pheader_options()[0] == ""@,
        raw_pheader_options()[1] == ".len"@,
        raw_pheader_options()[2] == ".virtual_range"@,
        raw_pheader_options()[3] == ".virtual_size"@,
        raw_pheader_options()[4] == ".pathname_offset"@,
        raw_pheader_options()[5] == ".ref_offset"@,
        raw_pheader_options()[6] == ".prot"@,
        raw_pheader_options()[7] == ".itree"@,
        count_empty(raw_pheader_options()) == 1,
        forall|j: int| 2 <= j < 8 ==> #[trigger] apart_before(raw_pheader_options(), j),
        forall|i: int, j: int| 2 <= i < j < 8 ==> raw_pheader_options()[i] != raw_pheader_options()[j],
        forall|j: int| 1 <= j < 8 ==> raw_pheader_options()[j].len() > 0 && raw_pheader_options()[j][0] == '.'
            && !crate::text::spec_is_whitespace(raw_pheader_options()[j].last()),
{
    reveal_strlit("");
    reveal_strlit(".len");
    reveal_strlit(".virtual_range");
    reveal_strlit(".virtual_size");
    reveal_strlit(".pathname_offset");
    reveal_strlit(".ref_offset");
    reveal_strlit(".prot");
    reveal_strlit(".itree");
    let o = raw_pheader_options();
    reveal_with_fuel(differ_from, 16);
    lemma_count_empty_first(o);
    assert forall|j: int| 2 <= j < 8 implies #[trigger] apart_before(o, j) by {
        assert forall|i: int| 0 <= i < j && o[i].len() > 0 implies #[trigger] differ_from(o[i], o[j], 0) by {
            assert(differ_from(o[i], o[j], 0));
        }
    }
    assert forall|i: int, j: int| 2 <= i < j < 8 implies o[i] != o[j] by {
        assert(apart_before(o, j));
        assert(o[i].len() > 0);
        lemma_differ_ne(o[i], o[j], 0);
    }
}

/// The page options of the `ord` selector
pub open spec fn ord_page_options() -> Seq<Seq<char>> {
    seq![".pages"@, ".private_pages"@, ".shared_pages"@, ".zero_pages"@]
}

/// The interval options of the `ord` selector
pub open spec fn ord_interval_options() -> Seq<Seq<char>> {
    seq![".intervals"@, ".private_intervals"@, ".shared_intervals"@, ".zero_intervals"@]
}

/// The field options of the `pheader` selector
pub open spec fn pheader_field_options() -> Seq<Seq<char>> {
    seq![
        ".virtual_range"@,
        ".virtual_size"@,
        ".data_size"@,
        ".pathname"@,
        ".ref_offset"@,
        ".prot"@,
        ".itree"@,
        ".n_itree_nodes"@,
        ".zero_pages"@,
        ".private_pages"@,
        ".shared_pages"@,
        ".pages"@,
    ]
}

/// The field options of the raw `pheader` selector
pub open spec fn raw_pheader_field_options() -> Seq<Seq<char>> {
    seq![".virtual_range"@, ".virtual_size"@, ".pathname_offset"@, ".ref_offset"@, ".prot"@, ".itree"@]
}

/// An `ord` command followed by page options counts the ordered pages of the kinds those options
/// name: each option sets the field of its own name, and only those
#[verifier::rlimit(40)]
#[verifier::spinoff_prover]
pub proof fn law_ord_page_selectors(os: Seq<Seq<char>>)
    requires
        os.len() > 0,
        forall|m: int| 0 <= m < os.len() ==> ord_page_options().contains(#[trigger] os[m]),
    ensures
        spec_parse_materialized(spec_trim("ord"@ + joined(os))) == Ok::<MaterializedCommand, SelectorError>(
            MaterializedCommand::Ord(
                OrdCmd::Pages(
                    RegionTypeSelector {
                        zero: os.contains(".zero_pages"@),
                        private: os.contains(".private_pages"@),
                        shared: os.contains(".shared_pages"@),
                        total: os.contains(".pages"@),
                    },
                ),
            ),
        ),
{
    reveal_strlit("ord");
    reveal_strlit("jif");
    lemma_ord_table();
    let opts = ord_options();
    assert(opts.subrange(4, 8) =~= ord_page_options());
    let ks = lemma_pick_indices(opts, 4, 8, os);
    lemma_selector_options("ord"@, opts, ks);
    let t = "ord"@ + joined(os);
    assert(t[0] == 'o');
    lemma_not_at(t, "jif"@);
    assert(spec_find_range(joined(os)) == Ok::<(IndexRange, int), SelectorError>((IndexRange::NoRange, 0)));
    assert(joined(os).skip(0) =~= joined(os));
    lemma_index_marks(12, ks);
    let f = index_marks(12, ks);
    assert(!f[0] && !f[1] && !f[2] && !f[3]);
    assert(ks.contains(ks[0]));
    assert(f[4] || f[5] || f[6] || f[7]);
}

/// An `ord` command followed by interval options counts the intervals of the kinds those options
/// name that the ordered pages fall in: each option sets the field of its own name, and only those
#[verifier::rlimit(40)]
#[verifier::spinoff_prover]
pub proof fn law_ord_interval_selectors(os: Seq<Seq<char>>)
    requires
        os.len() > 0,
        forall|m: int| 0 <= m < os.len() ==> ord_interval_options().contains(#[trigger] os[m]),
    ensures
        spec_parse_materialized(spec_trim("ord"@ + joined(os))) == Ok::<MaterializedCommand, SelectorError>(
            MaterializedCommand::Ord(
                OrdCmd::Intervals(
                    RegionTypeSelector {
                        zero: os.contains(".zero_intervals"@),
                        private: os.contains(".private_intervals"@),
                        shared: os.contains(".shared_intervals"@),
                        total: os.contains(".intervals"@),
                    },
                ),
            ),
        ),
{
    reveal_strlit("ord");
    reveal_strlit("jif");
    lemma_ord_table();
    let opts = ord_options();
    assert(opts.subrange(8, 12) =~= ord_interval_options());
    let ks = lemma_pick_indices(opts, 8, 12, os);
    lemma_selector_options("ord"@, opts, ks);
    let t = "ord"@ + joined(os);
    assert(t[0] == 'o');
    lemma_not_at(t, "jif"@);
    assert(spec_find_range(joined(os)) == Ok::<(IndexRange, int), SelectorError>((IndexRange::NoRange, 0)));
    assert(joined(os).skip(0) =~= joined(os));
    lemma_index_marks(12, ks);
    let f = index_marks(12, ks);
    assert(!f[0] && !f[1] && !f[2] && !f[3] && !f[4] && !f[5] && !f[6] && !f[7]);
}

/// A `pheader` command followed by field options shows the fields those options name: each
/// option sets the field of its own name, and only those
#[verifier::rlimit(40)]
#[verifier::spinoff_prover]
pub proof fn law_pheader_selectors(os: Seq<Seq<char>>)
    requires
        os.len() > 0,
        forall|m: int| 0 <= m < os.len() ==> pheader_field_options().contains(#[trigger] os[m]),
    ensures
        spec_parse_materialized(spec_trim("pheader"@ + joined(os))) == Ok::<MaterializedCommand, SelectorError>(
            MaterializedCommand::Pheader(
                PheaderCmd::Selector {
                    range: IndexRange::NoRange,
                    selector: PheaderSelector {
                        virtual_range: os.contains(".virtual_range"@),
                        virtual_size: os.contains(".virtual_size"@),
                        data_size: os.contains(".data_size"@),
                        pathname: os.contains(".pathname"@),
                        ref_offset: os.contains(".ref_offset"@),
                        prot: os.contains(".prot"@),
                        itree: os.contains(".itree"@),
                        n_itree_nodes: os.contains(".n_itree_nodes"@),
                        zero_pages: os.contains(".zero_pages"@),
                        private_pages: os.contains(".private_pages"@),
                        shared_pages: os.contains(".shared_pages"@),
                        pages: os.contains(".pages"@),
                    },
                },
            ),
        ),
{
    reveal_strlit("pheader");
    reveal_strlit("ord");
    reveal_strlit("jif");
    lemma_pheader_table();
    let opts = pheader_options();
    assert(opts.subrange(2, 14) =~= pheader_field_options());
    let ks = lemma_pick_indices(opts, 2, 14, os);
    lemma_selector_options("pheader"@, opts, ks);
    let t = "pheader"@ + joined(os);
    assert(t[0] == 'p');
    lemma_not_at(t, "jif"@);
    lemma_not_at(t, "ord"@);
    assert(spec_find_range(joined(os)) == Ok::<(IndexRange, int), SelectorError>((IndexRange::NoRange, 0)));
    assert(joined(os).skip(0) =~= joined(os));
    lemma_index_marks(14, ks);
    let f = index_marks(14, ks);
    assert(!f[0] && !f[1]);
}

/// A raw `ord` command followed by page options counts the ordered pages of the kinds those
/// options name: each option sets the field of its own name, and only those
#[verifier::rlimit(40)]
#[verifier::spinoff_prover]
pub proof fn law_raw_ord_selectors(os: Seq<Seq<char>>)
    requires
        os.len() > 0,
        forall|m: int| 0 <= m < os.len() ==> ord_page_options().contains(#[trigger] os[m]),
    ensures
        spec_parse_raw(spec_trim("ord"@ + joined(os))) == Ok::<RawCommand, SelectorError>(
            RawCommand::Ord(
                OrdCmd::Pages(
                    RegionTypeSelector {
                        zero: os.contains(".zero_pages"@),
                        private: os.contains(".private_pages"@),
                        shared: os.contains(".shared_pages"@),
                        total: os.contains(".pages"@),
                    },
                ),
            ),
        ),
{
    reveal_strlit("ord");
    reveal_strlit("jif");
    reveal_strlit("strings");
    lemma_raw_ord_table();
    let opts = raw_ord_options();
    assert(opts.subrange(2, 6) =~= ord_page_options());
    let ks = lemma_pick_indices(opts, 2, 6, os);
    lemma_selector_options("ord"@, opts, ks);
    let t = "ord"@ + joined(os);
    assert(t[0] == 'o');
    lemma_not_at(t, "jif"@);
    lemma_not_at(t, "strings"@);
    assert(spec_find_range(joined(os)) == Ok::<(IndexRange, int), SelectorError>((IndexRange::NoRange, 0)));
    assert(joined(os).skip(0) =~= joined(os));
    lemma_index_marks(6, ks);
    let f = index_marks(6, ks);
    assert(!f[0] && !f[1]);
}

/// A raw `pheader` command followed by field options shows the fields those options name: each
/// option sets the field of its own name, and only those
#[verifier::rlimit(40)]
#[verifier::spinoff_prover]
pub proof fn law_raw_pheader_selectors(os: Seq<Seq<char>>)
    requires
        os.len() > 0,
        forall|m: int| 0 <= m < os.len() ==> raw_pheader_field_options().contains(#[trigger] os[m]),
    ensures
        spec_parse_raw(spec_trim("pheader"@ + joined(os))) == Ok::<RawCommand, SelectorError>(
            RawCommand::Pheader(
                RawPheaderCmd::Selector {
                    range: IndexRange::NoRange,
                    selector: RawPheaderSelector {
                        virtual_range: os.contains(".virtual_range"@),
                        virtual_size: os.contains(".virtual_size"@),
                        pathname_offset: os.contains(".pathname_offset"@),
                        ref_offset: os.contains(".ref_offset"@),
                        prot: os.contains(".prot"@),
                        itree: os.contains(".itree"@),
                    },
                },
            ),
        ),
{
    reveal_strlit("pheader");
    reveal_strlit("ord");
    reveal_strlit("jif");
    reveal_strlit("strings");
    reveal_strlit("itrees");
    lemma_raw_pheader_table();
    let opts = raw_pheader_options();
    assert(opts.subrange(2, 8) =~= raw_pheader_field_options());
    let ks = lemma_pick_indices(opts, 2, 8, os);
    lemma_selector_options("pheader"@, opts, ks);
    let t = "pheader"@ + joined(os);
    assert(t[0] == 'p');
    lemma_not_at(t, "jif"@);
    lemma_not_at(t, "ord"@);
    lemma_not_at(t, "strings"@);
    lemma_not_at(t, "itrees"@);
    assert(spec_find_range(joined(os)) == Ok::<(IndexRange, int), SelectorError>((IndexRange::NoRange, 0)));
    assert(joined(os).skip(0) =~= joined(os));
    lemma_index_marks(8, ks);
    let f = index_marks(8, ks);
    assert(!f[0] && !f[1]);
}

} // verus!
