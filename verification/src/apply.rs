use vstd::prelude::*;
use crate::context::{
    chain_link, lemma_resolution_excludes_loop, lemma_resolution_unique, link_resolves_to,
    stat_views, FSContext, MAX_LINK_EXPANSION_ATTEMPTS,
};
use crate::glob::{
    glob_seq_view, glob_wf, lemma_parse_units_wf, PathGlob, PathGlobView, PathGlobs,
};
use crate::matcher::{glob_match, wildcard_matches};
use crate::path::PathBuf;
use crate::stat::{Dir, LinkExpansion, PathStat, PathStatView, Stat, StatView};

verus! {

/// The bound on glob-unit expansion: one application processes at most
/// this many glob units. Directory structures that symlinks make cyclic
/// could otherwise feed a `**` expansion endlessly; exceeding the bound
/// is reported as an error in the result set, like a symlink loop.
pub const MAX_GLOB_EXPANSION_STEPS: usize = 1048576;

/// The outcome of applying one glob unit: the resolved matches, and the
/// diagnostics of the entries whose expansion failed (a symlink loop, or
/// an exhausted expansion budget).
#[derive(Debug, PartialEq, Eq)]
pub struct GlobMatches {
    pub path_stats: Vec<PathStat>,
    pub errors: Vec<String>,
}

/// The views of a sequence of resolved matches.
pub open spec fn path_stat_views(v: Seq<PathStat>) -> Seq<PathStatView> {
    Seq::new(v.len(), |i: int| v[i]@)
}

/// The one match that `Root` yields.
pub open spec fn root_stat_view() -> PathStatView {
    PathStatView {
        path: Seq::<Seq<char>>::empty(),
        stat: StatView::Dir(Seq::<Seq<char>>::empty()),
    }
}

/// Every match's classification is a directory or a file, never a link.
pub open spec fn all_resolved(stats: Seq<PathStat>) -> bool {
    forall|j: int| 0 <= j < stats.len() ==> (#[trigger] stats[j])@.stat.is_resolved()
}

/// The entry's basename satisfies the wildcard.
pub open spec fn entry_matches(entry: StatView, wildcard: Seq<char>) -> bool {
    entry.path_of().len() > 0 && glob_match(wildcard, entry.path_of().last())
}

/// The resolved match a matching entry contributes: the symbolic path
/// extended by the entry's basename, classified by the entry itself.
pub open spec fn entry_path_stat(sym: Seq<Seq<char>>, entry: StatView) -> PathStatView {
    PathStatView { path: sym.push(entry.path_of().last()), stat: entry }
}

/// `ps` is a correct resolved match for the directory entry `entry`:
/// its path extends the symbolic path by the entry's basename, and its
/// classification is the entry's own, or what the entry's link chain
/// resolves to.
pub open spec fn match_of_entry<K, C: FSContext<K>>(
    context: &C,
    sym: Seq<Seq<char>>,
    entry: StatView,
    ps: PathStatView,
) -> bool {
    &&& ps.path == sym.push(entry.path_of().last())
    &&& ps.stat.is_resolved()
    &&& match entry {
        StatView::Link(lp) => link_resolves_to::<K, C>(context, lp, ps.stat),
        _ => ps.stat == entry,
    }
}

/// Some collected match is exactly the one the entry contributes.
pub open spec fn has_match_for(
    sym: Seq<Seq<char>>,
    entry: StatView,
    stats: Seq<PathStat>,
) -> bool {
    exists|j: int| 0 <= j < stats.len() && (#[trigger] stats[j])@ == entry_path_stat(sym, entry)
}

/// `ps` is a correct match of some matching entry among the first `i`.
pub open spec fn from_matching_entry<K, C: FSContext<K>>(
    context: &C,
    sym: Seq<Seq<char>>,
    wc: Seq<char>,
    entries: Seq<StatView>,
    i: int,
    ps: PathStatView,
) -> bool {
    exists|i0: int|
        0 <= i0 < i && entry_matches(#[trigger] entries[i0], wc) && match_of_entry::<K, C>(
            context,
            sym,
            entries[i0],
            ps,
        )
}

/// No entry of the listing has a basename satisfying the wildcard.
pub open spec fn no_matching_entries(entries: Seq<StatView>, wc: Seq<char>) -> bool {
    forall|i0: int| 0 <= i0 < entries.len() ==> !entry_matches(#[trigger] entries[i0], wc)
}

/// Some collected match pairs the entry's basename under the symbolic
/// path with the classification `s`.
pub open spec fn has_stat_match(
    sym: Seq<Seq<char>>,
    entry: StatView,
    s: StatView,
    stats: Seq<PathStat>,
) -> bool {
    exists|j: int|
        0 <= j < stats.len() && (#[trigger] stats[j])@ == (PathStatView {
            path: sym.push(entry.path_of().last()),
            stat: s,
        })
}

/// The match a matching link entry owes: whenever its chain resolves to
/// a directory or file, the collected matches include the entry's
/// basename under the symbolic path with that resolution.
pub open spec fn link_matches_included<K, C: FSContext<K>>(
    context: &C,
    sym: Seq<Seq<char>>,
    entry: StatView,
    stats: Seq<PathStat>,
) -> bool {
    match entry {
        StatView::Link(lp) => forall|s: StatView|
            #[trigger] link_resolves_to::<K, C>(context, lp, s) && s.is_resolved()
                ==> has_stat_match(sym, entry, s, stats),
        _ => true,
    }
}

/// The entry owes a loop error: it matches, is a link, and its chain
/// makes the full run of link-to-link steps without resolving.
pub open spec fn entry_loops<K, C: FSContext<K>>(
    context: &C,
    entry: StatView,
    wc: Seq<char>,
) -> bool {
    &&& entry_matches(entry, wc)
    &&& match entry {
        StatView::Link(lp) => chain_link::<K, C>(
            context,
            lp,
            MAX_LINK_EXPANSION_ATTEMPTS as nat,
        ) is Some,
        _ => false,
    }
}

/// How many of the first `i` entries owe a loop error.
pub open spec fn loop_error_count<K, C: FSContext<K>>(
    context: &C,
    entries: Seq<StatView>,
    wc: Seq<char>,
    i: int,
) -> int
    decreases i,
{
    if i <= 0 {
        0
    } else {
        loop_error_count::<K, C>(context, entries, wc, i - 1) + if entry_loops::<K, C>(
            context,
            entries[i - 1],
            wc,
        ) {
            1 as int
        } else {
            0 as int
        }
    }
}

/// The chain of a link entry is settled by the model: it resolves to a
/// directory or file, or makes the full run of link-to-link steps.
pub open spec fn link_chain_settled<K, C: FSContext<K>>(context: &C, entry: StatView) -> bool {
    match entry {
        StatView::Link(lp) => (exists|s: StatView|
            #[trigger] link_resolves_to::<K, C>(context, lp, s) && s.is_resolved()) || chain_link::<
            K,
            C,
        >(context, lp, MAX_LINK_EXPANSION_ATTEMPTS as nat) is Some,
        _ => true,
    }
}

/// The backend's listing of `dir` is coherent with its inspections:
/// each listed entry is what inspecting that entry's own path reports.
pub open spec fn model_coherent_at<K, C: FSContext<K>>(context: &C, dir: Seq<Seq<char>>) -> bool {
    match context.scandir_model(dir) {
        Some(entries) => forall|i0: int|
            0 <= i0 < entries.len() ==> context.stat_model((#[trigger] entries[i0]).path_of())
                == Some(entries[i0]),
        None => true,
    }
}

/// `ps` is a correct match of some matching entry of the model's listing
/// of `dir2`, under the symbolic path `sym2` and wildcard `wc2`.
pub open spec fn match_in_listing<K, C: FSContext<K>>(
    context: &C,
    dir2: Seq<Seq<char>>,
    sym2: Seq<Seq<char>>,
    wc2: Seq<char>,
    ps: PathStatView,
) -> bool {
    match context.scandir_model(dir2) {
        Some(entries2) => exists|i0: int|
            0 <= i0 < entries2.len() && entry_matches(#[trigger] entries2[i0], wc2)
                && match_of_entry::<K, C>(context, sym2, entries2[i0], ps),
        None => false,
    }
}

/// `ps` has a model origin: it is the one match `Root` yields, or a
/// correct match of a matching entry of some directory listing the
/// model answers.
pub open spec fn match_from_model<K, C: FSContext<K>>(context: &C, ps: PathStatView) -> bool {
    ps == root_stat_view() || exists|dir2: Seq<Seq<char>>, sym2: Seq<Seq<char>>, wc2: Seq<char>|
        #[trigger] match_in_listing::<K, C>(context, dir2, sym2, wc2, ps)
}

/// Every collected match has a model origin.
pub open spec fn all_from_model<K, C: FSContext<K>>(context: &C, stats: Seq<PathStat>) -> bool {
    forall|j: int|
        0 <= j < stats.len() ==> match_from_model::<K, C>(context, (#[trigger] stats[j])@)
}

/// The collected matches are right for the first `i` entries of the
/// listing: every match is resolved; every matching non-link entry among
/// the first `i` contributes exactly its own match; and every collected
/// match comes from some matching entry among the first `i`.
pub open spec fn wildcard_inv<K, C: FSContext<K>>(
    context: &C,
    sym: Seq<Seq<char>>,
    wc: Seq<char>,
    entries: Seq<StatView>,
    i: int,
    stats: Seq<PathStat>,
) -> bool {
    &&& all_resolved(stats)
    &&& (forall|i0: int|
        0 <= i0 < i && entry_matches(#[trigger] entries[i0], wc) && !(entries[i0] is Link)
            ==> has_match_for(sym, entries[i0], stats))
    &&& (forall|j: int|
        #![trigger stats[j]]
        0 <= j < stats.len() ==> from_matching_entry::<K, C>(
            context,
            sym,
            wc,
            entries,
            i,
            stats[j]@,
        ))
}

/// What applying a `Wildcard` unit yields, per the model: the directory
/// listing is known; the matches are complete and sound for the whole
/// listing; every matching link's chain is settled, its resolution (when
/// it has one) is among the matches, and the errors are exactly one per
/// matching looping link; a listing without matching entries yields
/// nothing at all.
pub open spec fn wildcard_expansion_ok<K, C: FSContext<K>>(
    context: &C,
    dir: Seq<Seq<char>>,
    sym: Seq<Seq<char>>,
    wc: Seq<char>,
    m: GlobMatches,
) -> bool {
    match context.scandir_model(dir) {
        Some(entries) => {
            &&& wildcard_inv::<K, C>(context, sym, wc, entries, entries.len() as int, m.path_stats@)
            &&& (forall|i0: int|
                0 <= i0 < entries.len() && entry_matches(#[trigger] entries[i0], wc)
                    ==> link_matches_included::<K, C>(context, sym, entries[i0], m.path_stats@))
            &&& m.errors@.len() == loop_error_count::<K, C>(context, entries, wc, entries.len() as int)
            &&& (forall|i0: int|
                0 <= i0 < entries.len() && entry_matches(#[trigger] entries[i0], wc)
                    ==> link_chain_settled::<K, C>(context, entries[i0]))
            &&& (no_matching_entries(entries, wc) ==> m.path_stats@.len() == 0
                && m.errors@.len() == 0)
        },
        None => false,
    }
}

/// The entry is not a subdirectory: a plain file, or a link whose chain
/// resolves to a file.
pub open spec fn entry_never_dir<K, C: FSContext<K>>(context: &C, entry: StatView) -> bool {
    match entry {
        StatView::Dir(_) => false,
        StatView::File(_) => true,
        StatView::Link(lp) => exists|s: StatView|
            #[trigger] link_resolves_to::<K, C>(context, lp, s) && s is File,
    }
}

/// The model shows no matching subdirectory: every entry of the listing
/// whose basename satisfies the wildcard is a plain file, or a link
/// resolving to one.
pub open spec fn zero_dir_matches<K, C: FSContext<K>>(
    context: &C,
    dir: Seq<Seq<char>>,
    wc: Seq<char>,
) -> bool {
    match context.scandir_model(dir) {
        Some(entries) => forall|i0: int|
            0 <= i0 < entries.len() && entry_matches(#[trigger] entries[i0], wc)
                ==> entry_never_dir::<K, C>(context, entries[i0]),
        None => false,
    }
}

/// Every unit of a worklist is fit to work on.
pub open spec fn stack_wf(s: Seq<PathGlob>) -> bool {
    forall|k: int| 0 <= k < s.len() ==> glob_wf((#[trigger] s[k])@)
}

/// For a wildcard-free pattern component, every match a `Wildcard` unit
/// yields names exactly that component under the symbolic path; and when
/// the matched entry is not a link, its classification is the listing
/// entry's own.
pub proof fn lemma_literal_wildcard_names_pattern<K, C: FSContext<K>>(
    context: &C,
    dir: Seq<Seq<char>>,
    sym: Seq<Seq<char>>,
    wc: Seq<char>,
    m: GlobMatches,
    j: int,
)
    requires
        forall|k: int| 0 <= k < wc.len() ==> wc[k] != '*',
        wildcard_expansion_ok::<K, C>(context, dir, sym, wc, m),
        0 <= j < m.path_stats@.len(),
    ensures
        m.path_stats@[j]@.path == sym.push(wc),
        exists|entry: StatView|
            #[trigger] entry_matches(entry, wc) && (!(entry is Link) ==> m.path_stats@[j]@.stat
                == entry && (model_coherent_at::<K, C>(context, dir) ==> context.stat_model(
                entry.path_of(),
            ) == Some(m.path_stats@[j]@.stat))),
{
    match context.scandir_model(dir) {
        Some(entries) => {
            assert(m.path_stats@[j] == m.path_stats@[j]);
            assert(from_matching_entry::<K, C>(
                context,
                sym,
                wc,
                entries,
                entries.len() as int,
                m.path_stats@[j]@,
            ));
            let i0 = choose|i0: int|
                0 <= i0 < entries.len() && entry_matches(#[trigger] entries[i0], wc)
                    && match_of_entry::<K, C>(context, sym, entries[i0], m.path_stats@[j]@);
            crate::matcher::lemma_literal_pattern_matches_exactly(
                wc,
                entries[i0].path_of().last(),
            );
            assert(entries[i0].path_of().last() == wc);
            assert(entry_matches(entries[i0], wc) && (!(entries[i0] is Link)
                ==> m.path_stats@[j]@.stat == entries[i0] && (model_coherent_at::<K, C>(
                context,
                dir,
            ) ==> context.stat_model(entries[i0].path_of()) == Some(m.path_stats@[j]@.stat))));
        },
        None => {
            assert(false);
        },
    }
}

/// Appending a correct match for the entry at `i` keeps the collected
/// matches complete and sound for the first `i + 1` entries.
proof fn lemma_push_preserves<K, C: FSContext<K>>(
    context: &C,
    sym: Seq<Seq<char>>,
    wc: Seq<char>,
    entries: Seq<StatView>,
    i: int,
    prev: Seq<PathStat>,
    cur: Seq<PathStat>,
    ps: PathStat,
)
    requires
        0 <= i < entries.len(),
        cur == prev.push(ps),
        entry_matches(entries[i], wc),
        match_of_entry::<K, C>(context, sym, entries[i], ps@),
        !(entries[i] is Link) ==> ps@ == entry_path_stat(sym, entries[i]),
        wildcard_inv::<K, C>(context, sym, wc, entries, i, prev),
    ensures
        wildcard_inv::<K, C>(context, sym, wc, entries, i + 1, cur),
{
    assert(cur[prev.len() as int] == ps);
    assert forall|j: int| 0 <= j < prev.len() implies cur[j] == prev[j] by {}
    assert forall|i0: int|
        0 <= i0 < i + 1 && entry_matches(#[trigger] entries[i0], wc) && !(entries[i0] is Link)
            implies has_match_for(sym, entries[i0], cur) by {
        if i0 == i {
            assert(cur[prev.len() as int]@ == entry_path_stat(sym, entries[i0]));
        } else {
            assert(has_match_for(sym, entries[i0], prev));
            let j0 = choose|j: int|
                0 <= j < prev.len() && (#[trigger] prev[j])@ == entry_path_stat(sym, entries[i0]);
            assert(cur[j0]@ == entry_path_stat(sym, entries[i0]));
        }
    }
    assert forall|j: int| #![trigger cur[j]] 0 <= j < cur.len() implies from_matching_entry::<
        K,
        C,
    >(context, sym, wc, entries, i + 1, cur[j]@) by {
        if j < prev.len() {
            assert(cur[j] == prev[j]);
            assert(from_matching_entry::<K, C>(context, sym, wc, entries, i, prev[j]@));
            let i0 = choose|i0: int|
                0 <= i0 < i && entry_matches(#[trigger] entries[i0], wc) && match_of_entry::<
                    K,
                    C,
                >(context, sym, entries[i0], prev[j]@);
            assert(0 <= i0 < i + 1 && entry_matches(entries[i0], wc) && match_of_entry::<K, C>(
                context,
                sym,
                entries[i0],
                cur[j]@,
            ));
        } else {
            assert(cur[j] == ps);
            assert(0 <= i < i + 1 && entry_matches(entries[i], wc) && match_of_entry::<K, C>(
                context,
                sym,
                entries[i],
                cur[j]@,
            ));
        }
    }
    assert forall|j: int| 0 <= j < cur.len() implies (#[trigger] cur[j])@.stat.is_resolved() by {
        if j < prev.len() {
            assert(cur[j] == prev[j]);
            assert((prev[j])@.stat.is_resolved());
        } else {
            assert(cur[j] == ps);
        }
    }
}

/// Passing an entry that contributes no match keeps the collected
/// matches complete and sound for the first `i + 1` entries.
proof fn lemma_skip_preserves<K, C: FSContext<K>>(
    context: &C,
    sym: Seq<Seq<char>>,
    wc: Seq<char>,
    entries: Seq<StatView>,
    i: int,
    stats: Seq<PathStat>,
)
    requires
        0 <= i < entries.len(),
        entry_matches(entries[i], wc) ==> entries[i] is Link,
        wildcard_inv::<K, C>(context, sym, wc, entries, i, stats),
    ensures
        wildcard_inv::<K, C>(context, sym, wc, entries, i + 1, stats),
{
    assert forall|i0: int|
        0 <= i0 < i + 1 && entry_matches(#[trigger] entries[i0], wc) && !(entries[i0] is Link)
            implies has_match_for(sym, entries[i0], stats) by {
        assert(i0 < i);
    }
    assert forall|j: int| #![trigger stats[j]] 0 <= j < stats.len() implies from_matching_entry::<
        K,
        C,
    >(context, sym, wc, entries, i + 1, stats[j]@) by {
        assert(from_matching_entry::<K, C>(context, sym, wc, entries, i, stats[j]@));
        let i0 = choose|i0: int|
            0 <= i0 < i && entry_matches(#[trigger] entries[i0], wc) && match_of_entry::<K, C>(
                context,
                sym,
                entries[i0],
                stats[j]@,
            );
        assert(0 <= i0 < i + 1 && entry_matches(entries[i0], wc) && match_of_entry::<K, C>(
            context,
            sym,
            entries[i0],
            stats[j]@,
        ));
    }
}

/// A chain that resolves within the bound does not owe a loop error.
proof fn lemma_resolves_not_loops<K, C: FSContext<K>>(
    context: &C,
    lp: Seq<Seq<char>>,
    s: StatView,
)
    requires
        link_resolves_to::<K, C>(context, lp, s),
        s.is_resolved(),
    ensures
        chain_link::<K, C>(context, lp, MAX_LINK_EXPANSION_ATTEMPTS as nat) is None,
{
    let n = choose|n: nat|
        n < MAX_LINK_EXPANSION_ATTEMPTS && crate::context::resolved_after::<K, C>(context, lp, n)
            == Some(s);
    lemma_resolution_excludes_loop::<K, C>(context, lp, n, s);
}

/// Appending a correct match for the entry at `i` keeps every owed link
/// match present: an earlier entry's match survives the append, and when
/// the appended entry is itself a link, the unique resolution of its
/// chain is exactly the match appended.
proof fn lemma_push_link_included<K, C: FSContext<K>>(
    context: &C,
    sym: Seq<Seq<char>>,
    wc: Seq<char>,
    entries: Seq<StatView>,
    i: int,
    prev: Seq<PathStat>,
    cur: Seq<PathStat>,
    ps: PathStat,
)
    requires
        0 <= i < entries.len(),
        cur == prev.push(ps),
        entry_matches(entries[i], wc),
        match_of_entry::<K, C>(context, sym, entries[i], ps@),
        forall|i0: int|
            0 <= i0 < i && entry_matches(#[trigger] entries[i0], wc)
                ==> link_matches_included::<K, C>(context, sym, entries[i0], prev),
    ensures
        forall|i0: int|
            0 <= i0 < i + 1 && entry_matches(#[trigger] entries[i0], wc)
                ==> link_matches_included::<K, C>(context, sym, entries[i0], cur),
{
    assert(cur[prev.len() as int] == ps);
    assert forall|j: int| 0 <= j < prev.len() implies cur[j] == prev[j] by {}
    assert forall|i0: int|
        0 <= i0 < i + 1 && entry_matches(#[trigger] entries[i0], wc) implies
        link_matches_included::<K, C>(context, sym, entries[i0], cur) by {
        match entries[i0] {
            StatView::Link(lp) => {
                assert forall|s: StatView|
                    #[trigger] link_resolves_to::<K, C>(context, lp, s) && s.is_resolved() implies
                    has_stat_match(sym, entries[i0], s, cur) by {
                    if i0 < i {
                        assert(link_matches_included::<K, C>(context, sym, entries[i0], prev));
                        assert(has_stat_match(sym, entries[i0], s, prev));
                        let j0 = choose|j: int|
                            0 <= j < prev.len() && (#[trigger] prev[j])@ == (PathStatView {
                                path: sym.push(entries[i0].path_of().last()),
                                stat: s,
                            });
                        assert(cur[j0]@ == (PathStatView {
                            path: sym.push(entries[i0].path_of().last()),
                            stat: s,
                        }));
                    } else {
                        assert(link_resolves_to::<K, C>(context, lp, ps@.stat));
                        lemma_resolution_unique::<K, C>(context, lp, s, ps@.stat);
                        assert(ps@ =~= (PathStatView {
                            path: sym.push(entries[i0].path_of().last()),
                            stat: s,
                        }));
                        assert(cur[prev.len() as int]@ == (PathStatView {
                            path: sym.push(entries[i0].path_of().last()),
                            stat: s,
                        }));
                    }
                }
            },
            _ => {},
        }
    }
}

/// Passing an entry that owes no match (it does not match the wildcard,
/// it is not a link, or its chain loops) keeps every owed link match
/// present.
proof fn lemma_skip_link_included<K, C: FSContext<K>>(
    context: &C,
    sym: Seq<Seq<char>>,
    wc: Seq<char>,
    entries: Seq<StatView>,
    i: int,
    stats: Seq<PathStat>,
)
    requires
        0 <= i < entries.len(),
        entry_matches(entries[i], wc) ==> entry_loops::<K, C>(context, entries[i], wc),
        forall|i0: int|
            0 <= i0 < i && entry_matches(#[trigger] entries[i0], wc)
                ==> link_matches_included::<K, C>(context, sym, entries[i0], stats),
    ensures
        forall|i0: int|
            0 <= i0 < i + 1 && entry_matches(#[trigger] entries[i0], wc)
                ==> link_matches_included::<K, C>(context, sym, entries[i0], stats),
{
    assert forall|i0: int|
        0 <= i0 < i + 1 && entry_matches(#[trigger] entries[i0], wc) implies
        link_matches_included::<K, C>(context, sym, entries[i0], stats) by {
        if i0 == i {
            match entries[i0] {
                StatView::Link(lp) => {
                    assert forall|s: StatView|
                        #[trigger] link_resolves_to::<K, C>(context, lp, s) && s.is_resolved()
                            implies has_stat_match(sym, entries[i0], s, stats) by {
                        lemma_resolves_not_loops::<K, C>(context, lp, s);
                        assert(false);
                    }
                },
                _ => {},
            }
        }
    }
}

/// Concatenating two resolved match sequences keeps every match resolved.
proof fn lemma_all_resolved_append(a: Seq<PathStat>, b: Seq<PathStat>)
    requires
        all_resolved(a),
        all_resolved(b),
    ensures
        all_resolved(a + b),
{
    assert forall|j: int| 0 <= j < (a + b).len() implies (#[trigger] (a + b)[j])@.stat.is_resolved() by {
        if j < a.len() {
            assert((a + b)[j] == a[j]);
            assert(a[j]@.stat.is_resolved());
        } else {
            assert((a + b)[j] == b[j - a.len()]);
            assert(b[j - a.len()]@.stat.is_resolved());
        }
    }
}

/// Concatenating two match sequences with model origins keeps every
/// match's origin.
proof fn lemma_from_model_append<K, C: FSContext<K>>(
    context: &C,
    a: Seq<PathStat>,
    b: Seq<PathStat>,
)
    requires
        all_from_model::<K, C>(context, a),
        all_from_model::<K, C>(context, b),
    ensures
        all_from_model::<K, C>(context, a + b),
{
    assert forall|j: int| 0 <= j < (a + b).len() implies match_from_model::<K, C>(
        context,
        (#[trigger] (a + b)[j])@,
    ) by {
        if j < a.len() {
            assert((a + b)[j] == a[j]);
            assert(match_from_model::<K, C>(context, a[j]@));
        } else {
            assert((a + b)[j] == b[j - a.len()]);
            assert(match_from_model::<K, C>(context, b[j - a.len()]@));
        }
    }
}

/// Matches sound for a listing all have a model origin.
proof fn lemma_sound_matches_from_model<K, C: FSContext<K>>(
    context: &C,
    dir2: Seq<Seq<char>>,
    sym2: Seq<Seq<char>>,
    wc2: Seq<char>,
    m: GlobMatches,
)
    requires
        wildcard_expansion_ok::<K, C>(context, dir2, sym2, wc2, m),
    ensures
        all_from_model::<K, C>(context, m.path_stats@),
{
    assert forall|j: int| 0 <= j < m.path_stats@.len() implies match_from_model::<K, C>(
        context,
        (#[trigger] m.path_stats@[j])@,
    ) by {
        match context.scandir_model(dir2) {
            Some(entries2) => {
                assert(from_matching_entry::<K, C>(
                    context,
                    sym2,
                    wc2,
                    entries2,
                    entries2.len() as int,
                    m.path_stats@[j]@,
                ));
                assert(match_in_listing::<K, C>(context, dir2, sym2, wc2, m.path_stats@[j]@));
            },
            None => {
                assert(false);
            },
        }
    }
}

/// Concatenating two fit worklists gives a fit worklist.
proof fn lemma_stack_wf_append(a: Seq<PathGlob>, b: Seq<PathGlob>)
    requires
        stack_wf(a),
        stack_wf(b),
    ensures
        stack_wf(a + b),
{
    assert forall|k: int| 0 <= k < (a + b).len() implies glob_wf((#[trigger] (a + b)[k])@) by {
        if k < a.len() {
            assert((a + b)[k] == a[k]);
            assert(glob_wf(a[k]@));
        } else {
            assert((a + b)[k] == b[k - a.len()]);
            assert(glob_wf(b[k - a.len()]@));
        }
    }
}

/// Applies a `Wildcard` unit: lists the directory, keeps the entries
/// whose basename satisfies the wildcard, and resolves matching links;
/// a symlink loop becomes an error for that entry while sibling entries
/// are still collected; continuations are aggregated and returned
/// together.
fn apply_wildcard<K, C: FSContext<K>>(
    context: &C,
    canonical_dir: &Dir,
    symbolic_path: &PathBuf,
    wildcard: &String,
) -> (r: Result<GlobMatches, Vec<K>>)
    ensures
        r matches Err(ks) ==> ks@.len() > 0,
        r matches Ok(m) ==> wildcard_expansion_ok::<K, C>(
            context,
            canonical_dir@,
            symbolic_path@,
            wildcard@,
            m,
        ),
{
    let listing = match context.scandir(canonical_dir) {
        Ok(v) => v,
        Err(k) => {
            let mut ks: Vec<K> = Vec::new();
            ks.push(k);
            return Err(ks);
        },
    };
    let ghost entries = stat_views(listing@);
    let mut path_stats: Vec<PathStat> = Vec::new();
    let mut errors: Vec<String> = Vec::new();
    let mut pendings: Vec<K> = Vec::new();
    let mut i: usize = 0;
    proof {
        assert(wildcard_inv::<K, C>(
            context,
            symbolic_path@,
            wildcard@,
            entries,
            0,
            path_stats@,
        ));
        assert(loop_error_count::<K, C>(context, entries, wildcard@, 0) == 0);
    }
    while i < listing.len()
        invariant
            i <= listing@.len(),
            entries == stat_views(listing@),
            context.scandir_model(canonical_dir@) == Some(entries),
            wildcard_inv::<K, C>(context, symbolic_path@, wildcard@, entries, i as int, path_stats@),
            no_matching_entries(entries, wildcard@) ==> path_stats@.len() == 0 && errors@.len()
                == 0,
            pendings@.len() == 0 ==> errors@.len() == loop_error_count::<K, C>(
                context,
                entries,
                wildcard@,
                i as int,
            ),
            pendings@.len() == 0 ==> (forall|i0: int|
                0 <= i0 < i as int && entry_matches(#[trigger] entries[i0], wildcard@)
                    ==> link_matches_included::<K, C>(
                    context,
                    symbolic_path@,
                    entries[i0],
                    path_stats@,
                )),
            pendings@.len() == 0 ==> (forall|i0: int|
                0 <= i0 < i as int && entry_matches(#[trigger] entries[i0], wildcard@)
                    ==> link_chain_settled::<K, C>(context, entries[i0])),
        decreases listing@.len() - i,
    {
        let ghost prev = path_stats@;
        proof {
            assert(entries[i as int] == listing@[i as int]@);
        }
        let entry = &listing[i];
        let pc = entry.path();
        if pc.components.len() > 0 {
            let base = &pc.components[pc.components.len() - 1];
            proof {
                assert(base@ == pc@.last());
                assert(pc@ == entries[i as int].path_of());
            }
            if wildcard_matches(wildcard, base) {
                proof {
                    assert(entry_matches(entries[i as int], wildcard@));
                }
                match entry {
                    Stat::Link(l) => {
                        proof {
                            assert(entries[i as int] == StatView::Link(l@));
                        }
                        match crate::context::expand_link(l, context) {
                            Ok(LinkExpansion::Dir(d)) => {
                                let ps = PathStat {
                                    path: symbolic_path.child(base),
                                    stat: Stat::Dir(d),
                                };
                                proof {
                                    assert(match_of_entry::<K, C>(
                                        context,
                                        symbolic_path@,
                                        entries[i as int],
                                        ps@,
                                    ));
                                }
                                path_stats.push(ps);
                                proof {
                                    lemma_push_preserves::<K, C>(
                                        context,
                                        symbolic_path@,
                                        wildcard@,
                                        entries,
                                        i as int,
                                        prev,
                                        path_stats@,
                                        ps,
                                    );
                                    lemma_resolves_not_loops::<K, C>(context, l@, StatView::Dir(d@));
                                    assert(!entry_loops::<K, C>(context, entries[i as int], wildcard@));
                                    assert(link_chain_settled::<K, C>(context, entries[i as int]));
                                    if pendings@.len() == 0 {
                                        lemma_push_link_included::<K, C>(
                                            context,
                                            symbolic_path@,
                                            wildcard@,
                                            entries,
                                            i as int,
                                            prev,
                                            path_stats@,
                                            ps,
                                        );
                                    }
                                }
                            },
                            Ok(LinkExpansion::File(f)) => {
                                let ps = PathStat {
                                    path: symbolic_path.child(base),
                                    stat: Stat::File(f),
                                };
                                proof {
                                    assert(match_of_entry::<K, C>(
                                        context,
                                        symbolic_path@,
                                        entries[i as int],
                                        ps@,
                                    ));
                                }
                                path_stats.push(ps);
                                proof {
                                    lemma_push_preserves::<K, C>(
                                        context,
                                        symbolic_path@,
                                        wildcard@,
                                        entries,
                                        i as int,
                                        prev,
                                        path_stats@,
                                        ps,
                                    );
                                    lemma_resolves_not_loops::<K, C>(context, l@, StatView::File(f@));
                                    assert(!entry_loops::<K, C>(context, entries[i as int], wildcard@));
                                    assert(link_chain_settled::<K, C>(context, entries[i as int]));
                                    if pendings@.len() == 0 {
                                        lemma_push_link_included::<K, C>(
                                            context,
                                            symbolic_path@,
                                            wildcard@,
                                            entries,
                                            i as int,
                                            prev,
                                            path_stats@,
                                            ps,
                                        );
                                    }
                                }
                            },
                            Ok(LinkExpansion::Loop(msg)) => {
                                errors.push(msg);
                                proof {
                                    lemma_skip_preserves::<K, C>(
                                        context,
                                        symbolic_path@,
                                        wildcard@,
                                        entries,
                                        i as int,
                                        path_stats@,
                                    );
                                    assert(entry_loops::<K, C>(
                                        context,
                                        entries[i as int],
                                        wildcard@,
                                    ));
                                    assert(link_chain_settled::<K, C>(
                                        context,
                                        entries[i as int],
                                    ));
                                    if pendings@.len() == 0 {
                                        lemma_skip_link_included::<K, C>(
                                            context,
                                            symbolic_path@,
                                            wildcard@,
                                            entries,
                                            i as int,
                                            path_stats@,
                                        );
                                    }
                                }
                            },
                            Err(k) => {
                                pendings.push(k);
                                proof {
                                    lemma_skip_preserves::<K, C>(
                                        context,
                                        symbolic_path@,
                                        wildcard@,
                                        entries,
                                        i as int,
                                        path_stats@,
                                    );
                                }
                            },
                        }
                    },
                    Stat::Dir(_) => {
                        let ps = PathStat { path: symbolic_path.child(base), stat: entry.clone() };
                        proof {
                            assert(ps@ == entry_path_stat(symbolic_path@, entries[i as int]));
                            assert(match_of_entry::<K, C>(
                                context,
                                symbolic_path@,
                                entries[i as int],
                                ps@,
                            ));
                        }
                        path_stats.push(ps);
                        proof {
                            lemma_push_preserves::<K, C>(
                                context,
                                symbolic_path@,
                                wildcard@,
                                entries,
                                i as int,
                                prev,
                                path_stats@,
                                ps,
                            );
                            assert(!entry_loops::<K, C>(context, entries[i as int], wildcard@));
                            assert(link_chain_settled::<K, C>(context, entries[i as int]));
                            if pendings@.len() == 0 {
                                lemma_push_link_included::<K, C>(
                                    context,
                                    symbolic_path@,
                                    wildcard@,
                                    entries,
                                    i as int,
                                    prev,
                                    path_stats@,
                                    ps,
                                );
                            }
                        }
                    },
                    Stat::File(_) => {
                        let ps = PathStat { path: symbolic_path.child(base), stat: entry.clone() };
                        proof {
                            assert(ps@ == entry_path_stat(symbolic_path@, entries[i as int]));
                            assert(match_of_entry::<K, C>(
                                context,
                                symbolic_path@,
                                entries[i as int],
                                ps@,
                            ));
                        }
                        path_stats.push(ps);
                        proof {
                            lemma_push_preserves::<K, C>(
                                context,
                                symbolic_path@,
                                wildcard@,
                                entries,
                                i as int,
                                prev,
                                path_stats@,
                                ps,
                            );
                            assert(!entry_loops::<K, C>(context, entries[i as int], wildcard@));
                            assert(link_chain_settled::<K, C>(context, entries[i as int]));
                            if pendings@.len() == 0 {
                                lemma_push_link_included::<K, C>(
                                    context,
                                    symbolic_path@,
                                    wildcard@,
                                    entries,
                                    i as int,
                                    prev,
                                    path_stats@,
                                    ps,
                                );
                            }
                        }
                    },
                }
            } else {
                proof {
                    assert(!entry_matches(entries[i as int], wildcard@));
                    lemma_skip_preserves::<K, C>(
                        context,
                        symbolic_path@,
                        wildcard@,
                        entries,
                        i as int,
                        path_stats@,
                    );
                    assert(!entry_loops::<K, C>(context, entries[i as int], wildcard@));
                }
            }
        } else {
            proof {
                assert(entries[i as int].path_of().len() == 0);
                assert(!entry_matches(entries[i as int], wildcard@));
                lemma_skip_preserves::<K, C>(
                    context,
                    symbolic_path@,
                    wildcard@,
                    entries,
                    i as int,
                    path_stats@,
                );
                assert(!entry_loops::<K, C>(context, entries[i as int], wildcard@));
            }
        }
        i = i + 1;
    }
    if pendings.len() > 0 {
        return Err(pendings);
    }
    let ghost gerrors = errors@;
    let ghost gstats = path_stats@;
    let m = GlobMatches { path_stats, errors };
    proof {
        assert(m.errors@ == gerrors);
        assert(m.path_stats@ == gstats);
        assert(wildcard_inv::<K, C>(
            context,
            symbolic_path@,
            wildcard@,
            entries,
            entries.len() as int,
            m.path_stats@,
        ));
        assert forall|i0: int|
            0 <= i0 < entries.len() && entry_matches(#[trigger] entries[i0], wildcard@) implies
            link_matches_included::<K, C>(context, symbolic_path@, entries[i0], m.path_stats@) by {
            assert(link_matches_included::<K, C>(context, symbolic_path@, entries[i0], gstats));
        }
        assert forall|i0: int|
            0 <= i0 < entries.len() && entry_matches(#[trigger] entries[i0], wildcard@) implies
            link_chain_settled::<K, C>(context, entries[i0]) by {}
    }
    Ok(m)
}

/// One matched subdirectory of a `DirWildcard` application: the
/// directory to recurse into and the symbolic path that names it.
struct DirMatch {
    dir: Dir,
    symbolic: PathBuf,
}

/// `dm` is a correct matched subdirectory for the listing entry `entry`:
/// its symbolic path extends the base by the entry's basename, and its
/// directory is the entry's own, or the one the entry's chain resolves to.
spec fn dir_match_of_entry<K, C: FSContext<K>>(
    context: &C,
    sym: Seq<Seq<char>>,
    entry: StatView,
    dm: DirMatch,
) -> bool {
    &&& dm.symbolic@ == sym.push(entry.path_of().last())
    &&& match entry {
        StatView::Dir(dp) => dm.dir@ == dp,
        StatView::Link(lp) => link_resolves_to::<K, C>(context, lp, StatView::Dir(dm.dir@)),
        StatView::File(_) => false,
    }
}

/// Some collected pair names the directory `dp` under the entry's basename.
spec fn has_dir_match_to(
    sym: Seq<Seq<char>>,
    entry: StatView,
    dp: Seq<Seq<char>>,
    dirs: Seq<DirMatch>,
) -> bool {
    exists|d: int|
        0 <= d < dirs.len() && (#[trigger] dirs[d]).symbolic@ == sym.push(entry.path_of().last())
            && dirs[d].dir@ == dp
}

/// `dm` is a correct pair of some matching entry among the first `i`.
spec fn pair_from_matching<K, C: FSContext<K>>(
    context: &C,
    sym: Seq<Seq<char>>,
    wc: Seq<char>,
    entries: Seq<StatView>,
    i: int,
    dm: DirMatch,
) -> bool {
    exists|i0: int|
        0 <= i0 < i && entry_matches(#[trigger] entries[i0], wc) && dir_match_of_entry::<K, C>(
            context,
            sym,
            entries[i0],
            dm,
        )
}

/// Every collected pair comes from a matching entry among the first `i`.
spec fn dirs_sound<K, C: FSContext<K>>(
    context: &C,
    sym: Seq<Seq<char>>,
    wc: Seq<char>,
    entries: Seq<StatView>,
    i: int,
    dirs: Seq<DirMatch>,
) -> bool {
    forall|d: int|
        #![trigger dirs[d]]
        0 <= d < dirs.len() ==> pair_from_matching::<K, C>(context, sym, wc, entries, i, dirs[d])
}

/// The pair a matching entry owes: a directory entry contributes itself;
/// a link entry contributes whatever directory its chain resolves to.
spec fn dir_entry_included<K, C: FSContext<K>>(
    context: &C,
    sym: Seq<Seq<char>>,
    entry: StatView,
    dirs: Seq<DirMatch>,
) -> bool {
    match entry {
        StatView::Dir(dp) => has_dir_match_to(sym, entry, dp, dirs),
        StatView::Link(lp) => forall|s: StatView|
            #[trigger] link_resolves_to::<K, C>(context, lp, s) && s is Dir ==> has_dir_match_to(
                sym,
                entry,
                s.path_of(),
                dirs,
            ),
        StatView::File(_) => true,
    }
}

/// What the directory-matching half of a `DirWildcard` yields, per the
/// model: every pair comes from a matching entry that is, or resolves
/// to, a directory; every matching entry that is or resolves to a
/// directory contributes its pair; the error count is exactly the number
/// of matching looping links; and every matching link's chain is settled.
spec fn dir_level_ok<K, C: FSContext<K>>(
    context: &C,
    dir: Seq<Seq<char>>,
    sym: Seq<Seq<char>>,
    wc: Seq<char>,
    dirs: Seq<DirMatch>,
    errs: Seq<String>,
) -> bool {
    match context.scandir_model(dir) {
        Some(entries) => {
            &&& dirs_sound::<K, C>(context, sym, wc, entries, entries.len() as int, dirs)
            &&& (forall|i0: int|
                0 <= i0 < entries.len() && entry_matches(#[trigger] entries[i0], wc)
                    ==> dir_entry_included::<K, C>(context, sym, entries[i0], dirs))
            &&& errs.len() == loop_error_count::<K, C>(context, entries, wc, entries.len() as int)
            &&& (forall|i0: int|
                0 <= i0 < entries.len() && entry_matches(#[trigger] entries[i0], wc)
                    ==> link_chain_settled::<K, C>(context, entries[i0]))
        },
        None => false,
    }
}

/// Pairs sound for the first `i` entries are sound for the first
/// `i + 1` as well.
proof fn lemma_dirs_sound_widen<K, C: FSContext<K>>(
    context: &C,
    sym: Seq<Seq<char>>,
    wc: Seq<char>,
    entries: Seq<StatView>,
    i: int,
    dirs: Seq<DirMatch>,
)
    requires
        dirs_sound::<K, C>(context, sym, wc, entries, i, dirs),
    ensures
        dirs_sound::<K, C>(context, sym, wc, entries, i + 1, dirs),
{
    assert forall|d: int| #![trigger dirs[d]] 0 <= d < dirs.len() implies pair_from_matching::<
        K,
        C,
    >(context, sym, wc, entries, i + 1, dirs[d]) by {
        assert(pair_from_matching::<K, C>(context, sym, wc, entries, i, dirs[d]));
        let i0 = choose|i0: int|
            0 <= i0 < i && entry_matches(#[trigger] entries[i0], wc) && dir_match_of_entry::<
                K,
                C,
            >(context, sym, entries[i0], dirs[d]);
        assert(0 <= i0 < i + 1 && entry_matches(entries[i0], wc) && dir_match_of_entry::<K, C>(
            context,
            sym,
            entries[i0],
            dirs[d],
        ));
    }
}

/// Appending a correct pair for the entry at `i` keeps the collected
/// pairs sound for the first `i + 1` entries.
proof fn lemma_dir_push_sound<K, C: FSContext<K>>(
    context: &C,
    sym: Seq<Seq<char>>,
    wc: Seq<char>,
    entries: Seq<StatView>,
    i: int,
    prev: Seq<DirMatch>,
    cur: Seq<DirMatch>,
    dm: DirMatch,
)
    requires
        0 <= i < entries.len(),
        cur == prev.push(dm),
        entry_matches(entries[i], wc),
        dir_match_of_entry::<K, C>(context, sym, entries[i], dm),
        dirs_sound::<K, C>(context, sym, wc, entries, i, prev),
    ensures
        dirs_sound::<K, C>(context, sym, wc, entries, i + 1, cur),
{
    assert(cur[prev.len() as int] == dm);
    assert forall|d: int| 0 <= d < prev.len() implies cur[d] == prev[d] by {}
    assert forall|d: int| #![trigger cur[d]] 0 <= d < cur.len() implies pair_from_matching::<
        K,
        C,
    >(context, sym, wc, entries, i + 1, cur[d]) by {
        if d < prev.len() {
            assert(cur[d] == prev[d]);
            assert(pair_from_matching::<K, C>(context, sym, wc, entries, i, prev[d]));
            let i0 = choose|i0: int|
                0 <= i0 < i && entry_matches(#[trigger] entries[i0], wc) && dir_match_of_entry::<
                    K,
                    C,
                >(context, sym, entries[i0], prev[d]);
            assert(0 <= i0 < i + 1 && entry_matches(entries[i0], wc) && dir_match_of_entry::<
                K,
                C,
            >(context, sym, entries[i0], cur[d]));
        } else {
            assert(cur[d] == dm);
            assert(0 <= i < i + 1 && entry_matches(entries[i], wc) && dir_match_of_entry::<K, C>(
                context,
                sym,
                entries[i],
                cur[d],
            ));
        }
    }
}

/// Appending a correct pair for the entry at `i` keeps every owed pair
/// present for the first `i + 1` entries.
proof fn lemma_dir_push_included<K, C: FSContext<K>>(
    context: &C,
    sym: Seq<Seq<char>>,
    wc: Seq<char>,
    entries: Seq<StatView>,
    i: int,
    prev: Seq<DirMatch>,
    cur: Seq<DirMatch>,
    dm: DirMatch,
)
    requires
        0 <= i < entries.len(),
        cur == prev.push(dm),
        entry_matches(entries[i], wc),
        dir_match_of_entry::<K, C>(context, sym, entries[i], dm),
        forall|i0: int|
            0 <= i0 < i && entry_matches(#[trigger] entries[i0], wc)
                ==> dir_entry_included::<K, C>(context, sym, entries[i0], prev),
    ensures
        forall|i0: int|
            0 <= i0 < i + 1 && entry_matches(#[trigger] entries[i0], wc)
                ==> dir_entry_included::<K, C>(context, sym, entries[i0], cur),
{
    assert(cur[prev.len() as int] == dm);
    assert forall|d: int| 0 <= d < prev.len() implies cur[d] == prev[d] by {}
    assert forall|i0: int|
        0 <= i0 < i + 1 && entry_matches(#[trigger] entries[i0], wc) implies
        dir_entry_included::<K, C>(context, sym, entries[i0], cur) by {
        match entries[i0] {
            StatView::Dir(dp) => {
                if i0 < i {
                    assert(dir_entry_included::<K, C>(context, sym, entries[i0], prev));
                    let d0 = choose|d: int|
                        0 <= d < prev.len() && (#[trigger] prev[d]).symbolic@ == sym.push(
                            entries[i0].path_of().last(),
                        ) && prev[d].dir@ == dp;
                    assert(cur[d0].symbolic@ == sym.push(entries[i0].path_of().last())
                        && cur[d0].dir@ == dp);
                } else {
                    assert(cur[prev.len() as int].symbolic@ == sym.push(
                        entries[i0].path_of().last(),
                    ) && cur[prev.len() as int].dir@ == dp);
                }
            },
            StatView::Link(lp) => {
                assert forall|s: StatView|
                    #[trigger] link_resolves_to::<K, C>(context, lp, s) && s is Dir implies
                    has_dir_match_to(sym, entries[i0], s.path_of(), cur) by {
                    if i0 < i {
                        assert(dir_entry_included::<K, C>(context, sym, entries[i0], prev));
                        assert(has_dir_match_to(sym, entries[i0], s.path_of(), prev));
                        let d0 = choose|d: int|
                            0 <= d < prev.len() && (#[trigger] prev[d]).symbolic@ == sym.push(
                                entries[i0].path_of().last(),
                            ) && prev[d].dir@ == s.path_of();
                        assert(cur[d0].symbolic@ == sym.push(entries[i0].path_of().last())
                            && cur[d0].dir@ == s.path_of());
                    } else {
                        assert(link_resolves_to::<K, C>(context, lp, StatView::Dir(dm.dir@)));
                        lemma_resolution_unique::<K, C>(context, lp, s, StatView::Dir(dm.dir@));
                        assert(cur[prev.len() as int].symbolic@ == sym.push(
                            entries[i0].path_of().last(),
                        ) && cur[prev.len() as int].dir@ == s.path_of());
                    }
                }
            },
            StatView::File(_) => {},
        }
    }
}

/// Passing an entry that owes no pair (it does not match, is a file, is
/// a link resolving to a file, or is a looping link) keeps every owed
/// pair present for the first `i + 1` entries.
proof fn lemma_dir_skip_included<K, C: FSContext<K>>(
    context: &C,
    sym: Seq<Seq<char>>,
    wc: Seq<char>,
    entries: Seq<StatView>,
    i: int,
    dirs: Seq<DirMatch>,
)
    requires
        0 <= i < entries.len(),
        entry_matches(entries[i], wc) ==> match entries[i] {
            StatView::Dir(_) => false,
            StatView::File(_) => true,
            StatView::Link(lp) => (exists|s: StatView|
                #[trigger] link_resolves_to::<K, C>(context, lp, s) && s is File) || chain_link::<
                K,
                C,
            >(context, lp, MAX_LINK_EXPANSION_ATTEMPTS as nat) is Some,
        },
        forall|i0: int|
            0 <= i0 < i && entry_matches(#[trigger] entries[i0], wc)
                ==> dir_entry_included::<K, C>(context, sym, entries[i0], dirs),
    ensures
        forall|i0: int|
            0 <= i0 < i + 1 && entry_matches(#[trigger] entries[i0], wc)
                ==> dir_entry_included::<K, C>(context, sym, entries[i0], dirs),
{
    assert forall|i0: int|
        0 <= i0 < i + 1 && entry_matches(#[trigger] entries[i0], wc) implies
        dir_entry_included::<K, C>(context, sym, entries[i0], dirs) by {
        if i0 == i {
            match entries[i0] {
                StatView::Link(lp) => {
                    assert forall|s: StatView|
                        #[trigger] link_resolves_to::<K, C>(context, lp, s) && s is Dir implies
                        has_dir_match_to(sym, entries[i0], s.path_of(), dirs) by {
                        if exists|s2: StatView|
                            #[trigger] link_resolves_to::<K, C>(context, lp, s2) && s2 is File {
                            let s2 = choose|s2: StatView|
                                #[trigger] link_resolves_to::<K, C>(context, lp, s2)
                                    && s2 is File;
                            lemma_resolution_unique::<K, C>(context, lp, s, s2);
                            assert(false);
                        } else {
                            lemma_resolves_not_loops::<K, C>(context, lp, s);
                            assert(false);
                        }
                    }
                },
                _ => {},
            }
        }
    }
}

/// Applies the directory-matching half of a `DirWildcard` unit: lists
/// the directory and keeps the matching entries that are, or resolve
/// through their link chain to, directories. A symlink loop becomes an
/// error for that entry; continuations are aggregated.
fn expand_dir_wildcard_level<K, C: FSContext<K>>(
    context: &C,
    canonical_dir: &Dir,
    symbolic_path: &PathBuf,
    wildcard: &String,
) -> (r: Result<(Vec<DirMatch>, Vec<String>), Vec<K>>)
    ensures
        r matches Err(ks) ==> ks@.len() > 0,
        r matches Ok(p) ==> dir_level_ok::<K, C>(
            context,
            canonical_dir@,
            symbolic_path@,
            wildcard@,
            p.0@,
            p.1@,
        ),
        r matches Ok(p) ==> zero_dir_matches::<K, C>(context, canonical_dir@, wildcard@)
            ==> p.0@.len() == 0 && p.1@.len() == 0,
{
    let listing = match context.scandir(canonical_dir) {
        Ok(v) => v,
        Err(k) => {
            let mut ks: Vec<K> = Vec::new();
            ks.push(k);
            return Err(ks);
        },
    };
    let ghost entries = stat_views(listing@);
    let ghost zero = zero_dir_matches::<K, C>(context, canonical_dir@, wildcard@);
    let mut out: Vec<DirMatch> = Vec::new();
    let mut errors: Vec<String> = Vec::new();
    let mut pendings: Vec<K> = Vec::new();
    let mut i: usize = 0;
    while i < listing.len()
        invariant
            i <= listing@.len(),
            entries == stat_views(listing@),
            context.scandir_model(canonical_dir@) == Some(entries),
            zero == zero_dir_matches::<K, C>(context, canonical_dir@, wildcard@),
            zero ==> out@.len() == 0 && errors@.len() == 0,
            dirs_sound::<K, C>(context, symbolic_path@, wildcard@, entries, i as int, out@),
            pendings@.len() == 0 ==> errors@.len() == loop_error_count::<K, C>(
                context,
                entries,
                wildcard@,
                i as int,
            ),
            pendings@.len() == 0 ==> (forall|i0: int|
                0 <= i0 < i as int && entry_matches(#[trigger] entries[i0], wildcard@)
                    ==> dir_entry_included::<K, C>(context, symbolic_path@, entries[i0], out@)),
            pendings@.len() == 0 ==> (forall|i0: int|
                0 <= i0 < i as int && entry_matches(#[trigger] entries[i0], wildcard@)
                    ==> link_chain_settled::<K, C>(context, entries[i0])),
        decreases listing@.len() - i,
    {
        let ghost prev_out = out@;
        proof {
            assert(entries[i as int] == listing@[i as int]@);
        }
        let entry = &listing[i];
        let pc = entry.path();
        if pc.components.len() > 0 {
            let base = &pc.components[pc.components.len() - 1];
            proof {
                assert(base@ == pc@.last());
                assert(pc@ == entries[i as int].path_of());
            }
            if wildcard_matches(wildcard, base) {
                proof {
                    assert(entry_matches(entries[i as int], wildcard@));
                }
                match entry {
                    Stat::Dir(d) => {
                        let dm = DirMatch { dir: d.clone(), symbolic: symbolic_path.child(base) };
                        proof {
                            assert(dir_match_of_entry::<K, C>(
                                context,
                                symbolic_path@,
                                entries[i as int],
                                dm,
                            ));
                        }
                        out.push(dm);
                        proof {
                            lemma_dir_push_sound::<K, C>(
                                context,
                                symbolic_path@,
                                wildcard@,
                                entries,
                                i as int,
                                prev_out,
                                out@,
                                dm,
                            );
                            assert(!entry_loops::<K, C>(context, entries[i as int], wildcard@));
                            assert(link_chain_settled::<K, C>(context, entries[i as int]));
                            if pendings@.len() == 0 {
                                lemma_dir_push_included::<K, C>(
                                    context,
                                    symbolic_path@,
                                    wildcard@,
                                    entries,
                                    i as int,
                                    prev_out,
                                    out@,
                                    dm,
                                );
                            }
                        }
                    },
                    Stat::File(_) => {
                        proof {
                            assert(!entry_loops::<K, C>(context, entries[i as int], wildcard@));
                            lemma_dirs_sound_widen::<K, C>(
                                context,
                                symbolic_path@,
                                wildcard@,
                                entries,
                                i as int,
                                out@,
                            );
                            if pendings@.len() == 0 {
                                lemma_dir_skip_included::<K, C>(
                                    context,
                                    symbolic_path@,
                                    wildcard@,
                                    entries,
                                    i as int,
                                    out@,
                                );
                            }
                        }
                    },
                    Stat::Link(l) => {
                        proof {
                            assert(entries[i as int] == StatView::Link(l@));
                        }
                        match crate::context::expand_link(l, context) {
                            Ok(LinkExpansion::Dir(d)) => {
                                let ghost dv = d@;
                                let dm = DirMatch { dir: d, symbolic: symbolic_path.child(base) };
                                proof {
                                    assert(dir_match_of_entry::<K, C>(
                                        context,
                                        symbolic_path@,
                                        entries[i as int],
                                        dm,
                                    ));
                                }
                                out.push(dm);
                                proof {
                                    lemma_dir_push_sound::<K, C>(
                                        context,
                                        symbolic_path@,
                                        wildcard@,
                                        entries,
                                        i as int,
                                        prev_out,
                                        out@,
                                        dm,
                                    );
                                    lemma_resolves_not_loops::<K, C>(
                                        context,
                                        l@,
                                        StatView::Dir(dv),
                                    );
                                    assert(!entry_loops::<K, C>(
                                        context,
                                        entries[i as int],
                                        wildcard@,
                                    ));
                                    assert(link_chain_settled::<K, C>(
                                        context,
                                        entries[i as int],
                                    ));
                                    if pendings@.len() == 0 {
                                        lemma_dir_push_included::<K, C>(
                                            context,
                                            symbolic_path@,
                                            wildcard@,
                                            entries,
                                            i as int,
                                            prev_out,
                                            out@,
                                            dm,
                                        );
                                    }
                                    if zero {
                                        let s = choose|s: StatView|
                                            link_resolves_to::<K, C>(context, l@, s)
                                                && s is File;
                                        lemma_resolution_unique::<K, C>(
                                            context,
                                            l@,
                                            s,
                                            StatView::Dir(dv),
                                        );
                                        assert(false);
                                    }
                                }
                            },
                            Ok(LinkExpansion::File(f)) => {
                                proof {
                                    lemma_dirs_sound_widen::<K, C>(
                                        context,
                                        symbolic_path@,
                                        wildcard@,
                                        entries,
                                        i as int,
                                        out@,
                                    );
                                    lemma_resolves_not_loops::<K, C>(
                                        context,
                                        l@,
                                        StatView::File(f@),
                                    );
                                    assert(!entry_loops::<K, C>(
                                        context,
                                        entries[i as int],
                                        wildcard@,
                                    ));
                                    assert(link_chain_settled::<K, C>(
                                        context,
                                        entries[i as int],
                                    ));
                                    if pendings@.len() == 0 {
                                        lemma_dir_skip_included::<K, C>(
                                            context,
                                            symbolic_path@,
                                            wildcard@,
                                            entries,
                                            i as int,
                                            out@,
                                        );
                                    }
                                }
                            },
                            Ok(LinkExpansion::Loop(msg)) => {
                                errors.push(msg);
                                proof {
                                    lemma_dirs_sound_widen::<K, C>(
                                        context,
                                        symbolic_path@,
                                        wildcard@,
                                        entries,
                                        i as int,
                                        out@,
                                    );
                                    assert(entry_loops::<K, C>(
                                        context,
                                        entries[i as int],
                                        wildcard@,
                                    ));
                                    assert(link_chain_settled::<K, C>(
                                        context,
                                        entries[i as int],
                                    ));
                                    if pendings@.len() == 0 {
                                        lemma_dir_skip_included::<K, C>(
                                            context,
                                            symbolic_path@,
                                            wildcard@,
                                            entries,
                                            i as int,
                                            out@,
                                        );
                                    }
                                    if zero {
                                        let s = choose|s: StatView|
                                            link_resolves_to::<K, C>(context, l@, s)
                                                && s is File;
                                        lemma_resolves_not_loops::<K, C>(context, l@, s);
                                        assert(false);
                                    }
                                }
                            },
                            Err(k) => {
                                pendings.push(k);
                                proof {
                                    lemma_dirs_sound_widen::<K, C>(
                                        context,
                                        symbolic_path@,
                                        wildcard@,
                                        entries,
                                        i as int,
                                        out@,
                                    );
                                }
                            },
                        }
                    },
                }
            } else {
                proof {
                    assert(!entry_matches(entries[i as int], wildcard@));
                    assert(!entry_loops::<K, C>(context, entries[i as int], wildcard@));
                    lemma_dirs_sound_widen::<K, C>(
                        context,
                        symbolic_path@,
                        wildcard@,
                        entries,
                        i as int,
                        out@,
                    );
                }
            }
        } else {
            proof {
                assert(entries[i as int].path_of().len() == 0);
                assert(!entry_matches(entries[i as int], wildcard@));
                assert(!entry_loops::<K, C>(context, entries[i as int], wildcard@));
                lemma_dirs_sound_widen::<K, C>(
                    context,
                    symbolic_path@,
                    wildcard@,
                    entries,
                    i as int,
                    out@,
                );
            }
        }
        i = i + 1;
    }
    if pendings.len() > 0 {
        return Err(pendings);
    }
    let ghost gout = out@;
    let ghost gerrs = errors@;
    let r = (out, errors);
    proof {
        assert(r.0@ == gout);
        assert(r.1@ == gerrs);
        assert forall|i0: int|
            0 <= i0 < entries.len() && entry_matches(#[trigger] entries[i0], wildcard@) implies
            dir_entry_included::<K, C>(context, symbolic_path@, entries[i0], r.0@) by {
            assert(dir_entry_included::<K, C>(context, symbolic_path@, entries[i0], gout));
        }
        assert forall|i0: int|
            0 <= i0 < entries.len() && entry_matches(#[trigger] entries[i0], wildcard@) implies
            link_chain_settled::<K, C>(context, entries[i0]) by {}
        assert(dirs_sound::<K, C>(
            context,
            symbolic_path@,
            wildcard@,
            entries,
            entries.len() as int,
            r.0@,
        ));
    }
    Ok(r)
}

/// Applies a `DirWildcard` unit with an explicit worklist: each matched
/// subdirectory has the remainder parsed against it, and the resulting
/// units are expanded in turn, their matches, errors and continuations
/// all aggregated. The contract pins the directory-matching level (see
/// `dir_level_ok` on the helper): the listing is the model's, every
/// matching link's chain is settled, and at least one error stands per
/// matching looping link.
fn apply_dir_wildcard<K, C: FSContext<K>>(
    context: &C,
    canonical_dir: &Dir,
    symbolic_path: &PathBuf,
    wildcard: &String,
    remainder: &PathBuf,
) -> (r: Result<GlobMatches, Vec<K>>)
    requires
        remainder@.len() > 0,
    ensures
        r matches Err(ks) ==> ks@.len() > 0,
        r matches Ok(m) ==> all_resolved(m.path_stats@),
        r matches Ok(m) ==> all_from_model::<K, C>(context, m.path_stats@),
        r matches Ok(m) ==> context.scandir_model(canonical_dir@) is Some,
        r matches Ok(m) ==> (match context.scandir_model(canonical_dir@) {
            Some(entries) => m.errors@.len() >= loop_error_count::<K, C>(
                context,
                entries,
                wildcard@,
                entries.len() as int,
            ) && (forall|i0: int|
                0 <= i0 < entries.len() && entry_matches(#[trigger] entries[i0], wildcard@)
                    ==> link_chain_settled::<K, C>(context, entries[i0])),
            None => false,
        }),
        r matches Ok(m) ==> zero_dir_matches::<K, C>(context, canonical_dir@, wildcard@)
            ==> m.path_stats@.len() == 0 && m.errors@.len() == 0,
{
    let ghost zero = zero_dir_matches::<K, C>(context, canonical_dir@, wildcard@);
    let level = match expand_dir_wildcard_level(context, canonical_dir, symbolic_path, wildcard) {
        Ok(p) => p,
        Err(ks) => {
            return Err(ks);
        },
    };
    let (dir_matches, mut errors) = level;
    let ghost base_errors = errors@.len();
    let mut path_stats: Vec<PathStat> = Vec::new();
    let mut pendings: Vec<K> = Vec::new();
    let mut stack: Vec<PathGlob> = Vec::new();
    let mut d: usize = 0;
    while d < dir_matches.len()
        invariant
            d <= dir_matches@.len(),
            remainder@.len() > 0,
            stack_wf(stack@),
            zero ==> dir_matches@.len() == 0,
            zero ==> stack@.len() == 0,
        decreases dir_matches@.len() - d,
    {
        let dm = &dir_matches[d];
        let mut units = PathGlobs::parse(&dm.dir, &dm.symbolic, remainder);
        proof {
            lemma_parse_units_wf(dm.dir@, dm.symbolic@, remainder@);
            assert forall|k: int| 0 <= k < units@.len() implies glob_wf(
                (#[trigger] units@[k])@,
            ) by {
                assert(glob_seq_view(units@)[k] == units@[k]@);
            }
            lemma_stack_wf_append(stack@, units@);
        }
        stack.append(&mut units);
        d = d + 1;
    }
    let mut budget: usize = MAX_GLOB_EXPANSION_STEPS;
    while stack.len() > 0 && budget > 0
        invariant
            stack_wf(stack@),
            all_resolved(path_stats@),
            all_from_model::<K, C>(context, path_stats@),
            errors@.len() >= base_errors,
            zero ==> stack@.len() == 0 && path_stats@.len() == 0 && errors@.len() == 0
                && pendings@.len() == 0,
        decreases budget,
    {
        budget = budget - 1;
        let unit = match stack.pop() {
            Some(u) => u,
            None => {
                break ;
            },
        };
        proof {
            assert(glob_wf(unit@));
        }
        match unit {
            PathGlob::Root => {
                let ghost prev = path_stats@;
                let rs = PathGlob::root_stat();
                path_stats.push(rs);
                proof {
                    assert forall|j: int|
                        0 <= j < path_stats@.len() implies (#[trigger] path_stats@[j])@.stat.is_resolved() by {
                        if j < prev.len() {
                            assert(path_stats@[j] == prev[j]);
                            assert(prev[j]@.stat.is_resolved());
                        } else {
                            assert(path_stats@[j] == rs);
                        }
                    }
                    assert forall|j: int|
                        0 <= j < path_stats@.len() implies match_from_model::<K, C>(
                        context,
                        (#[trigger] path_stats@[j])@,
                    ) by {
                        if j < prev.len() {
                            assert(path_stats@[j] == prev[j]);
                            assert(match_from_model::<K, C>(context, prev[j]@));
                        } else {
                            assert(path_stats@[j] == rs);
                            assert(rs@ == root_stat_view());
                        }
                    }
                }
            },
            PathGlob::Wildcard { canonical_dir: cd, symbolic_path: sp, wildcard: wc } => {
                match apply_wildcard(context, &cd, &sp, &wc) {
                    Ok(mut m) => {
                        proof {
                            assert(all_resolved(m.path_stats@));
                            lemma_all_resolved_append(path_stats@, m.path_stats@);
                            lemma_sound_matches_from_model::<K, C>(context, cd@, sp@, wc@, m);
                            lemma_from_model_append::<K, C>(context, path_stats@, m.path_stats@);
                        }
                        path_stats.append(&mut m.path_stats);
                        errors.append(&mut m.errors);
                    },
                    Err(mut ks) => {
                        pendings.append(&mut ks);
                    },
                }
            },
            PathGlob::DirWildcard {
                canonical_dir: cd,
                symbolic_path: sp,
                wildcard: wc,
                remainder: rem,
            } => {
                match expand_dir_wildcard_level(context, &cd, &sp, &wc) {
                    Ok(p) => {
                        let (sub_matches, mut sub_errors) = p;
                        errors.append(&mut sub_errors);
                        let mut s: usize = 0;
                        while s < sub_matches.len()
                            invariant
                                s <= sub_matches@.len(),
                                rem@.len() > 0,
                                stack_wf(stack@),
                            decreases sub_matches@.len() - s,
                        {
                            let dm = &sub_matches[s];
                            let mut units = PathGlobs::parse(&dm.dir, &dm.symbolic, &rem);
                            proof {
                                lemma_parse_units_wf(dm.dir@, dm.symbolic@, rem@);
                                assert forall|k: int| 0 <= k < units@.len() implies glob_wf(
                                    (#[trigger] units@[k])@,
                                ) by {
                                    assert(glob_seq_view(units@)[k] == units@[k]@);
                                }
                                lemma_stack_wf_append(stack@, units@);
                            }
                            stack.append(&mut units);
                            s = s + 1;
                        }
                    },
                    Err(mut ks) => {
                        pendings.append(&mut ks);
                    },
                }
            },
        }
    }
    if stack.len() > 0 {
        errors.push(
            "glob expansion exceeded its unit budget; the directory structure may be cyclic".to_owned(),
        );
    }
    if pendings.len() > 0 {
        return Err(pendings);
    }
    Ok(GlobMatches { path_stats, errors })
}

/// Applies one glob unit, returning either the resolved matches (which
/// may not be distinct) with any per-entry expansion errors, or the
/// aggregated continuations if more information is needed.
pub fn apply_path_glob<K, C: FSContext<K>>(context: &C, path_glob: &PathGlob) -> (r: Result<
    GlobMatches,
    Vec<K>,
>)
    requires
        glob_wf(path_glob@),
    ensures
        r matches Err(ks) ==> ks@.len() > 0,
        r matches Ok(m) ==> all_resolved(m.path_stats@),
        r matches Ok(m) ==> all_from_model::<K, C>(context, m.path_stats@),
        path_glob@ is Root ==> (r matches Ok(m) && path_stat_views(m.path_stats@) == seq![
            root_stat_view(),
        ] && m.errors@.len() == 0),
        path_glob@ matches PathGlobView::Wildcard { canonical_dir, symbolic_path, wildcard } ==> (
        r matches Ok(m) ==> wildcard_expansion_ok::<K, C>(
            context,
            canonical_dir,
            symbolic_path,
            wildcard,
            m,
        )),
        path_glob@ matches PathGlobView::DirWildcard { canonical_dir, .. } ==> (r matches Ok(m)
            ==> context.scandir_model(canonical_dir) is Some),
        path_glob@ matches PathGlobView::DirWildcard { canonical_dir, wildcard, .. } ==> (r matches
        Ok(m) ==> (match context.scandir_model(canonical_dir) {
            Some(entries) => m.errors@.len() >= loop_error_count::<K, C>(
                context,
                entries,
                wildcard,
                entries.len() as int,
            ) && (forall|i0: int|
                0 <= i0 < entries.len() && entry_matches(#[trigger] entries[i0], wildcard)
                    ==> link_chain_settled::<K, C>(context, entries[i0])),
            None => false,
        })),
        path_glob@ matches PathGlobView::DirWildcard { canonical_dir, wildcard, .. } ==> (r matches
        Ok(m) ==> zero_dir_matches::<K, C>(context, canonical_dir, wildcard)
            ==> m.path_stats@.len() == 0 && m.errors@.len() == 0),
{
    match path_glob {
        PathGlob::Root => {
            let mut path_stats: Vec<PathStat> = Vec::new();
            path_stats.push(PathGlob::root_stat());
            let m = GlobMatches { path_stats, errors: Vec::new() };
            proof {
                assert(path_stat_views(m.path_stats@) =~= seq![root_stat_view()]);
                assert forall|j: int|
                    0 <= j < m.path_stats@.len() implies (#[trigger] m.path_stats@[j])@.stat.is_resolved() by {
                    assert(m.path_stats@[j]@ == path_stat_views(m.path_stats@)[j]);
                }
                assert forall|j: int|
                    0 <= j < m.path_stats@.len() implies match_from_model::<K, C>(
                    context,
                    (#[trigger] m.path_stats@[j])@,
                ) by {
                    assert(m.path_stats@[j]@ == path_stat_views(m.path_stats@)[j]);
                    assert(m.path_stats@[j]@ == root_stat_view());
                }
            }
            Ok(m)
        },
        PathGlob::Wildcard { canonical_dir, symbolic_path, wildcard } => {
            let r = apply_wildcard(context, canonical_dir, symbolic_path, wildcard);
            match &r {
                Ok(m) => {
                    proof {
                        lemma_sound_matches_from_model::<K, C>(
                            context,
                            canonical_dir@,
                            symbolic_path@,
                            wildcard@,
                            *m,
                        );
                    }
                },
                Err(_) => {},
            }
            r
        },
        PathGlob::DirWildcard { canonical_dir, symbolic_path, wildcard, remainder } => {
            apply_dir_wildcard(context, canonical_dir, symbolic_path, wildcard, remainder)
        },
    }
}

} // verus!
