//! How the counts of diagnostics add up.
use crate::diagnostics::{
    count_of, counts_by_path, is_countable, is_reported, occurrences, DiagnosticCounts, ReportView,
    Severity,
};
use crate::path::PathView;
use crate::sidebar::SidebarView;
use vstd::prelude::*;

verus! {

/// Those of `severities` that are `s`.
pub open spec fn of_severity(severities: Seq<Option<Severity>>, s: Severity) -> Seq<
    Option<Severity>,
> {
    severities.filter(|x: Option<Severity>| x == Some(s))
}

proof fn lemma_occurrences_are_counted(severities: Seq<Option<Severity>>, s: Severity)
    ensures
        occurrences(severities, s) == of_severity(severities, s).len(),
    decreases severities.len(),
{
    reveal(Seq::filter);
    if severities.len() > 0 {
        lemma_occurrences_are_counted(severities.drop_last(), s);
    }
}

/// The warnings that are counted for a path, none where nothing is.
pub open spec fn warnings_in(counts: Map<PathView, DiagnosticCounts>, path: PathView) -> int {
    if counts.contains_key(path) {
        counts[path].warnings as int
    } else {
        0
    }
}

/// The errors that are counted for a path, none where nothing is.
pub open spec fn errors_in(counts: Map<PathView, DiagnosticCounts>, path: PathView) -> int {
    if counts.contains_key(path) {
        counts[path].errors as int
    } else {
        0
    }
}

/// One report more adds its warnings and its errors to those of its file and changes no other
/// counts; one that is on no file changes none. Hints, information and diagnostics without a
/// severity are not counted. A file has counts if there is a report on it. Without reports there
/// are no counts.
pub proof fn lemma_reports_add_up(reports: Seq<ReportView>, report: ReportView)
    requires
        is_countable(reports.push(report)),
    ensures
        ({
            let before = counts_by_path(reports);
            let after = counts_by_path(reports.push(report));
            &&& counts_by_path(Seq::empty()).dom() == Set::<PathView>::empty()
            &&& report.path is None ==> after == before
            &&& report.path matches Some(path) ==> {
                &&& after.dom() == before.dom().insert(path)
                &&& forall|other: PathView|
                    other != path && #[trigger] before.contains_key(other) ==> after[other]
                        == before[other]
                &&& after[path].warnings == warnings_in(before, path) + of_severity(
                    report.severities,
                    Severity::Warning,
                ).len()
                &&& after[path].errors == errors_in(before, path) + of_severity(
                    report.severities,
                    Severity::Error,
                ).len()
            }
        }),
{
    let all = reports.push(report);
    let before = counts_by_path(reports);
    let after = counts_by_path(all);
    let n = reports.len() as int;
    assert(all.drop_last() =~= reports);
    assert(all.last() == report);
    lemma_occurrences_are_counted(report.severities, Severity::Warning);
    lemma_occurrences_are_counted(report.severities, Severity::Error);
    assert forall|p: PathView| #[trigger] is_reported(all, p) <==> is_reported(reports, p)
        || report.path == Some(p) by {
        if is_reported(all, p) {
            let k = choose|k: int| 0 <= k < all.len() && (#[trigger] all[k]).path == Some(p);
            if k < n {
                assert(reports[k].path == Some(p));
            }
        }
        if is_reported(reports, p) {
            let k = choose|k: int| 0 <= k < n && (#[trigger] reports[k]).path == Some(p);
            assert(all[k].path == Some(p));
        }
        if report.path == Some(p) {
            assert(all[n].path == Some(p));
        }
    }
    assert forall|p: PathView| #![trigger is_reported(reports, p)]
        count_of(reports, p, Severity::Warning) <= u32::MAX && count_of(
            reports,
            p,
            Severity::Error,
        ) <= u32::MAX by {
        assert(count_of(all, p, Severity::Warning) <= u32::MAX);
        assert(count_of(all, p, Severity::Error) <= u32::MAX);
    }
    assert(counts_by_path(Seq::empty()).dom() =~= Set::<PathView>::empty());
    match report.path {
        None => {
            assert(after =~= before);
        },
        Some(path) => {
            assert(after.dom() =~= before.dom().insert(path));
            assert(is_reported(all, path));
            assert(count_of(all, path, Severity::Warning) <= u32::MAX);
            assert(count_of(all, path, Severity::Error) <= u32::MAX);
            if !is_reported(reports, path) {
                lemma_nothing_is_counted(reports, path, Severity::Warning);
                lemma_nothing_is_counted(reports, path, Severity::Error);
            }
        },
    }
}

proof fn lemma_nothing_is_counted(reports: Seq<ReportView>, path: PathView, s: Severity)
    requires
        !is_reported(reports, path),
    ensures
        count_of(reports, path, s) == 0,
    decreases reports.len(),
{
    if reports.len() > 0 {
        let front = reports.drop_last();
        assert(reports[reports.len() - 1].path != Some(path));
        assert forall|i: int| 0 <= i < front.len() implies (#[trigger] front[i]).path != Some(
            path,
        ) by {
            assert(front[i] == reports[i]);
        }
        lemma_nothing_is_counted(front, path, s);
    }
}

/// Diagnostics of the generation that was counted last change nothing; those of another are counted
/// in place of all before, and nothing else changes.
pub proof fn lemma_new_diagnostics_replace_the_old(
    sidebar: SidebarView,
    generation: u64,
    reports: Seq<ReportView>,
)
    ensures
        ({
            let after = sidebar.diagnosed(generation, reports);
            &&& generation == sidebar.diagnostics_generation ==> after == sidebar
            &&& generation != sidebar.diagnostics_generation ==> after.diagnostics
                == counts_by_path(reports)
            &&& after.diagnostics_generation == generation
            &&& after.root == sidebar.root
            &&& after.options == sidebar.options
            &&& after.expanded == sidebar.expanded
            &&& after.entries == sidebar.entries
            &&& after.selected == sidebar.selected
            &&& after.scroll == sidebar.scroll
            &&& after.width == sidebar.width
            &&& after.last_click == sidebar.last_click
        }),
{
}

/// The counts of a path are those that were counted for it, or none.
pub proof fn lemma_counts_of_paths(sidebar: SidebarView, path: PathView)
    ensures
        sidebar.counts_of(path).warnings == warnings_in(sidebar.diagnostics, path),
        sidebar.counts_of(path).errors == errors_in(sidebar.diagnostics, path),
{
}

} // verus!
