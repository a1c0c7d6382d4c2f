//! How many warnings and errors each file has.
use crate::path::{PathView, TreePath};
use crate::path_map::PathMap;
use vstd::prelude::*;

verus! {

#[derive(Clone, Copy, Debug, PartialEq, Eq, Structural)]
pub enum Severity {
    Error,
    Warning,
    Information,
    Hint,
}

#[derive(Clone, Copy, Debug, PartialEq, Eq, Structural)]
pub struct DiagnosticCounts {
    pub warnings: u32,
    pub errors: u32,
}

/// The counts of a file without diagnostics.
pub open spec fn no_diagnostics() -> DiagnosticCounts {
    DiagnosticCounts { warnings: 0, errors: 0 }
}

impl Default for DiagnosticCounts {
    fn default() -> (r: DiagnosticCounts)
        ensures
            r == no_diagnostics(),
    {
        DiagnosticCounts { warnings: 0, errors: 0 }
    }
}

/// The diagnostics of one resource: the file that it is, if it is one, and the severity of each
/// diagnostic where it has one.
pub struct ReportView {
    pub path: Option<PathView>,
    pub severities: Seq<Option<Severity>>,
}

/// The diagnostics of one resource: the file that it is, if it is one, and the severity of each
/// diagnostic where it has one.
#[derive(Debug)]
pub struct DiagnosticReport {
    pub path: Option<TreePath>,
    pub severities: Vec<Option<Severity>>,
}

impl View for DiagnosticReport {
    type V = ReportView;

    open spec fn view(&self) -> ReportView {
        ReportView {
            path: match self.path {
                Some(p) => Some(p@),
                None => None,
            },
            severities: self.severities@,
        }
    }
}

pub open spec fn report_views(reports: Seq<DiagnosticReport>) -> Seq<ReportView> {
    reports.map_values(|r: DiagnosticReport| r@)
}

/// How many of `severities` are `s`.
pub open spec fn occurrences(severities: Seq<Option<Severity>>, s: Severity) -> nat
    decreases severities.len(),
{
    if severities.len() == 0 {
        0
    } else {
        occurrences(severities.drop_last(), s) + if severities.last() == Some(s) {
            1nat
        } else {
            0nat
        }
    }
}

/// How many diagnostics of severity `s` the reports hold for the file `path`.
pub open spec fn count_of(reports: Seq<ReportView>, path: PathView, s: Severity) -> nat
    decreases reports.len(),
{
    if reports.len() == 0 {
        0
    } else {
        count_of(reports.drop_last(), path, s) + if reports.last().path == Some(path) {
            occurrences(reports.last().severities, s)
        } else {
            0
        }
    }
}

/// One of the reports is on the file `path`.
pub open spec fn is_reported(reports: Seq<ReportView>, path: PathView) -> bool {
    exists|i: int| 0 <= i < reports.len() && (#[trigger] reports[i]).path == Some(path)
}

/// No file has more warnings or errors than can be counted.
pub open spec fn is_countable(reports: Seq<ReportView>) -> bool {
    forall|p: PathView|
        #![trigger count_of(reports, p, Severity::Warning)]
        #![trigger count_of(reports, p, Severity::Error)]
        count_of(reports, p, Severity::Warning) <= u32::MAX && count_of(reports, p, Severity::Error)
            <= u32::MAX
}

/// The counts of each file on which there is a report.
pub open spec fn counts_by_path(reports: Seq<ReportView>) -> Map<PathView, DiagnosticCounts> {
    Map::new(
        |p: PathView| is_reported(reports, p),
        |p: PathView|
            DiagnosticCounts {
                warnings: count_of(reports, p, Severity::Warning) as u32,
                errors: count_of(reports, p, Severity::Error) as u32,
            },
    )
}

proof fn lemma_count_grows(reports: Seq<ReportView>, i: int, path: PathView, s: Severity)
    requires
        0 <= i <= reports.len(),
    ensures
        count_of(reports.take(i), path, s) <= count_of(reports, path, s),
    decreases reports.len() - i,
{
    if i < reports.len() {
        lemma_count_grows(reports, i + 1, path, s);
        assert(reports.take(i + 1).drop_last() == reports.take(i));
    } else {
        assert(reports.take(i) == reports);
    }
}

proof fn lemma_occurrences_grow(severities: Seq<Option<Severity>>, i: int, s: Severity)
    requires
        0 <= i <= severities.len(),
    ensures
        occurrences(severities.take(i), s) <= occurrences(severities, s),
    decreases severities.len() - i,
{
    if i < severities.len() {
        lemma_occurrences_grow(severities, i + 1, s);
        assert(severities.take(i + 1).drop_last() == severities.take(i));
    } else {
        assert(severities.take(i) == severities);
    }
}

proof fn lemma_unreported(reports: Seq<ReportView>, path: PathView, s: Severity)
    requires
        !is_reported(reports, path),
    ensures
        count_of(reports, path, s) == 0,
    decreases reports.len(),
{
    if reports.len() > 0 {
        assert(reports[reports.len() - 1].path != Some(path));
        assert forall|i: int| 0 <= i < reports.drop_last().len() implies (#[trigger] reports.drop_last()[i]).path
            != Some(path) by {
            assert(reports.drop_last()[i] == reports[i]);
        }
        lemma_unreported(reports.drop_last(), path, s);
    }
}

/// `base` with the warnings and errors among `severities` added.
fn add_counts(base: DiagnosticCounts, severities: &Vec<Option<Severity>>) -> (r: DiagnosticCounts)
    requires
        base.warnings + occurrences(severities@, Severity::Warning) <= u32::MAX,
        base.errors + occurrences(severities@, Severity::Error) <= u32::MAX,
    ensures
        r.warnings == base.warnings + occurrences(severities@, Severity::Warning),
        r.errors == base.errors + occurrences(severities@, Severity::Error),
{
    let mut counts = base;
    let mut i: usize = 0;
    let ghost all = severities@;
    assert(all.take(0) == Seq::<Option<Severity>>::empty());
    while i < severities.len()
        invariant
            i <= severities.len(),
            all == severities@,
            base.warnings + occurrences(all, Severity::Warning) <= u32::MAX,
            base.errors + occurrences(all, Severity::Error) <= u32::MAX,
            counts.warnings == base.warnings + occurrences(all.take(i as int), Severity::Warning),
            counts.errors == base.errors + occurrences(all.take(i as int), Severity::Error),
        decreases severities.len() - i,
    {
        proof {
            assert(all.take(i + 1).drop_last() == all.take(i as int));
            lemma_occurrences_grow(all, i + 1, Severity::Warning);
            lemma_occurrences_grow(all, i + 1, Severity::Error);
        }
        match severities[i] {
            Some(Severity::Warning) => {
                counts.warnings += 1;
            },
            Some(Severity::Error) => {
                counts.errors += 1;
            },
            _ => {},
        }
        i += 1;
    }
    assert(all.take(all.len() as int) == all);
    counts
}

/// Counts the warnings and errors of each file on which there is a report.
pub fn diagnostic_counts_by_path(reports: &Vec<DiagnosticReport>) -> (r: PathMap<DiagnosticCounts>)
    requires
        is_countable(report_views(reports@)),
    ensures
        r.wf(),
        r@ == counts_by_path(report_views(reports@)),
{
    let mut counts: PathMap<DiagnosticCounts> = PathMap::new();
    let ghost all = report_views(reports@);
    let mut i: usize = 0;
    assert(counts@ =~= counts_by_path(all.take(0)));
    while i < reports.len()
        invariant
            i <= reports.len(),
            all == report_views(reports@),
            is_countable(all),
            counts.wf(),
            counts@ == counts_by_path(all.take(i as int)),
        decreases reports.len() - i,
    {
        let report = &reports[i];
        let ghost before = all.take(i as int);
        let ghost after = all.take(i + 1);
        assert(after.drop_last() == before);
        assert(after.last() == report@);
        assert(forall|p: PathView| is_reported(before, p) ==> is_reported(after, p)) by {
            assert forall|p: PathView| is_reported(before, p) implies is_reported(after, p) by {
                let k = choose|k: int| 0 <= k < before.len() && (#[trigger] before[k]).path == Some(p);
                assert(after[k].path == Some(p));
            }
        }
        assert forall|p: PathView| is_reported(after, p) && report@.path != Some(p) implies is_reported(
            before,
            p,
        ) by {
            let k = choose|k: int| 0 <= k < after.len() && (#[trigger] after[k]).path == Some(p);
            assert(before[k].path == Some(p));
        }
        if let Some(path) = &report.path {
            let ghost p = path@;
            let base = match counts.get(path) {
                Some(c) => *c,
                None => DiagnosticCounts::default(),
            };
            proof {
                assert(after[i as int].path == Some(p));
                if !is_reported(before, p) {
                    lemma_unreported(before, p, Severity::Warning);
                    lemma_unreported(before, p, Severity::Error);
                }
                lemma_count_grows(all, i as int, p, Severity::Warning);
                lemma_count_grows(all, i as int, p, Severity::Error);
                lemma_count_grows(all, i + 1, p, Severity::Warning);
                lemma_count_grows(all, i + 1, p, Severity::Error);
                assert(count_of(all, p, Severity::Warning) <= u32::MAX);
                assert(count_of(all, p, Severity::Error) <= u32::MAX);
            }
            let updated = add_counts(base, &report.severities);
            counts.insert(path.clone(), updated);
        }
        assert(counts@ =~= counts_by_path(after));
        i += 1;
    }
    assert(all.take(all.len() as int) == all);
    counts
}

} // verus!
