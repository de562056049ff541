use vstd::prelude::*;

use crate::text::{decimal, push_decimal};
use crate::types::Frequency;
use vstd::string::*;

verus! {

/// Caller identity and tracing context attached to a request.
#[derive(Clone, Debug, Default)]
pub struct RequestContext {
    pub tenant_id: Option<String>,
    pub actor_id: Option<String>,
    pub trace_id: Option<String>,
    pub purpose: Option<String>,
}

/// Summary of constraint projection work applied to a response.
#[derive(Clone, Debug, Default)]
pub struct ConstraintReport {
    pub applied: bool,
    pub adjusted_points: usize,
    pub notes: Vec<String>,
}

/// Hierarchical reconciliation strategy.
#[derive(Clone, Debug, PartialEq, Eq)]
pub enum ReconciliationMethod {
    BottomUp,
    TopDown,
    MiddleOut,
}

impl Default for ReconciliationMethod {
    fn default() -> (method: Self)
        ensures
            method == ReconciliationMethod::BottomUp,
    {
        ReconciliationMethod::BottomUp
    }
}

/// Parent-child relationship for hierarchical forecasting.
#[derive(Clone, Debug, Default)]
pub struct HierarchyRelation {
    pub parent_entity_id: String,
    pub child_entity_ids: Vec<String>,
}

/// Batch-level hierarchy definition used by serving post-processing.
#[derive(Clone, Debug, Default)]
pub struct HierarchySpec {
    pub method: ReconciliationMethod,
    pub relations: Vec<HierarchyRelation>,
}

/// Reconciliation summary for aggregate coherence.
#[derive(Clone, Debug, Default)]
pub struct ReconciliationReport {
    pub method: ReconciliationMethod,
    pub adjusted_entities: Vec<String>,
    pub notes: Vec<String>,
}

/// Severity assigned to monitoring alerts.
#[derive(Clone, Debug, PartialEq, Eq)]
pub enum AlertSeverity {
    Info,
    Warning,
    Critical,
}

impl Default for AlertSeverity {
    fn default() -> (severity: Self)
        ensures
            severity == AlertSeverity::Info,
    {
        AlertSeverity::Info
    }
}

/// Descriptor returned by model-list endpoints.
#[derive(Clone, Debug)]
pub struct ModelDescriptor {
    pub name: String,
    pub version: String,
    pub status: String,
    pub description: Option<String>,
    pub supported_frequencies: Vec<Frequency>,
}


/// The report of one projection that adjusted `adjusted_points` values of the trajectory `label`:
/// applied and noted when anything was adjusted.
pub fn projection_report(adjusted_points: usize, label: &str) -> (report: ConstraintReport)
    ensures
        report.applied == (adjusted_points > 0),
        report.adjusted_points == adjusted_points,
        adjusted_points == 0 ==> report.notes@.len() == 0,
        adjusted_points > 0 ==> report.notes@.len() == 1 && report.notes@[0]@ == "projected "@
            + decimal(adjusted_points as nat) + " values in "@ + label@,
{
    let mut notes: Vec<String> = Vec::new();
    if adjusted_points > 0 {
        let mut note = String::from_str("projected ");
        proof {
            reveal_strlit("projected ");
        }
        push_decimal(&mut note, adjusted_points);
        note.append(" values in ");
        note.append(label);
        notes.push(note);
    }
    ConstraintReport { applied: adjusted_points > 0, adjusted_points, notes }
}

/// Whether any of the reports applied a projection.
pub open spec fn any_applied(reports: Seq<ConstraintReport>) -> bool {
    exists|i: int| 0 <= i < reports.len() && (#[trigger] reports[i]).applied
}

/// The total number of adjusted points of the reports.
pub open spec fn total_adjusted(reports: Seq<ConstraintReport>) -> nat
    decreases reports.len(),
{
    if reports.len() == 0 {
        0
    } else {
        total_adjusted(reports.drop_last()) + reports.last().adjusted_points as nat
    }
}

/// The notes of the reports, in order.
pub open spec fn all_notes(reports: Seq<ConstraintReport>) -> Seq<Seq<char>>
    decreases reports.len(),
{
    if reports.len() == 0 {
        Seq::empty()
    } else {
        all_notes(reports.drop_last()) + reports.last().notes@.map_values(|n: String| n@)
    }
}

/// Merges constraint reports: applied if any was, the adjusted points added up, the notes joined.
/// Nothing is returned when the merge reports no work.
pub fn merge_reports(reports: Vec<ConstraintReport>) -> (merged: Option<ConstraintReport>)
    requires
        total_adjusted(reports@) <= usize::MAX,
    ensures
        match merged {
            Some(m) => {
                &&& m.applied == any_applied(reports@)
                &&& m.adjusted_points == total_adjusted(reports@)
                &&& m.notes@.map_values(|n: String| n@) == all_notes(reports@)
                &&& (m.applied || m.adjusted_points > 0 || m.notes@.len() > 0)
            },
            None => !any_applied(reports@) && total_adjusted(reports@) == 0 && all_notes(
                reports@,
            ).len() == 0,
        },
{
    let mut applied = false;
    let mut adjusted_points: usize = 0;
    let mut notes: Vec<String> = Vec::new();
    let mut i: usize = 0;
    while i < reports.len()
        invariant
            i <= reports@.len(),
            total_adjusted(reports@) <= usize::MAX,
            applied == any_applied(reports@.subrange(0, i as int)),
            adjusted_points == total_adjusted(reports@.subrange(0, i as int)),
            notes@.map_values(|n: String| n@) == all_notes(reports@.subrange(0, i as int)),
        decreases reports@.len() - i,
    {
        let ghost prefix = reports@.subrange(0, i as int);
        let ghost next = reports@.subrange(0, i + 1);
        assert(next.drop_last() =~= prefix);
        assert(next.last() == reports@[i as int]);
        proof {
            lemma_total_adjusted_prefix(reports@, i + 1);
        }
        let report = &reports[i];
        applied = applied || report.applied;
        assert(applied == any_applied(next)) by {
            if report.applied {
                assert(next[i as int] == reports@[i as int]);
            }
            if any_applied(next) && !report.applied {
                let w = choose|w: int| 0 <= w < next.len() && (#[trigger] next[w]).applied;
                assert(w < i);
                assert(prefix[w] == next[w]);
            }
        }
        adjusted_points = adjusted_points + report.adjusted_points;
        let ghost before = notes@;
        let mut j: usize = 0;
        while j < report.notes.len()
            invariant
                j <= report.notes@.len(),
                notes@.map_values(|n: String| n@) == before.map_values(|n: String| n@)
                    + report.notes@.subrange(0, j as int).map_values(|n: String| n@),
            decreases report.notes@.len() - j,
        {
            let ghost prev_notes = notes@;
            notes.push(report.notes[j].clone());
            assert(notes@ == prev_notes.push(report.notes@[j as int]));
            assert(notes@.map_values(|n: String| n@) =~= prev_notes.map_values(|n: String| n@).push(
                report.notes@[j as int]@,
            ));
            assert(report.notes@.subrange(0, j + 1).map_values(|n: String| n@) =~= report.notes@.subrange(
                0,
                j as int,
            ).map_values(|n: String| n@).push(report.notes@[j as int]@));
            assert(notes@.map_values(|n: String| n@) =~= before.map_values(|n: String| n@)
                + report.notes@.subrange(0, j + 1).map_values(|n: String| n@));
            j = j + 1;
        }
        assert(report.notes@.subrange(0, report.notes@.len() as int) =~= report.notes@);
        i = i + 1;
    }
    assert(reports@.subrange(0, reports@.len() as int) =~= reports@);
    if applied || adjusted_points > 0 || notes.len() > 0 {
        Some(ConstraintReport { applied, adjusted_points, notes })
    } else {
        None
    }
}

/// A prefix of the reports never has more adjusted points than all of them.
proof fn lemma_total_adjusted_prefix(reports: Seq<ConstraintReport>, n: int)
    requires
        0 <= n <= reports.len(),
    ensures
        total_adjusted(reports.subrange(0, n)) <= total_adjusted(reports),
    decreases reports.len() - n,
{
    if n < reports.len() {
        lemma_total_adjusted_prefix(reports, n + 1);
        assert(reports.subrange(0, n + 1).drop_last() =~= reports.subrange(0, n));
    } else {
        assert(reports.subrange(0, n) =~= reports);
    }
}

} // verus!
