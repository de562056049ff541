use aionfm::forecast::{
    merge_reports, projection_report, ConstraintReport, HierarchyRelation, HierarchySpec,
    ReconciliationMethod,
};
use aionfm::serving::{HierarchicalReconciler, ScenarioKind, ScenarioSampler};

fn ids(names: &[&str]) -> Vec<String> {
    names.iter().map(|n| n.to_string()).collect()
}

#[test]
fn bottom_up_reconciles_parent_point_forecast() {
    let entity_ids = ids(&["parent", "child_a", "child_b"]);
    let hierarchy = HierarchySpec {
        method: ReconciliationMethod::BottomUp,
        relations: vec![HierarchyRelation {
            parent_entity_id: "parent".into(),
            child_entity_ids: ids(&["child_a", "child_b"]),
        }],
    };
    let plan = HierarchicalReconciler.plan(&entity_ids, &hierarchy);
    assert_eq!(plan.len(), 1);
    assert_eq!(plan[0].parent, 0);
    assert_eq!(plan[0].children, vec![1, 2]);
    let report = HierarchicalReconciler.report(&hierarchy.method, &entity_ids, &plan).unwrap();
    assert_eq!(report.adjusted_entities, ids(&["parent"]));
    assert_eq!(report.notes, ids(&["reconciled aggregate forecasts using bottom-up child sums"]));
}

#[test]
fn reconciliation_skips_absent_parents_and_childless_relations() {
    let entity_ids = ids(&["a", "b", "a"]);
    let hierarchy = HierarchySpec {
        method: ReconciliationMethod::TopDown,
        relations: vec![
            HierarchyRelation { parent_entity_id: "x".into(), child_entity_ids: ids(&["a"]) },
            HierarchyRelation { parent_entity_id: "b".into(), child_entity_ids: ids(&["y", "z"]) },
            HierarchyRelation { parent_entity_id: "b".into(), child_entity_ids: ids(&["a", "q", "a"]) },
        ],
    };
    let plan = HierarchicalReconciler.plan(&entity_ids, &hierarchy);
    assert_eq!(plan.len(), 1);
    assert_eq!(plan[0].parent, 1);
    // A repeated entity ID resolves to its last result.
    assert_eq!(plan[0].children, vec![2, 2]);
    let report = HierarchicalReconciler.report(&hierarchy.method, &entity_ids, &plan).unwrap();
    assert_eq!(report.method, ReconciliationMethod::TopDown);
    assert!(HierarchicalReconciler.report(&hierarchy.method, &entity_ids, &vec![]).is_none());
}

#[test]
fn scenario_count_honors_request_and_default() {
    let sampler = ScenarioSampler::default();
    assert_eq!(sampler.scenario_count(Some(3)), 3);
    assert_eq!(sampler.scenario_count(None), 8);
    assert_eq!(sampler.scenario_count(Some(0)), 1);
}

#[test]
fn scenario_kind_follows_the_type_name() {
    let sampler = ScenarioSampler::default();
    assert_eq!(sampler.scenario_kind(Some("stress")), ScenarioKind::Stress);
    assert_eq!(sampler.scenario_kind(Some("tail-risk")), ScenarioKind::Stress);
    assert_eq!(sampler.scenario_kind(Some("optimistic")), ScenarioKind::Optimistic);
    assert_eq!(sampler.scenario_kind(Some("conservative")), ScenarioKind::Conservative);
    assert_eq!(sampler.scenario_kind(Some("Stress")), ScenarioKind::Median);
    assert_eq!(sampler.scenario_kind(None), ScenarioKind::Median);
}

#[test]
fn projection_reports_note_adjusted_points() {
    let report = projection_report(3, "point_forecast");
    assert!(report.applied);
    assert_eq!(report.adjusted_points, 3);
    assert_eq!(report.notes, vec!["projected 3 values in point_forecast".to_string()]);
    let quiet = projection_report(0, "quantile_0.50");
    assert!(!quiet.applied);
    assert!(quiet.notes.is_empty());
    assert_eq!(projection_report(120, "x").notes, vec!["projected 120 values in x".to_string()]);
}

#[test]
fn merged_reports_add_up() {
    let a = ConstraintReport { applied: true, adjusted_points: 2, notes: ids(&["projected 2 values in point_forecast"]) };
    let b = ConstraintReport { applied: false, adjusted_points: 0, notes: vec![] };
    let c = ConstraintReport { applied: true, adjusted_points: 3, notes: ids(&["x", "y"]) };
    let merged = merge_reports(vec![a, b, c]).unwrap();
    assert!(merged.applied);
    assert_eq!(merged.adjusted_points, 5);
    assert_eq!(merged.notes, ids(&["projected 2 values in point_forecast", "x", "y"]));
    assert!(merge_reports(vec![ConstraintReport::default()]).is_none());
    assert!(merge_reports(vec![]).is_none());
    let notes_only = ConstraintReport { applied: false, adjusted_points: 0, notes: ids(&["n"]) };
    assert!(merge_reports(vec![notes_only]).is_some());
}
