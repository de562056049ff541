use aionfm::error::AionError;
use aionfm::forecast::{HierarchyRelation, HierarchySpec, ReconciliationMethod, RequestContext};
use aionfm::validation::{
    validate_batch_outline, validate_closed_horizon_indices, validate_entities,
    validate_hierarchy, validate_horizon, validate_request_context, validate_scenario_count,
    EntityOutline,
};

fn message(result: Result<(), AionError>) -> String {
    match result {
        Err(AionError::Validation(message)) => message,
        other => panic!("expected a validation error, got {:?}", other),
    }
}

fn entity(id: &str, target: &str, history_len: usize) -> EntityOutline {
    EntityOutline { entity_id: id.into(), target: target.into(), history_len }
}

fn relation(parent: &str, children: &[&str]) -> HierarchyRelation {
    HierarchyRelation {
        parent_entity_id: parent.into(),
        child_entity_ids: children.iter().map(|c| c.to_string()).collect(),
    }
}

#[test]
fn rejects_zero_horizon() {
    assert!(validate_horizon(0).is_err());
}

#[test]
fn accepts_positive_horizon() {
    assert!(validate_horizon(1).is_ok());
    assert_eq!(message(validate_horizon(0)), "horizon must be greater than zero");
}

#[test]
fn rejects_hierarchy_children_missing_from_batch() {
    let hierarchy = HierarchySpec {
        method: ReconciliationMethod::BottomUp,
        relations: vec![relation("parent", &["missing"])],
    };
    let entities = vec![entity("parent", "value", 1)];
    assert!(validate_batch_outline(None, &entities, Some(&hierarchy)).is_err());
}

#[test]
fn rejects_empty_tenant_context() {
    assert!(validate_request_context(Some(&RequestContext {
        tenant_id: Some(" ".into()),
        ..Default::default()
    }))
    .is_err());
}

#[test]
fn context_field_messages_follow_check_order() {
    let blank = RequestContext { actor_id: Some("\t ".into()), ..Default::default() };
    assert_eq!(
        message(validate_request_context(Some(&blank))),
        "request context actor_id must not be empty"
    );
    let long = RequestContext { trace_id: Some("a".repeat(129)), ..Default::default() };
    assert_eq!(
        message(validate_request_context(Some(&long))),
        "request context trace_id must be 128 characters or fewer"
    );
    let exactly = RequestContext { trace_id: Some("a".repeat(128)), ..Default::default() };
    assert!(validate_request_context(Some(&exactly)).is_ok());
    // 43 three-byte characters are 129 bytes: the length check comes before the character check.
    let wide = RequestContext { purpose: Some("€".repeat(43)), ..Default::default() };
    assert_eq!(
        message(validate_request_context(Some(&wide))),
        "request context purpose must be 128 characters or fewer"
    );
    let odd = RequestContext { purpose: Some("team a".into()), ..Default::default() };
    assert_eq!(
        message(validate_request_context(Some(&odd))),
        "request context purpose contains unsupported characters"
    );
    let fine = RequestContext {
        tenant_id: Some("tenant-1".into()),
        actor_id: Some("svc:forecast/a_b.c".into()),
        trace_id: None,
        purpose: Some("planning".into()),
    };
    assert!(validate_request_context(Some(&fine)).is_ok());
    assert!(validate_request_context(None).is_ok());
}

#[test]
fn tenant_is_checked_before_actor() {
    let both = RequestContext {
        tenant_id: Some("bad tenant".into()),
        actor_id: Some("".into()),
        ..Default::default()
    };
    assert_eq!(
        message(validate_request_context(Some(&both))),
        "request context tenant_id contains unsupported characters"
    );
}

#[test]
fn scenario_count_must_be_positive() {
    assert_eq!(
        message(validate_scenario_count(Some(0))),
        "scenario_count must be greater than zero"
    );
    assert!(validate_scenario_count(Some(3)).is_ok());
    assert!(validate_scenario_count(None).is_ok());
}

#[test]
fn closed_indices_report_the_first_outside_the_horizon() {
    assert_eq!(
        message(validate_closed_horizon_indices(&vec![0, 5, 9], 3)),
        "closed_horizon_indices contains 5, outside horizon 3"
    );
    assert_eq!(
        message(validate_closed_horizon_indices(&vec![12], 12)),
        "closed_horizon_indices contains 12, outside horizon 12"
    );
    assert!(validate_closed_horizon_indices(&vec![0, 1, 2], 3).is_ok());
    assert!(validate_closed_horizon_indices(&vec![], 0).is_ok());
}

#[test]
fn entity_checks() {
    assert_eq!(message(validate_entities(&vec![])), "at least one entity is required");
    assert_eq!(
        message(validate_entities(&vec![entity("a", "y", 1), entity(" ", "y", 1)])),
        "entity_id must not be empty"
    );
    assert_eq!(
        message(validate_entities(&vec![entity("a", "", 1)])),
        "target must not be empty"
    );
    assert_eq!(
        message(validate_entities(&vec![entity("store_1", "demand", 0)])),
        "entity store_1 requires historical_values"
    );
    assert!(validate_entities(&vec![entity("a", "y", 2), entity("b", "y", 1)]).is_ok());
}

#[test]
fn hierarchy_checks() {
    let ids: Vec<String> = vec!["total".into(), "a".into(), "b".into()];
    let check = |relations: Vec<HierarchyRelation>| {
        validate_hierarchy(
            &ids,
            Some(&HierarchySpec { method: ReconciliationMethod::BottomUp, relations }),
        )
    };
    assert!(check(vec![relation("total", &["a", "b"])]).is_ok());
    assert_eq!(
        message(check(vec![relation(" ", &["a"])])),
        "hierarchy parent_entity_id must not be empty"
    );
    assert_eq!(
        message(check(vec![relation("region", &["a"])])),
        "hierarchy parent region is not present in the forecast batch"
    );
    assert_eq!(
        message(check(vec![relation("total", &[])])),
        "hierarchy parent total requires at least one child"
    );
    assert_eq!(
        message(check(vec![relation("total", &["a", ""])])),
        "hierarchy child_entity_ids must not contain empty IDs"
    );
    assert_eq!(
        message(check(vec![relation("total", &["total"])])),
        "hierarchy parent total cannot include itself as a child"
    );
    assert_eq!(
        message(check(vec![relation("total", &["a", "c"])])),
        "hierarchy child c is not present in the forecast batch"
    );
    assert_eq!(
        message(check(vec![relation("total", &["a", "b", "a"])])),
        "hierarchy child a is duplicated under parent total"
    );
    assert_eq!(
        message(check(vec![relation("total", &["a"]), relation("a", &["a"])])),
        "hierarchy parent a cannot include itself as a child"
    );
    assert!(validate_hierarchy(&ids, None).is_ok());
}

#[test]
fn batch_outline_checks_context_then_entities_then_hierarchy() {
    let bad_context = RequestContext { tenant_id: Some("".into()), ..Default::default() };
    let hierarchy = HierarchySpec {
        method: ReconciliationMethod::BottomUp,
        relations: vec![relation("x", &["y"])],
    };
    assert_eq!(
        message(validate_batch_outline(Some(&bad_context), &vec![], Some(&hierarchy))),
        "request context tenant_id must not be empty"
    );
    assert_eq!(
        message(validate_batch_outline(None, &vec![], Some(&hierarchy))),
        "at least one entity is required"
    );
    assert_eq!(
        message(validate_batch_outline(None, &vec![entity("a", "v", 1)], Some(&hierarchy))),
        "hierarchy parent x is not present in the forecast batch"
    );
    assert!(validate_batch_outline(None, &vec![entity("a", "v", 1)], None).is_ok());
}

#[test]
fn batch_outline_is_accepted_exactly_when_every_check_passes() {
    let context = RequestContext {
        tenant_id: Some("tenant-1".into()),
        actor_id: Some("svc:forecast/v1".into()),
        ..Default::default()
    };
    let entities = vec![entity("total", "sales", 3), entity("north", "sales", 2), entity("south", "sales", 2)];
    let good = HierarchySpec {
        method: ReconciliationMethod::BottomUp,
        relations: vec![relation("total", &["north", "south"])],
    };
    assert!(validate_batch_outline(Some(&context), &entities, Some(&good)).is_ok());
    let repeated = HierarchySpec {
        method: ReconciliationMethod::BottomUp,
        relations: vec![relation("total", &["north", "north"])],
    };
    assert!(validate_batch_outline(Some(&context), &entities, Some(&repeated)).is_err());
    let childless = HierarchySpec { method: ReconciliationMethod::BottomUp, relations: vec![relation("total", &[])] };
    assert!(validate_batch_outline(Some(&context), &entities, Some(&childless)).is_err());
    let mut no_history = entities.clone();
    no_history[2].history_len = 0;
    assert!(validate_batch_outline(Some(&context), &no_history, Some(&good)).is_err());
    let bad_chars = RequestContext { trace_id: Some("a b".into()), ..Default::default() };
    assert!(validate_batch_outline(Some(&bad_chars), &entities, None).is_err());
}
