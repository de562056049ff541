use aionfm::retrieval::{
    default_k, effective_k, matches_scope, series_windows, QueryScope, RetrievalError,
    RetrievalSource, SeriesWindow, SimilarityMetric, WindowScope,
};

#[test]
fn indexes_every_window_with_room_for_an_outcome() {
    let windows = series_windows(8, 3, 2).unwrap();
    assert_eq!(windows.len(), 4);
    assert_eq!(windows[0], SeriesWindow { start: 0, outcome_start: 3, outcome_end: 5 });
    assert_eq!(windows[3], SeriesWindow { start: 3, outcome_start: 6, outcome_end: 8 });
    // A zero horizon still needs one outcome value, and previews nothing.
    let zero = series_windows(4, 3, 0).unwrap();
    assert_eq!(zero, vec![SeriesWindow { start: 0, outcome_start: 3, outcome_end: 3 }]);
    assert!(series_windows(4, 3, 2).unwrap().is_empty());
    assert_eq!(series_windows(4, 0, 1).unwrap_err(), RetrievalError::InvalidWindow);
    assert_eq!(RetrievalError::InvalidWindow.message(), "retrieval window length must be greater than zero");
    assert_eq!(RetrievalError::EmptyContext.message(), "retrieval query context must not be empty");
}

fn window(entity: &str, tenant: Option<&str>, domain: Option<&str>) -> WindowScope {
    WindowScope {
        entity_id: entity.into(),
        tenant_id: tenant.map(String::from),
        domain: domain.map(String::from),
    }
}

#[test]
fn scope_matching() {
    let in_entity = QueryScope {
        source: RetrievalSource::InEntity,
        tenant_id: None,
        domain: None,
        entity_id: Some("store_42".into()),
    };
    assert!(matches_scope(&window("store_42", Some("t"), None), &in_entity));
    assert!(!matches_scope(&window("store_7", None, None), &in_entity));
    let no_entity = QueryScope { entity_id: None, ..in_entity.clone() };
    assert!(!matches_scope(&window("store_42", None, None), &no_entity));
    let tenant = QueryScope {
        source: RetrievalSource::DomainWide,
        tenant_id: Some("t1".into()),
        domain: Some("retail".into()),
        entity_id: None,
    };
    assert!(matches_scope(&window("a", Some("t1"), Some("retail")), &tenant));
    assert!(!matches_scope(&window("a", None, Some("retail")), &tenant));
    assert!(!matches_scope(&window("a", Some("t1"), Some("energy")), &tenant));
    assert_eq!(RetrievalSource::default(), RetrievalSource::InEntity);
    assert_eq!(SimilarityMetric::default(), SimilarityMetric::CenteredCosine);
}

#[test]
fn top_k_is_at_least_one() {
    assert_eq!(default_k(), 3);
    assert_eq!(effective_k(0), 1);
    assert_eq!(effective_k(5), 5);
}
