use aionfm::monitoring::{evaluation_plan, EvaluationPair, RegimeTally, ServingCounts};

fn ids(names: &[&str]) -> Vec<String> {
    names.iter().map(|s| s.to_string()).collect()
}

#[test]
fn evaluation_pairs_forecasts_with_the_last_observation_of_their_entity() {
    let pairs = evaluation_plan(
        &ids(&["a", "b", "c", "a"]),
        &vec![3, 2, 4, 0],
        &ids(&["a", "c", "a", "b"]),
        &vec![5, 1, 2, 0],
    );
    assert_eq!(
        pairs,
        vec![EvaluationPair { forecast: 0, observation: 2, compared_points: 2 }, EvaluationPair {
            forecast: 2,
            observation: 1,
            compared_points: 1
        }]
    );
    assert!(evaluation_plan(&ids(&["x"]), &vec![4], &ids(&[]), &vec![]).is_empty());
}

#[test]
fn regime_weights_accumulate_by_label_in_label_order() {
    let mut tally = RegimeTally::default();
    tally.add("trend", 40);
    tally.add("calm", 0);
    tally.add("trend", 35);
    assert_eq!(tally.weight("trend"), 75);
    assert_eq!(tally.weight("calm"), 1);
    assert_eq!(tally.weight("spike"), 0);
    assert_eq!(tally.entries(), &vec![("calm".to_string(), 1), ("trend".to_string(), 75)]);
}

#[test]
fn serving_counts_track_requests_evaluations_and_checks() {
    let mut counts = ServingCounts::default();
    counts.record_request();
    counts.record_request();
    counts.record_evaluation(5, 2);
    counts.record_evaluation(3, 0);
    counts.record_interval_step();
    counts.record_scenario_paths(4);
    counts.record_quantile_check(true);
    counts.record_quantile_check(false);
    assert_eq!(
        counts,
        ServingCounts {
            request_count: 2,
            evaluation_count: 2,
            evaluated_observation_count: 8,
            last_alert_count: 0,
            interval_width_count: 1,
            quantile_crossing_count: 1,
            quantile_check_count: 2,
            scenario_path_count: 4,
        }
    );
}
