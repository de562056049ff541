use aionfm::adapter::{AdaptationMode, AdaptationWorkflow, AdapterConfig, AdapterRegistry, BottleneckAdapter};
use aionfm::vocabulary::{RegimeLevel, RegimeToken, RegimeVocabulary};

fn config(name: &str, domain: &str, dim: usize) -> AdapterConfig {
    AdapterConfig { name: name.into(), domain: domain.into(), bottleneck_dim: dim, target_layers: vec![] }
}

#[test]
fn registry_replaces_by_name_and_lists_domains_in_name_order() {
    let mut registry = AdapterRegistry::default();
    registry.register(config("zeta", "retail", 8));
    registry.register(config("alpha", "retail", 16));
    registry.register(config("mid", "energy", 32));
    registry.register(config("zeta", "retail", 64));
    assert_eq!(registry.get("zeta").unwrap().bottleneck_dim, 64);
    assert!(registry.get("missing").is_none());
    let retail: Vec<&str> = registry.for_domain("retail").iter().map(|c| c.name.as_str()).collect();
    assert_eq!(retail, vec!["alpha", "zeta"]);
    assert_eq!(registry.for_domain("energy").len(), 1);
    assert!(registry.for_domain("health").is_empty());
}

#[test]
fn registry_orders_names_by_code_point() {
    let mut registry = AdapterRegistry::new();
    for name in ["b", "B", "a", "ab", "é", "A"] {
        registry.register(config(name, "d", 1));
    }
    let names: Vec<&str> = registry.for_domain("d").iter().map(|c| c.name.as_str()).collect();
    assert_eq!(names, vec!["A", "B", "a", "ab", "b", "é"]);
}

#[test]
fn adapter_defaults_and_constructor() {
    let default = AdapterConfig::default();
    assert_eq!(default.name, "default");
    assert_eq!(default.domain, "general");
    assert_eq!(default.bottleneck_dim, 64);
    assert!(default.target_layers.is_empty());
    let adapter = BottleneckAdapter::new(config("x", "y", 3));
    assert_eq!(adapter.config().bottleneck_dim, 3);
}

#[test]
fn adapter_tuning_registers_a_domain_adapter() {
    let mut workflow = AdaptationWorkflow::new(AdapterRegistry::default());
    let status = workflow.start("retail", None, AdaptationMode::AdapterTuning, [0xff; 16]).unwrap();
    assert_eq!(status.status, "accepted");
    assert_eq!(status.message.as_deref(), Some("adaptation workflow queued in AdapterTuning mode"));
    let adapter = workflow.registry().get("retail_adapter").unwrap();
    assert_eq!(adapter.domain, "retail");
    assert_eq!(adapter.bottleneck_dim, 64);
    workflow.start("energy", Some("grid"), AdaptationMode::AdapterTuning, [0; 16]).unwrap();
    assert!(workflow.registry().get("grid").is_some());
    let other = workflow.start("health", None, AdaptationMode::ZeroShot, [7; 16]).unwrap();
    assert_eq!(other.message.as_deref(), Some("adaptation workflow queued in ZeroShot mode"));
    assert!(workflow.registry().get("health_adapter").is_none());
    assert_eq!(other.adaptation_id.get_version_num(), 4);
    let mut expected = [7u8; 16];
    expected[6] = 0x47;
    expected[8] = 0x87;
    assert_eq!(other.id_bytes(), expected);
    assert_eq!(status.id_bytes()[6], 0x4f);
    assert_eq!(status.id_bytes()[8], 0xbf);
    assert_eq!(status.adaptation_id.get_variant(), uuid::Variant::RFC4122);
}

fn token(id: u32, label: &str) -> RegimeToken {
    RegimeToken { id, level: RegimeLevel::Meso, label: label.into(), description: None }
}

#[test]
fn vocabulary_lookups_follow_inserts() {
    let mut vocabulary = RegimeVocabulary::default();
    assert!(vocabulary.is_empty());
    vocabulary.insert(token(1, "stable"));
    vocabulary.insert(token(2, "growth"));
    assert_eq!(vocabulary.len(), 2);
    assert_eq!(vocabulary.token(2).unwrap().label, "growth");
    assert_eq!(vocabulary.id_for_label("stable"), Some(1));
    assert_eq!(vocabulary.id_for_label("volatile"), None);
    assert!(vocabulary.token(3).is_none());
    // Re-registering an ID replaces the token; the old label still names the ID.
    vocabulary.insert(token(1, "calm"));
    assert_eq!(vocabulary.len(), 2);
    assert_eq!(vocabulary.token(1).unwrap().label, "calm");
    assert_eq!(vocabulary.id_for_label("calm"), Some(1));
    assert_eq!(vocabulary.id_for_label("stable"), Some(1));
    // Re-using a label points it at the new ID.
    vocabulary.insert(token(7, "growth"));
    assert_eq!(vocabulary.id_for_label("growth"), Some(7));
    assert_eq!(vocabulary.len(), 3);
    let copy = vocabulary.clone();
    assert_eq!(copy.id_for_label("growth"), Some(7));
    assert_eq!(vocabulary.label_for(7), "growth");
    assert_eq!(vocabulary.label_for(42), "token_42");
}

#[test]
fn registry_keeps_the_latest_config_per_name_across_domains() {
    let mut registry = AdapterRegistry::new();
    registry.register(config("b", "retail", 1));
    registry.register(config("a", "energy", 2));
    registry.register(config("b", "energy", 3));
    registry.register(config("c", "retail", 4));
    let energy: Vec<(&str, usize)> =
        registry.for_domain("energy").iter().map(|c| (c.name.as_str(), c.bottleneck_dim)).collect();
    assert_eq!(energy, vec![("a", 2), ("b", 3)]);
    let retail: Vec<(&str, usize)> =
        registry.for_domain("retail").iter().map(|c| (c.name.as_str(), c.bottleneck_dim)).collect();
    assert_eq!(retail, vec![("c", 4)]);
}

#[test]
fn workflow_over_a_cloned_registry_answers_like_the_registry() {
    let mut registry = AdapterRegistry::new();
    registry.register(config("zeta", "retail", 8));
    registry.register(config("alpha", "retail", 16));
    registry.register(config("mid", "energy", 32));
    let workflow = AdaptationWorkflow::new(registry.clone());
    for name in ["zeta", "alpha", "mid", "none"] {
        let left = workflow.registry().get(name).map(|c| (c.name.clone(), c.domain.clone(), c.bottleneck_dim));
        let right = registry.get(name).map(|c| (c.name.clone(), c.domain.clone(), c.bottleneck_dim));
        assert_eq!(left, right);
    }
    for domain in ["retail", "energy", "health"] {
        let left: Vec<&str> = workflow.registry().for_domain(domain).iter().map(|c| c.name.as_str()).collect();
        let right: Vec<&str> = registry.for_domain(domain).iter().map(|c| c.name.as_str()).collect();
        assert_eq!(left, right);
    }
    let copy = workflow.clone();
    assert_eq!(copy.registry().for_domain("retail").len(), 2);
}

#[test]
fn vocabulary_counts_distinct_ids_and_follows_the_last_insert() {
    let mut vocabulary = RegimeVocabulary::default();
    for t in [token(3, "a"), token(3, "b"), token(4, "a"), token(3, "c")] {
        vocabulary.insert(t);
    }
    assert_eq!(vocabulary.len(), 2);
    assert_eq!(vocabulary.token(3).unwrap().label, "c");
    assert_eq!(vocabulary.token(4).unwrap().label, "a");
    assert_eq!(vocabulary.id_for_label("a"), Some(4));
    assert_eq!(vocabulary.id_for_label("b"), Some(3));
    assert_eq!(vocabulary.id_for_label("c"), Some(3));
    assert_eq!(vocabulary.id_for_label("d"), None);
}
