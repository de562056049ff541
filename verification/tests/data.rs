use aionfm::memory::TemporalMemory;
use aionfm::metadata::{EntityMetadata, MetadataManager};
use aionfm::missing::{fill_plan, imputation_plan, Fill};
use aionfm::patch::MissingPolicy;
use aionfm::types::Frequency;
use std::collections::BTreeMap;

fn apply(values: &[f32], plan: &[Fill]) -> Vec<f32> {
    plan.iter()
        .zip(values)
        .map(|(fill, value)| match *fill {
            Fill::Keep => *value,
            Fill::Zero => 0.0,
            Fill::Copy(source) => values[source],
            Fill::Blend { left, right, step, span } => {
                values[left] + (values[right] - values[left]) * (step as f32 / span as f32)
            }
        })
        .collect()
}

#[test]
fn interpolation_plan_fills_interior_gap_with_its_midpoint() {
    let values = [1.0, f32::NAN, 3.0];
    let observed: Vec<bool> = values.iter().map(|v| v.is_finite()).collect();
    let plan = fill_plan(MissingPolicy::LinearInterpolate, &observed);
    assert_eq!(apply(&values, &plan), vec![1.0, 2.0, 3.0]);
    assert_eq!(observed, vec![true, false, true]);
}

#[test]
fn interpolation_plan_blends_interior_gaps_and_copies_at_the_ends() {
    let observed = vec![true, false, true];
    assert_eq!(
        fill_plan(MissingPolicy::LinearInterpolate, &observed),
        vec![Fill::Keep, Fill::Blend { left: 0, right: 2, step: 1, span: 2 }, Fill::Keep]
    );
    let observed = vec![false, true, false, false, true, false];
    assert_eq!(
        fill_plan(MissingPolicy::LinearInterpolate, &observed),
        vec![
            Fill::Copy(1),
            Fill::Keep,
            Fill::Blend { left: 1, right: 4, step: 1, span: 3 },
            Fill::Blend { left: 1, right: 4, step: 2, span: 3 },
            Fill::Keep,
            Fill::Copy(4),
        ]
    );
}

#[test]
fn other_policies_plan_their_fills() {
    let observed = vec![false, true, false];
    assert_eq!(fill_plan(MissingPolicy::Preserve, &observed), vec![Fill::Keep, Fill::Keep, Fill::Keep]);
    assert_eq!(fill_plan(MissingPolicy::ZeroFill, &observed), vec![Fill::Zero, Fill::Keep, Fill::Zero]);
    assert_eq!(fill_plan(MissingPolicy::ForwardFill, &observed), vec![Fill::Copy(1), Fill::Keep, Fill::Copy(1)]);
    let nothing = vec![false, false];
    assert_eq!(fill_plan(MissingPolicy::ForwardFill, &nothing), vec![Fill::Keep, Fill::Keep]);
    assert_eq!(fill_plan(MissingPolicy::LinearInterpolate, &nothing), vec![Fill::Keep, Fill::Keep]);
    assert_eq!(imputation_plan(&nothing), vec![Fill::Zero, Fill::Zero]);
    assert_eq!(imputation_plan(&vec![true, false, false]), vec![Fill::Keep, Fill::Copy(0), Fill::Copy(0)]);
    assert_eq!(fill_plan(MissingPolicy::ZeroFill, &vec![]), vec![]);
}

#[test]
fn memory_keeps_the_most_recent_summaries() {
    let mut memory: TemporalMemory<Vec<f32>> = TemporalMemory::new(2);
    memory.push(vec![1.0]);
    memory.push(vec![2.0]);
    memory.push(vec![3.0]);
    assert_eq!(memory.len(), 2);
    assert_eq!(memory.summary(0), &vec![2.0]);
    assert_eq!(memory.summary(1), &vec![3.0]);
    let mut none: TemporalMemory<u8> = TemporalMemory::new(0);
    none.push(7);
    assert_eq!(none.len(), 0);
}

fn metadata(id: &str, domain: Option<&str>) -> EntityMetadata {
    let mut attributes = BTreeMap::new();
    attributes.insert("region".to_string(), serde_json::Value::String(format!("{id}-region")));
    EntityMetadata {
        entity_id: id.to_string(),
        domain: domain.map(|d| d.to_string()),
        frequency: Frequency::Daily,
        attributes,
    }
}

#[test]
fn metadata_lookups_follow_inserts() {
    let mut manager = MetadataManager::default();
    assert!(manager.is_empty());
    manager.insert(metadata("a", Some("retail")));
    manager.insert(metadata("b", None));
    manager.insert(metadata("a", Some("energy")));
    assert_eq!(manager.len(), 2);
    assert_eq!(manager.get("a").unwrap().domain.as_deref(), Some("energy"));
    assert!(manager.get("c").is_none());
    assert_eq!(
        manager.attributes_for("b").get("region"),
        Some(&serde_json::Value::String("b-region".to_string()))
    );
    assert!(manager.attributes_for("c").is_empty());
}

#[test]
fn cloned_memory_and_metadata_keep_their_contents() {
    let mut memory: TemporalMemory<u8> = TemporalMemory::new(2);
    memory.push(1);
    memory.push(2);
    memory.push(3);
    let copy = memory.clone();
    assert_eq!((copy.len(), *copy.summary(0), *copy.summary(1)), (2, 2, 3));
    let mut manager = MetadataManager::new();
    manager.insert(metadata("a", Some("retail")));
    manager.insert(metadata("b", None));
    let copy = manager.clone();
    assert_eq!(copy.len(), 2);
    assert_eq!(copy.get("a").unwrap().domain.as_deref(), Some("retail"));
    assert!(copy.get("b").unwrap().domain.is_none());
    assert_eq!(copy.attributes_for("a").len(), 1);
    let blank = EntityMetadata::default();
    assert!(blank.entity_id.is_empty() && blank.domain.is_none() && blank.attributes.is_empty());
}
