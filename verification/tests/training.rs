use aionfm::training::{CheckpointMetadata, MemoryCheckpointStore, OptimizerState};
use std::path::PathBuf;

fn checkpoint(epoch: usize, step: usize) -> CheckpointMetadata {
    CheckpointMetadata {
        path: PathBuf::from(format!("/tmp/ckpt-{epoch}-{step}")),
        epoch,
        step,
        model_version: "v1".to_string(),
    }
}

#[test]
fn checkpoint_store_returns_the_last_save() {
    let mut store = MemoryCheckpointStore::default();
    assert!(store.latest().is_none());
    store.save_metadata(checkpoint(1, 10));
    store.save_metadata(checkpoint(2, 20));
    let latest = store.latest().unwrap();
    assert_eq!((latest.epoch, latest.step), (2, 20));
    assert_eq!(latest.path, PathBuf::from("/tmp/ckpt-2-20"));
}

#[test]
fn optimizer_state_counts_steps_and_epochs() {
    let mut state = OptimizerState::default();
    state.advance_step();
    state.advance_step();
    assert_eq!(state.complete_epoch(), 1);
    assert_eq!(state, OptimizerState { step: 2, epoch: 1 });
}

#[test]
fn checkpoint_metadata_clones_field_by_field() {
    let original = checkpoint(3, 30);
    let copy = original.clone();
    assert_eq!(copy.path, original.path);
    assert_eq!((copy.epoch, copy.step, copy.model_version.as_str()), (3, 30, "v1"));
}
