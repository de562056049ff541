use vstd::prelude::*;

verus! {

/// Filesystem paths of checkpoints.
#[verifier::external_type_specification]
#[verifier::external_body]
pub struct ExPathBuf(std::path::PathBuf);

/// `PathBuf::clone` (std): a duplicate of the path, equal to it.
pub assume_specification[<std::path::PathBuf as std::clone::Clone>::clone](
    path: &std::path::PathBuf,
) -> (duplicate: std::path::PathBuf)
    ensures
        duplicate == *path,
;

/// Metadata for model and optimizer checkpoints.
#[derive(Clone, Debug)]
pub struct CheckpointMetadata {
    pub path: std::path::PathBuf,
    pub epoch: usize,
    pub step: usize,
    pub model_version: String,
}

/// Optimizer progress tracked for checkpointing.
#[derive(Clone, Copy, Debug, Default, PartialEq, Eq, Structural)]
pub struct OptimizerState {
    pub step: usize,
    pub epoch: usize,
}

impl OptimizerState {
    /// Counts one optimizer step (one batch of a training epoch).
    pub fn advance_step(&mut self)
        requires
            old(self).step < usize::MAX,
        ensures
            final(self).step == old(self).step + 1,
            final(self).epoch == old(self).epoch,
    {
        self.step = self.step + 1;
    }

    /// Counts a completed epoch and returns the number of epochs completed so far.
    pub fn complete_epoch(&mut self) -> (epochs: usize)
        requires
            old(self).epoch < usize::MAX,
        ensures
            final(self).epoch == old(self).epoch + 1,
            final(self).step == old(self).step,
            epochs == final(self).epoch,
    {
        self.epoch = self.epoch + 1;
        self.epoch
    }
}

/// In-memory checkpoint catalog: remembers the most recently saved checkpoint.
#[derive(Debug)]
pub struct MemoryCheckpointStore {
    latest: Option<CheckpointMetadata>,
}

impl MemoryCheckpointStore {
    /// The most recently saved checkpoint, if any.
    pub closed spec fn latest_view(self) -> Option<CheckpointMetadata> {
        self.latest
    }

    /// An empty catalog.
    pub fn new() -> (store: Self)
        ensures
            store.latest_view() is None,
    {
        MemoryCheckpointStore { latest: None }
    }

    /// Records `metadata` as the latest checkpoint, replacing any earlier one.
    pub fn save_metadata(&mut self, metadata: CheckpointMetadata)
        ensures
            final(self).latest_view() == Some(metadata),
    {
        self.latest = Some(metadata);
    }

    /// The latest saved checkpoint: the one most recently saved, or none before any save.
    pub fn latest(&self) -> (latest: Option<&CheckpointMetadata>)
        ensures
            match latest {
                Some(m) => self.latest_view() == Some(*m),
                None => self.latest_view() is None,
            },
    {
        self.latest.as_ref()
    }
}

impl Default for MemoryCheckpointStore {
    fn default() -> (store: Self)
        ensures
            store.latest_view() is None,
    {
        MemoryCheckpointStore::new()
    }
}

} // verus!
