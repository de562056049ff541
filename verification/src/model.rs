use vstd::prelude::*;
use vstd::string::*;

use crate::error::owned;

verus! {

/// Named model size presets.
#[derive(Clone, Copy, Debug, PartialEq, Eq, Structural)]
pub enum ModelSizePreset {
    Tiny,
    Small,
    Base,
    Large,
    Experimental,
}

/// Core architectural configuration.
#[derive(Clone, Copy, Debug, PartialEq, Eq, Structural)]
pub struct ModelConfig {
    pub preset: ModelSizePreset,
    pub patch_len: usize,
    pub hidden_dim: usize,
    pub num_layers: usize,
    pub num_heads: usize,
    pub memory_slots: usize,
    pub regime_vocab_size: usize,
    pub covariate_dim: usize,
}

/// The small preset configuration.
pub open spec fn small_config() -> ModelConfig {
    ModelConfig {
        preset: ModelSizePreset::Small,
        patch_len: 32,
        hidden_dim: 256,
        num_layers: 8,
        num_heads: 8,
        memory_slots: 128,
        regime_vocab_size: 4096,
        covariate_dim: 64,
    }
}

/// The message of the first architectural problem of a configuration, if any.
pub open spec fn config_problem(config: ModelConfig) -> Option<Seq<char>> {
    if config.patch_len == 0 {
        Some("patch_len must be greater than zero"@)
    } else if config.hidden_dim == 0 || config.num_layers == 0 || config.num_heads == 0 {
        Some("hidden_dim, num_layers, and num_heads must be greater than zero"@)
    } else if config.hidden_dim % config.num_heads != 0 {
        Some("hidden_dim must be divisible by num_heads"@)
    } else {
        None
    }
}

impl ModelConfig {
    pub fn small() -> (config: Self)
        ensures
            config == small_config(),
    {
        ModelConfig {
            preset: ModelSizePreset::Small,
            patch_len: 32,
            hidden_dim: 256,
            num_layers: 8,
            num_heads: 8,
            memory_slots: 128,
            regime_vocab_size: 4096,
            covariate_dim: 64,
        }
    }

    /// Checks that the patch length and the attention geometry are usable.
    pub fn validate(&self) -> (r: Result<(), String>)
        ensures
            match r {
                Ok(_) => config_problem(*self) is None,
                Err(message) => config_problem(*self) == Some(message@),
            },
    {
        if self.patch_len == 0 {
            return Err(owned("patch_len must be greater than zero"));
        }
        if self.hidden_dim == 0 || self.num_layers == 0 || self.num_heads == 0 {
            return Err(owned("hidden_dim, num_layers, and num_heads must be greater than zero"));
        }
        if self.hidden_dim % self.num_heads != 0 {
            return Err(owned("hidden_dim must be divisible by num_heads"));
        }
        Ok(())
    }
}

impl Default for ModelConfig {
    fn default() -> (config: Self)
        ensures
            config == small_config(),
    {
        ModelConfig::small()
    }
}

/// Causal attention mask over a sequence of patches.
#[derive(Clone, Copy, Debug)]
pub struct CausalMask {
    pub len: usize,
}

impl CausalMask {
    /// A query may attend to itself and to earlier keys, within the sequence.
    pub fn allows(&self, query_index: usize, key_index: usize) -> (allowed: bool)
        ensures
            allowed == (query_index < self.len && key_index <= query_index),
    {
        query_index < self.len && key_index <= query_index
    }
}

/// Causal transformer block stack.
#[derive(Clone, Copy, Debug)]
pub struct CausalTransformer {
    pub layers: usize,
    pub hidden_dim: usize,
}

/// Projects continuous value patches into a hidden representation.
#[derive(Clone, Copy, Debug)]
pub struct ValuePatchEncoder {
    hidden_dim: usize,
}

impl ValuePatchEncoder {
    pub closed spec fn spec_hidden_dim(self) -> usize {
        self.hidden_dim
    }

    pub fn new(hidden_dim: usize) -> (encoder: Self)
        ensures
            encoder.spec_hidden_dim() == hidden_dim,
    {
        ValuePatchEncoder { hidden_dim }
    }

    pub fn hidden_dim(&self) -> (dim: usize)
        ensures
            dim == self.spec_hidden_dim(),
    {
        self.hidden_dim
    }
}

/// Embeds regime token assignments.
#[derive(Clone, Copy, Debug)]
pub struct RegimeEmbedding {
    hidden_dim: usize,
}

impl RegimeEmbedding {
    pub closed spec fn spec_hidden_dim(self) -> usize {
        self.hidden_dim
    }

    pub fn new(hidden_dim: usize) -> (embedding: Self)
        ensures
            embedding.spec_hidden_dim() == hidden_dim,
    {
        RegimeEmbedding { hidden_dim }
    }

    pub fn hidden_dim(&self) -> (dim: usize)
        ensures
            dim == self.spec_hidden_dim(),
    {
        self.hidden_dim
    }

    /// The one-hot position of a token in the embedding.
    pub fn slot(&self, token_id: u32) -> (slot: usize)
        requires
            self.spec_hidden_dim() > 0,
        ensures
            slot == (token_id as usize) % self.spec_hidden_dim(),
            slot < self.spec_hidden_dim(),
    {
        (token_id as usize) % self.hidden_dim
    }
}

/// Encodes aligned covariate patches.
#[derive(Clone, Copy, Debug)]
pub struct CovariateEmbedding {
    hidden_dim: usize,
}

impl CovariateEmbedding {
    pub closed spec fn spec_hidden_dim(self) -> usize {
        self.hidden_dim
    }

    pub fn new(hidden_dim: usize) -> (embedding: Self)
        ensures
            embedding.spec_hidden_dim() == hidden_dim,
    {
        CovariateEmbedding { hidden_dim }
    }

    pub fn hidden_dim(&self) -> (dim: usize)
        ensures
            dim == self.spec_hidden_dim(),
    {
        self.hidden_dim
    }
}

/// Names the model that the output heads report.
#[derive(Clone, Debug)]
pub struct ForecastHeads {
    pub model_name: String,
    pub model_version: String,
}

impl Default for ForecastHeads {
    fn default() -> (heads: Self)
        ensures
            heads.model_name@ == "AionFM"@,
            heads.model_version@ == "0.1-statistical-baseline"@,
    {
        ForecastHeads { model_name: owned("AionFM"), model_version: owned("0.1-statistical-baseline") }
    }
}

/// Deterministic statistical baseline model.
#[derive(Clone, Debug)]
pub struct NaiveForecastModel {
    config: ModelConfig,
    heads: ForecastHeads,
}

impl NaiveForecastModel {
    pub closed spec fn spec_config(self) -> ModelConfig {
        self.config
    }

    pub closed spec fn spec_heads(self) -> ForecastHeads {
        self.heads
    }

    pub fn new(config: ModelConfig) -> (model: Self)
        ensures
            model.spec_config() == config,
            model.spec_heads().model_name@ == "AionFM"@,
            model.spec_heads().model_version@ == "0.1-statistical-baseline"@,
    {
        NaiveForecastModel { config, heads: ForecastHeads::default() }
    }

    pub fn config(&self) -> (config: &ModelConfig)
        ensures
            *config == self.spec_config(),
    {
        &self.config
    }

    pub fn model_name(&self) -> (name: &str)
        ensures
            name@ == self.spec_heads().model_name@,
    {
        self.heads.model_name.as_str()
    }

    pub fn model_version(&self) -> (version: &str)
        ensures
            version@ == self.spec_heads().model_version@,
    {
        self.heads.model_version.as_str()
    }

    pub fn heads(&self) -> (heads: &ForecastHeads)
        ensures
            *heads == self.spec_heads(),
    {
        &self.heads
    }
}

impl Default for NaiveForecastModel {
    fn default() -> (model: Self)
        ensures
            model.spec_config() == small_config(),
            model.spec_heads().model_name@ == "AionFM"@,
            model.spec_heads().model_version@ == "0.1-statistical-baseline"@,
    {
        NaiveForecastModel::new(ModelConfig::default())
    }
}

} // verus!
