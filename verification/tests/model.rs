use aionfm::model::{CausalMask, ModelConfig, ModelSizePreset, NaiveForecastModel, RegimeEmbedding};
use aionfm::types::{seasonal_period, Frequency};

#[test]
fn small_preset_is_valid() {
    let config = ModelConfig::small();
    assert_eq!(config.preset, ModelSizePreset::Small);
    assert_eq!(config.hidden_dim, 256);
    assert_eq!(config.patch_len, 32);
    assert!(config.validate().is_ok());
    assert_eq!(ModelConfig::default(), config);
}

#[test]
fn config_validation_messages() {
    let mut config = ModelConfig::small();
    config.num_heads = 3;
    assert_eq!(config.validate().unwrap_err(), "hidden_dim must be divisible by num_heads");
    config.num_layers = 0;
    assert_eq!(
        config.validate().unwrap_err(),
        "hidden_dim, num_layers, and num_heads must be greater than zero"
    );
    config.patch_len = 0;
    assert_eq!(config.validate().unwrap_err(), "patch_len must be greater than zero");
}

#[test]
fn causal_mask_never_looks_ahead() {
    let mask = CausalMask { len: 4 };
    assert!(mask.allows(2, 2));
    assert!(mask.allows(3, 0));
    assert!(!mask.allows(1, 2));
    assert!(!mask.allows(4, 0));
}

#[test]
fn naive_model_reports_its_name() {
    let model = NaiveForecastModel::default();
    assert_eq!(model.model_name(), "AionFM");
    assert_eq!(model.model_version(), "0.1-statistical-baseline");
    assert_eq!(model.config().hidden_dim, 256);
    let tiny = ModelConfig { preset: ModelSizePreset::Tiny, hidden_dim: 16, ..ModelConfig::small() };
    assert_eq!(NaiveForecastModel::new(tiny).config().preset, ModelSizePreset::Tiny);
}

#[test]
fn regime_embedding_slot_wraps() {
    let embedding = RegimeEmbedding::new(4);
    assert_eq!(embedding.slot(6), 2);
    assert_eq!(embedding.hidden_dim(), 4);
}

#[test]
fn frequency_codes_and_periods() {
    assert_eq!(Frequency::Minutely.code(), "T");
    assert_eq!(Frequency::Quarterly.code(), "Q");
    assert_eq!(Frequency::Custom("5min".into()).code(), "5min");
    assert_eq!(Frequency::default(), Frequency::Daily);
    assert_eq!(seasonal_period(&Frequency::Hourly), Some(24));
    assert_eq!(seasonal_period(&Frequency::Daily), Some(7));
    assert_eq!(seasonal_period(&Frequency::Weekly), Some(52));
    assert_eq!(seasonal_period(&Frequency::Monthly), Some(12));
    assert_eq!(seasonal_period(&Frequency::Yearly), None);
}
