//! Verified core of the AionFM temporal foundation-model toolkit.

pub mod adapter;
pub mod error;
pub mod forecast;
pub mod grouping;
pub mod keyed;
pub mod loader;
pub mod memory;
pub mod metadata;
pub mod missing;
pub mod model;
pub mod monitoring;
pub mod patch;
pub mod retrieval;
pub mod series;
pub mod serving;
pub mod text;
pub mod tokenization;
pub mod training;
pub mod types;
pub mod validation;
pub mod vocabulary;
