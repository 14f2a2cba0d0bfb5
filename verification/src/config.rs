//! Run configuration: what to seed and how much.
//!
//! These are plain data shapes; the unverified shell parses them from a
//! configuration file (and environment) and hands them over as values.

use vstd::prelude::*;

verus! {

/// A per-column override kept for configuration compatibility; the
/// engine itself does not read it.
#[derive(Debug, Clone)]
pub struct ColumnOverride {
    pub generator: String,
    pub prompt: Option<String>,
    pub kind: Option<String>,
}

/// One seeding order: the target table and how many rows to generate.
/// The remaining fields are accepted for configuration compatibility
/// and ignored by the engine.
#[derive(Debug, Clone)]
pub struct SeedingTask {
    pub table: String,
    pub rows: u32,
    pub columns: Option<Vec<String>>,
    pub column_overrides: Vec<(String, ColumnOverride)>,
    pub smart_mode: bool,
}

#[derive(Debug, Clone)]
pub struct DatabaseConfig {
    pub url: String,
}

#[derive(Debug, Clone)]
pub struct GeminiConfig {
    pub model: String,
}

#[derive(Debug, Clone)]
pub struct GenerationConfig {
    pub language: String,
}

/// The whole run configuration.
#[derive(Debug, Clone)]
pub struct AppConfig {
    pub database: DatabaseConfig,
    pub gemini: Option<GeminiConfig>,
    pub generation: Option<GenerationConfig>,
    pub plan: Option<Vec<SeedingTask>>,
    pub default_rows: Option<u32>,
}

} // verus!
