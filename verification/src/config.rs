//! Application configuration values. Loading and saving them belongs to
//! the surrounding program; the defaults and the shape live here.

use vstd::prelude::*;

verus! {

/// Application configuration.
#[derive(Debug, Clone)]
pub struct AppConfig {
    /// Provider settings for assisted querying.
    pub ai: AiConfig,
    /// Display settings.
    pub display: DisplayConfig,
}

/// Provider settings for assisted querying.
#[derive(Debug, Clone)]
pub struct AiConfig {
    /// Provider name, or `none`.
    pub provider: String,
    /// Model name.
    pub model: String,
    /// API key.
    pub api_key: String,
    /// Custom endpoint URL.
    pub endpoint: String,
}

/// Display settings.
#[derive(Debug, Clone)]
pub struct DisplayConfig {
    /// Monochrome mode, without colors.
    pub monochrome: bool,
    /// Most items shown in the candidate popup.
    pub max_candidates: usize,
    /// Sample bound for schema inference.
    pub schema_max_samples: usize,
}

impl Default for AiConfig {
    fn default() -> (c: AiConfig)
        ensures
            c.provider@ == "none"@,
            c.model@.len() == 0,
            c.api_key@.len() == 0,
            c.endpoint@.len() == 0,
    {
        AiConfig {
            provider: String::from_str("none"),
            model: String::new(),
            api_key: String::new(),
            endpoint: String::new(),
        }
    }
}

impl Default for DisplayConfig {
    fn default() -> (c: DisplayConfig)
        ensures
            !c.monochrome,
            c.max_candidates == 20,
            c.schema_max_samples == 10,
    {
        DisplayConfig { monochrome: false, max_candidates: 20, schema_max_samples: 10 }
    }
}

impl Default for AppConfig {
    fn default() -> (c: AppConfig)
        ensures
            c.ai.provider@ == "none"@,
            c.ai.model@.len() == 0,
            c.ai.api_key@.len() == 0,
            c.ai.endpoint@.len() == 0,
            !c.display.monochrome,
            c.display.max_candidates == 20,
            c.display.schema_max_samples == 10,
    {
        AppConfig { ai: Default::default(), display: Default::default() }
    }
}

} // verus!
