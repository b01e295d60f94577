//! What an HTTP front end needs from the library: its configuration and the
//! output formats that a request can name.

use vstd::prelude::*;
use vstd::std_specs::convert::FromSpecImpl;
use crate::batch::DEFAULT_MAX_BATCH_SIZE;
use crate::config::{ServerConfig, DEFAULT_MAX_BODY_SIZE, DEFAULT_TIMEOUT_SECONDS};
use crate::from_range::DEFAULT_MAX_GENERATED_CIDRS;
use crate::subnet_generator::DEFAULT_MAX_GENERATED_SUBNETS;
use crate::summarize::DEFAULT_MAX_SUMMARIZE_INPUTS;
use crate::output::OutputFormat;

verus! {

/// The configuration that a router is built from.
#[derive(Debug, Clone, PartialEq, Eq)]
pub struct RouterConfig {
    /// Limits and switches of the server.
    pub server: ServerConfig,
}

impl Default for RouterConfig {
    fn default() -> (r: RouterConfig)
        ensures
            r.server.max_batch_size == DEFAULT_MAX_BATCH_SIZE,
            r.server.max_generated_cidrs == DEFAULT_MAX_GENERATED_CIDRS,
            r.server.max_generated_subnets == DEFAULT_MAX_GENERATED_SUBNETS,
            r.server.max_summarize_inputs == DEFAULT_MAX_SUMMARIZE_INPUTS,
            r.server.max_body_size == DEFAULT_MAX_BODY_SIZE,
            r.server.timeout_seconds == DEFAULT_TIMEOUT_SECONDS,
            !r.server.enable_swagger,
    {
        RouterConfig { server: ServerConfig::default() }
    }
}

/// The output format that a request asks for.
#[derive(Debug, Clone, Copy, PartialEq, Eq, Structural)]
pub enum ApiOutputFormat {
    Json,
    Text,
    Csv,
    Yaml,
}

impl Default for ApiOutputFormat {
    fn default() -> (r: ApiOutputFormat)
        ensures
            r == ApiOutputFormat::Json,
    {
        ApiOutputFormat::Json
    }
}

impl From<ApiOutputFormat> for OutputFormat {
    fn from(f: ApiOutputFormat) -> (r: OutputFormat) {
        match f {
            ApiOutputFormat::Json => OutputFormat::Json,
            ApiOutputFormat::Text => OutputFormat::Text,
            ApiOutputFormat::Csv => OutputFormat::Csv,
            ApiOutputFormat::Yaml => OutputFormat::Yaml,
        }
    }
}

impl FromSpecImpl<ApiOutputFormat> for OutputFormat {
    open spec fn obeys_from_spec() -> bool {
        true
    }

    open spec fn from_spec(f: ApiOutputFormat) -> OutputFormat {
        match f {
            ApiOutputFormat::Json => OutputFormat::Json,
            ApiOutputFormat::Text => OutputFormat::Text,
            ApiOutputFormat::Csv => OutputFormat::Csv,
            ApiOutputFormat::Yaml => OutputFormat::Yaml,
        }
    }
}

} // verus!
