//! The limits that a server applies to the requests it takes.

use vstd::prelude::*;
use crate::batch::DEFAULT_MAX_BATCH_SIZE;
use crate::from_range::DEFAULT_MAX_GENERATED_CIDRS;
use crate::subnet_generator::DEFAULT_MAX_GENERATED_SUBNETS;
use crate::summarize::DEFAULT_MAX_SUMMARIZE_INPUTS;

verus! {

/// Largest request body, in bytes, unless configured otherwise.
pub const DEFAULT_MAX_BODY_SIZE: usize = 1_048_576;

/// Seconds after which a request is given up, unless configured otherwise.
pub const DEFAULT_TIMEOUT_SECONDS: u64 = 30;

/// Limits and switches of the server.
#[derive(Debug, Clone, PartialEq, Eq)]
pub struct ServerConfig {
    /// Most entries of one batch.
    pub max_batch_size: usize,
    /// Most blocks that a range may be decomposed into.
    pub max_generated_cidrs: usize,
    /// Most subnets that a split may generate.
    pub max_generated_subnets: u64,
    /// Most CIDRs of one summarization.
    pub max_summarize_inputs: usize,
    /// Largest request body in bytes.
    pub max_body_size: usize,
    /// Seconds after which a request is given up.
    pub timeout_seconds: u64,
    /// Whether the interactive API documentation is served.
    pub enable_swagger: bool,
}

impl Default for ServerConfig {
    fn default() -> (r: ServerConfig)
        ensures
            r.max_batch_size == DEFAULT_MAX_BATCH_SIZE,
            r.max_generated_cidrs == DEFAULT_MAX_GENERATED_CIDRS,
            r.max_generated_subnets == DEFAULT_MAX_GENERATED_SUBNETS,
            r.max_summarize_inputs == DEFAULT_MAX_SUMMARIZE_INPUTS,
            r.max_body_size == DEFAULT_MAX_BODY_SIZE,
            r.timeout_seconds == DEFAULT_TIMEOUT_SECONDS,
            !r.enable_swagger,
    {
        ServerConfig {
            max_batch_size: DEFAULT_MAX_BATCH_SIZE,
            max_generated_cidrs: DEFAULT_MAX_GENERATED_CIDRS,
            max_generated_subnets: DEFAULT_MAX_GENERATED_SUBNETS,
            max_summarize_inputs: DEFAULT_MAX_SUMMARIZE_INPUTS,
            max_body_size: DEFAULT_MAX_BODY_SIZE,
            timeout_seconds: DEFAULT_TIMEOUT_SECONDS,
            enable_swagger: false,
        }
    }
}

} // verus!
