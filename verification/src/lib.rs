//! IPv4 and IPv6 subnet arithmetic: prefix parsing, containment checks,
//! subnet splitting, range-to-CIDR conversion and route summarization.

pub mod api;
pub mod batch;
pub mod classify;
pub mod cli;
pub mod config;
pub mod contains;
pub mod cover;
pub mod csv_output;
pub mod error;
pub mod from_range;
pub mod ipv4;
pub mod ipv6;
pub mod ipv6_laws;
pub mod logging;
pub mod output;
pub mod space;
pub mod subnet_generator;
pub mod summarize;
pub mod table;
pub mod text;
pub mod tui;
pub use batch::{process_batch, process_batch_with_limit, BatchResult};
pub use contains::ContainsResult;
pub use from_range::{Ipv4FromRangeResult, Ipv6FromRangeResult};
pub use ipv4::Ipv4Subnet;
pub use ipv6::Ipv6Subnet;
pub use logging::LogConfig;
pub use output::{OutputFormat, OutputWriter};
pub use summarize::{Ipv4SummaryResult, Ipv6SummaryResult};
