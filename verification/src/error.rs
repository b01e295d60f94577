//! The error type of every operation, and the message each error renders.

use vstd::prelude::*;
use vstd::string::*;
use crate::text::{decimal_text, push_decimal};

verus! {

/// Everything that can go wrong in a calculation. Each variant carries the
/// offending values, so that a caller can build a precise message.
#[derive(Debug, Clone, PartialEq, Eq)]
#[allow(inconsistent_fields)]
pub enum IpCalcError {
    /// The text is not a dotted-decimal IPv4 address.
    InvalidIpv4Address(String),
    /// The text is not a colon-hexadecimal IPv6 address.
    InvalidIpv6Address(String),
    /// The text has no `/`, or what follows the `/` is not a number.
    InvalidCidr(String),
    /// The prefix length exceeds the width of the address family. A length
    /// above 255 is carried as 255.
    InvalidPrefixLength(u8),
    /// More subnets were asked for than the supernet holds.
    InsufficientSubnets { requested: u64, available: u64, new_prefix: u8, original_prefix: u8 },
    /// The new prefix is not longer than the supernet's.
    InvalidSubnetSplit { new_prefix: u8, original_prefix: u8 },
    /// An input or output operation failed; the text describes how.
    Io(String),
    /// A split would generate more subnets than the ceiling allows.
    SubnetLimitExceeded { count: String, limit: u64 },
    /// JSON rendering failed; the text describes how.
    Json(String),
    /// CSV rendering failed; the text describes how.
    Csv(String),
    /// YAML rendering failed; the text describes how.
    Yaml(String),
    /// A summarization or a batch was given no CIDR at all.
    EmptyCidrList,
    /// The start of a range lies after its end.
    InvalidRange(String, String),
    /// A batch holds more entries than the ceiling allows.
    BatchSizeExceeded { count: usize, limit: usize },
    /// A range needs more blocks than the ceiling allows.
    FromRangeLimitExceeded { count: usize, limit: usize },
    /// A summarization was given more CIDRs than the ceiling allows.
    SummarizeInputLimitExceeded { count: usize, limit: usize },
    /// The input text is longer than the ceiling allows.
    InputTooLong { length: usize, limit: usize },
    /// A configuration could not be read; the text describes how.
    ConfigParse(String),
}

/// An error with its texts as character sequences.
#[allow(inconsistent_fields)]
pub enum ErrorView {
    InvalidIpv4Address(Seq<char>),
    InvalidIpv6Address(Seq<char>),
    InvalidCidr(Seq<char>),
    InvalidPrefixLength(u8),
    InsufficientSubnets { requested: u64, available: u64, new_prefix: u8, original_prefix: u8 },
    InvalidSubnetSplit { new_prefix: u8, original_prefix: u8 },
    Io(Seq<char>),
    SubnetLimitExceeded { count: Seq<char>, limit: u64 },
    Json(Seq<char>),
    Csv(Seq<char>),
    Yaml(Seq<char>),
    EmptyCidrList,
    InvalidRange(Seq<char>, Seq<char>),
    BatchSizeExceeded { count: usize, limit: usize },
    FromRangeLimitExceeded { count: usize, limit: usize },
    SummarizeInputLimitExceeded { count: usize, limit: usize },
    InputTooLong { length: usize, limit: usize },
    ConfigParse(Seq<char>),
}

impl View for IpCalcError {
    type V = ErrorView;

    open spec fn view(&self) -> ErrorView {
        match self {
            IpCalcError::InvalidIpv4Address(s) => ErrorView::InvalidIpv4Address(s@),
            IpCalcError::InvalidIpv6Address(s) => ErrorView::InvalidIpv6Address(s@),
            IpCalcError::InvalidCidr(s) => ErrorView::InvalidCidr(s@),
            IpCalcError::InvalidPrefixLength(p) => ErrorView::InvalidPrefixLength(*p),
            IpCalcError::InsufficientSubnets {
                requested,
                available,
                new_prefix,
                original_prefix,
            } => ErrorView::InsufficientSubnets {
                requested: *requested,
                available: *available,
                new_prefix: *new_prefix,
                original_prefix: *original_prefix,
            },
            IpCalcError::InvalidSubnetSplit {
                new_prefix,
                original_prefix,
            } => ErrorView::InvalidSubnetSplit {
                new_prefix: *new_prefix,
                original_prefix: *original_prefix,
            },
            IpCalcError::Io(s) => ErrorView::Io(s@),
            IpCalcError::SubnetLimitExceeded { count, limit } => ErrorView::SubnetLimitExceeded {
                count: count@,
                limit: *limit,
            },
            IpCalcError::Json(s) => ErrorView::Json(s@),
            IpCalcError::Csv(s) => ErrorView::Csv(s@),
            IpCalcError::Yaml(s) => ErrorView::Yaml(s@),
            IpCalcError::EmptyCidrList => ErrorView::EmptyCidrList,
            IpCalcError::InvalidRange(a, b) => ErrorView::InvalidRange(a@, b@),
            IpCalcError::BatchSizeExceeded { count, limit } => ErrorView::BatchSizeExceeded {
                count: *count,
                limit: *limit,
            },
            IpCalcError::FromRangeLimitExceeded {
                count,
                limit,
            } => ErrorView::FromRangeLimitExceeded { count: *count, limit: *limit },
            IpCalcError::SummarizeInputLimitExceeded {
                count,
                limit,
            } => ErrorView::SummarizeInputLimitExceeded { count: *count, limit: *limit },
            IpCalcError::InputTooLong { length, limit } => ErrorView::InputTooLong {
                length: *length,
                limit: *limit,
            },
            IpCalcError::ConfigParse(s) => ErrorView::ConfigParse(s@),
        }
    }
}

impl ErrorView {
    /// The message that the error renders.
    pub open spec fn message(self) -> Seq<char> {
        match self {
            ErrorView::InvalidIpv4Address(s) => "Invalid IPv4 address: "@ + s,
            ErrorView::InvalidIpv6Address(s) => "Invalid IPv6 address: "@ + s,
            ErrorView::InvalidCidr(s) => "Invalid CIDR notation: "@ + s,
            ErrorView::InvalidPrefixLength(p) => "Invalid prefix length: "@ + decimal_text(
                p as nat,
            ) + " (must be 0-32 for IPv4, 0-128 for IPv6)"@,
            ErrorView::InsufficientSubnets {
                requested,
                available,
                new_prefix,
                original_prefix,
            } => "Cannot generate "@ + decimal_text(requested as nat) + " /"@ + decimal_text(
                new_prefix as nat,
            ) + " subnets from /"@ + decimal_text(original_prefix as nat) + " (only "@
                + decimal_text(available as nat) + " available)"@,
            ErrorView::InvalidSubnetSplit { new_prefix, original_prefix } => "New prefix length "@
                + decimal_text(new_prefix as nat) + " must be greater than original prefix "@
                + decimal_text(original_prefix as nat),
            ErrorView::Io(s) => "IO error: "@ + s,
            ErrorView::SubnetLimitExceeded { count, limit } => "Generating "@ + count
                + " subnets exceeds the limit of "@ + decimal_text(limit as nat)
                + ". Use --count-only to see the count, or -n to generate a smaller number."@,
            ErrorView::Json(s) => "JSON serialization error: "@ + s,
            ErrorView::Csv(s) => "CSV serialization error: "@ + s,
            ErrorView::Yaml(s) => "YAML serialization error: "@ + s,
            ErrorView::EmptyCidrList => "No CIDRs provided for summarization"@,
            ErrorView::InvalidRange(a, b) => "Invalid range: start "@ + a
                + " is greater than end "@ + b,
            ErrorView::BatchSizeExceeded { count, limit } => "Batch size "@ + decimal_text(
                count as nat,
            ) + " exceeds maximum of "@ + decimal_text(limit as nat),
            ErrorView::FromRangeLimitExceeded { count, limit } => "Generated CIDR count "@
                + decimal_text(count as nat) + " exceeds maximum of "@ + decimal_text(
                limit as nat,
            ),
            ErrorView::SummarizeInputLimitExceeded { count, limit } => "Summarize input count "@
                + decimal_text(count as nat) + " exceeds maximum of "@ + decimal_text(
                limit as nat,
            ),
            ErrorView::InputTooLong { length, limit } => "Input string exceeds maximum length of "@
                + decimal_text(limit as nat) + " bytes"@,
            ErrorView::ConfigParse(s) => "Configuration parse error: "@ + s,
        }
    }
}

/// The outcome of an operation of this library.
pub type Result<T> = core::result::Result<T, IpCalcError>;

/// A text followed by another.
fn joined(head: &str, tail: &str) -> (r: String)
    ensures
        r@ == head@ + tail@,
{
    let mut r = String::new();
    r.append(head);
    r.append(tail);
    assert(r@ =~= head@ + tail@);
    r
}

impl IpCalcError {
    /// Renders the error as a message for the user.
    pub fn to_string(&self) -> (r: String)
        ensures
            r@ == self@.message(),
    {
        match self {
            IpCalcError::InvalidIpv4Address(s) => joined("Invalid IPv4 address: ", s.as_str()),
            IpCalcError::InvalidIpv6Address(s) => joined("Invalid IPv6 address: ", s.as_str()),
            IpCalcError::InvalidCidr(s) => joined("Invalid CIDR notation: ", s.as_str()),
            IpCalcError::InvalidPrefixLength(p) => {
                let mut r = String::new();
                r.append("Invalid prefix length: ");
                push_decimal(&mut r, *p as u128);
                r.append(" (must be 0-32 for IPv4, 0-128 for IPv6)");
                assert(r@ =~= self@.message());
                r
            },
            IpCalcError::InsufficientSubnets {
                requested,
                available,
                new_prefix,
                original_prefix,
            } => {
                let mut r = String::new();
                r.append("Cannot generate ");
                push_decimal(&mut r, *requested as u128);
                r.append(" /");
                push_decimal(&mut r, *new_prefix as u128);
                r.append(" subnets from /");
                push_decimal(&mut r, *original_prefix as u128);
                r.append(" (only ");
                push_decimal(&mut r, *available as u128);
                r.append(" available)");
                assert(r@ =~= self@.message());
                r
            },
            IpCalcError::InvalidSubnetSplit { new_prefix, original_prefix } => {
                let mut r = String::new();
                r.append("New prefix length ");
                push_decimal(&mut r, *new_prefix as u128);
                r.append(" must be greater than original prefix ");
                push_decimal(&mut r, *original_prefix as u128);
                assert(r@ =~= self@.message());
                r
            },
            IpCalcError::Io(s) => joined("IO error: ", s.as_str()),
            IpCalcError::SubnetLimitExceeded { count, limit } => {
                let mut r = String::new();
                r.append("Generating ");
                r.append(count.as_str());
                r.append(" subnets exceeds the limit of ");
                push_decimal(&mut r, *limit as u128);
                r.append(
                    ". Use --count-only to see the count, or -n to generate a smaller number.",
                );
                assert(r@ =~= self@.message());
                r
            },
            IpCalcError::Json(s) => joined("JSON serialization error: ", s.as_str()),
            IpCalcError::Csv(s) => joined("CSV serialization error: ", s.as_str()),
            IpCalcError::Yaml(s) => joined("YAML serialization error: ", s.as_str()),
            IpCalcError::EmptyCidrList => "No CIDRs provided for summarization".to_owned(),
            IpCalcError::InvalidRange(a, b) => {
                let mut r = String::new();
                r.append("Invalid range: start ");
                r.append(a.as_str());
                r.append(" is greater than end ");
                r.append(b.as_str());
                assert(r@ =~= self@.message());
                r
            },
            IpCalcError::BatchSizeExceeded { count, limit } => {
                let mut r = String::new();
                r.append("Batch size ");
                push_decimal(&mut r, *count as u128);
                r.append(" exceeds maximum of ");
                push_decimal(&mut r, *limit as u128);
                assert(r@ =~= self@.message());
                r
            },
            IpCalcError::FromRangeLimitExceeded { count, limit } => {
                let mut r = String::new();
                r.append("Generated CIDR count ");
                push_decimal(&mut r, *count as u128);
                r.append(" exceeds maximum of ");
                push_decimal(&mut r, *limit as u128);
                assert(r@ =~= self@.message());
                r
            },
            IpCalcError::SummarizeInputLimitExceeded { count, limit } => {
                let mut r = String::new();
                r.append("Summarize input count ");
                push_decimal(&mut r, *count as u128);
                r.append(" exceeds maximum of ");
                push_decimal(&mut r, *limit as u128);
                assert(r@ =~= self@.message());
                r
            },
            IpCalcError::InputTooLong { length, limit } => {
                let mut r = String::new();
                r.append("Input string exceeds maximum length of ");
                push_decimal(&mut r, *limit as u128);
                r.append(" bytes");
                assert(r@ =~= self@.message());
                r
            },
            IpCalcError::ConfigParse(s) => joined("Configuration parse error: ", s.as_str()),
        }
    }
}

} // verus!
