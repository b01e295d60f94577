//! Batch processing: many CIDRs of either family in one call, each with its
//! own outcome.

use vstd::prelude::*;
use vstd::string::*;
use crate::error::{ErrorView, IpCalcError, Result};
use crate::ipv4::{ipv4_cidr_subnet, Ipv4Subnet, Ipv4SubnetView};
use crate::ipv6::{has_colon, ipv6_cidr_subnet, looks_like_ipv6, Ipv6Subnet, Ipv6SubnetView};
use crate::text::{string_views, trim_string, trimmed};

verus! {

/// Ceiling on the number of entries of a batch, unless the caller sets
/// another.
pub const DEFAULT_MAX_BATCH_SIZE: usize = 10_000;

/// A subnet of either family.
#[derive(Debug, Clone, PartialEq, Eq)]
pub enum SubnetResult {
    V4(Ipv4Subnet),
    V6(Ipv6Subnet),
}

/// The outcome of one entry of a batch: a subnet, or the message of the
/// error that the entry earned.
#[derive(Debug, Clone, PartialEq, Eq)]
pub enum BatchEntryResult {
    /// The entry is a CIDR; this is its subnet.
    Success { subnet: Box<SubnetResult> },
    /// The entry is no CIDR; this is the message of its error.
    Failure { error: String },
}

/// One entry of a batch: the CIDR as it was given, trimmed, and its outcome.
#[derive(Debug, Clone, PartialEq, Eq)]
pub struct BatchEntry {
    pub cidr: String,
    pub result: BatchEntryResult,
}

/// The outcomes of a batch, in the order of its entries.
#[derive(Debug, Clone, PartialEq, Eq)]
pub struct BatchResult {
    pub count: usize,
    pub results: Vec<BatchEntry>,
}

/// A subnet of either family as a view.
pub enum SubnetResultView {
    V4(Ipv4SubnetView),
    V6(Ipv6SubnetView),
}

/// The outcome of one entry as a view.
pub enum BatchEntryResultView {
    Success { subnet: SubnetResultView },
    Failure { error: Seq<char> },
}

/// One entry of a batch as a view.
pub struct BatchEntryView {
    pub cidr: Seq<char>,
    pub result: BatchEntryResultView,
}

/// The outcomes of a batch as a view.
pub struct BatchResultView {
    pub count: usize,
    pub results: Seq<BatchEntryView>,
}

impl View for SubnetResult {
    type V = SubnetResultView;

    open spec fn view(&self) -> SubnetResultView {
        match self {
            SubnetResult::V4(s) => SubnetResultView::V4(s@),
            SubnetResult::V6(s) => SubnetResultView::V6(s@),
        }
    }
}

impl View for BatchEntryResult {
    type V = BatchEntryResultView;

    open spec fn view(&self) -> BatchEntryResultView {
        match self {
            BatchEntryResult::Success { subnet } => BatchEntryResultView::Success { subnet: (**subnet)@ },
            BatchEntryResult::Failure { error } => BatchEntryResultView::Failure { error: error@ },
        }
    }
}

impl View for BatchEntry {
    type V = BatchEntryView;

    open spec fn view(&self) -> BatchEntryView {
        BatchEntryView { cidr: self.cidr@, result: self.result@ }
    }
}

/// The views of a list of entries.
pub open spec fn batch_entry_views(v: Seq<BatchEntry>) -> Seq<BatchEntryView> {
    v.map_values(|e: BatchEntry| e@)
}

impl View for BatchResult {
    type V = BatchResultView;

    open spec fn view(&self) -> BatchResultView {
        BatchResultView { count: self.count, results: batch_entry_views(self.results@) }
    }
}

/// The outcome of one entry. The text is trimmed; it is read as IPv6 where
/// it has a colon, as IPv4 otherwise. An error becomes its message.
pub open spec fn batch_entry_value(raw: Seq<char>) -> BatchEntryView {
    let cidr = trimmed(raw);
    BatchEntryView {
        cidr: cidr,
        result: if looks_like_ipv6(cidr) {
            match ipv6_cidr_subnet(cidr) {
                Ok(v) => BatchEntryResultView::Success { subnet: SubnetResultView::V6(v) },
                Err(e) => BatchEntryResultView::Failure { error: e.message() },
            }
        } else {
            match ipv4_cidr_subnet(cidr) {
                Ok(v) => BatchEntryResultView::Success { subnet: SubnetResultView::V4(v) },
                Err(e) => BatchEntryResultView::Failure { error: e.message() },
            }
        },
    }
}

/// What a batch yields. An empty batch and one longer than the ceiling fail
/// as a whole; otherwise every entry has its own outcome, in order.
pub open spec fn batch_value(cidrs: Seq<Seq<char>>, max_batch_size: usize) -> core::result::Result<
    BatchResultView,
    ErrorView,
> {
    if cidrs.len() == 0 {
        Err(ErrorView::EmptyCidrList)
    } else if cidrs.len() > max_batch_size {
        Err(ErrorView::BatchSizeExceeded { count: cidrs.len() as usize, limit: max_batch_size })
    } else {
        Ok(
            BatchResultView {
                count: cidrs.len() as usize,
                results: cidrs.map_values(|raw: Seq<char>| batch_entry_value(raw)),
            },
        )
    }
}

/// A batch result or its error, as views.
pub open spec fn batch_outcome(r: Result<BatchResult>) -> core::result::Result<
    BatchResultView,
    ErrorView,
> {
    match r {
        Ok(v) => Ok(v@),
        Err(e) => Err(e@),
    }
}

/// Processes one entry of a batch.
pub fn process_entry(raw: &str) -> (entry: BatchEntry)
    ensures
        entry@ == batch_entry_value(raw@),
{
    let cidr = trim_string(raw);
    let result = if has_colon(cidr.as_str()) {
        match Ipv6Subnet::from_cidr(cidr.as_str()) {
            Ok(subnet) => BatchEntryResult::Success { subnet: Box::new(SubnetResult::V6(subnet)) },
            Err(e) => BatchEntryResult::Failure { error: e.to_string() },
        }
    } else {
        match Ipv4Subnet::from_cidr(cidr.as_str()) {
            Ok(subnet) => BatchEntryResult::Success { subnet: Box::new(SubnetResult::V4(subnet)) },
            Err(e) => BatchEntryResult::Failure { error: e.to_string() },
        }
    };
    BatchEntry { cidr, result }
}

/// Processes a batch of CIDRs of either family, at most ten thousand.
pub fn process_batch(cidrs: &[String]) -> (r: Result<BatchResult>)
    ensures
        batch_outcome(r) == batch_value(string_views(cidrs@), DEFAULT_MAX_BATCH_SIZE),
{
    process_batch_with_limit(cidrs, DEFAULT_MAX_BATCH_SIZE)
}

/// Processes a batch of CIDRs of either family, at most `max_batch_size`.
/// An entry that is no CIDR does not stop the batch: its error is recorded
/// in its place.
pub fn process_batch_with_limit(cidrs: &[String], max_batch_size: usize) -> (r: Result<
    BatchResult,
>)
    ensures
        batch_outcome(r) == batch_value(string_views(cidrs@), max_batch_size),
{
    if cidrs.len() == 0 {
        return Err(IpCalcError::EmptyCidrList);
    }
    if cidrs.len() > max_batch_size {
        return Err(IpCalcError::BatchSizeExceeded { count: cidrs.len(), limit: max_batch_size });
    }
    let ghost texts = string_views(cidrs@);
    let mut results: Vec<BatchEntry> = Vec::new();
    let mut i: usize = 0;
    while i < cidrs.len()
        invariant
            0 <= i <= cidrs.len(),
            texts == string_views(cidrs@),
            results@.len() == i,
            forall|j: int| 0 <= j < i ==> (#[trigger] results@[j])@ == batch_entry_value(texts[j]),
        decreases cidrs.len() - i,
    {
        let entry = process_entry(cidrs[i].as_str());
        results.push(entry);
        i = i + 1;
    }
    let batch = BatchResult { count: results.len(), results };
    proof {
        assert(batch@.results =~= texts.map_values(|raw: Seq<char>| batch_entry_value(raw)));
    }
    Ok(batch)
}

} // verus!
