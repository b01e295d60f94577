//! The comma-separated reports of every result.
//!
//! A report is a few comment lines, each starting with `#`, followed by a
//! table: a header row with the column names, then one row for each record.

use vstd::prelude::*;
use vstd::string::*;
use crate::batch::{
    batch_entry_views, BatchEntry, BatchEntryResult, BatchEntryResultView, BatchEntryView,
    BatchResult, SubnetResult, SubnetResultView,
};
use crate::contains::{ContainsResult, ContainsView};
use crate::error::Result;
use crate::from_range::{Ipv4FromRangeResult, Ipv6FromRangeResult};
use crate::ipv4::{ipv4_subnet_views, ipv4_text, ipv4_to_string, Ipv4Subnet, Ipv4SubnetView};
use crate::ipv6::{ipv6_subnet_views, ipv6_text, ipv6_to_string, Ipv6Subnet, Ipv6SubnetView};
use crate::output::{colon_join, push_colon_join, OutputFormat, OutputWriter, TextOutput};
use crate::subnet_generator::{Ipv4SubnetList, Ipv6SubnetList, SplitSummary, SplitSummaryView};
use crate::summarize::{Ipv4SummaryResult, Ipv6SummaryResult};
use crate::table::{csv_text, render_csv, table_views, uniform};
use crate::text::{decimal_string, decimal_text, push_decimal, string_views};

verus! {

/// A result that has a report in comma-separated values.
pub trait CsvOutput {
    /// The comment lines that go before the table.
    spec fn csv_comments(&self) -> Seq<char>;

    /// The rows of the table, the header first.
    spec fn csv_rows(&self) -> Seq<Seq<Seq<char>>>;

    /// Renders the report: the comment lines followed by what the `csv`
    /// crate makes of the rows. Every row of a report has as many fields as
    /// its header, so the writer refuses none and the call succeeds.
    fn to_csv(&self) -> (r: Result<String>)
        ensures
            r matches Ok(s) && s@ == self.csv_comments() + csv_text(self.csv_rows()),
    ;
}

/// The texts joined by colons, as a string of its own.
pub fn colon_joined(parts: &Vec<String>) -> (r: String)
    ensures
        r@ == colon_join(string_views(parts@)),
{
    let mut r = String::new();
    push_colon_join(&mut r, parts);
    assert(r@ =~= colon_join(string_views(parts@)));
    r
}

/// The column names of a table of IPv4 subnets.
pub open spec fn ipv4_header_fields() -> Seq<Seq<char>> {
    seq![
        "input"@,
        "network_address"@,
        "broadcast_address"@,
        "subnet_mask"@,
        "wildcard_mask"@,
        "prefix_length"@,
        "first_host"@,
        "last_host"@,
        "total_hosts"@,
        "usable_hosts"@,
        "network_class"@,
        "is_private"@,
        "address_type"@,
    ]
}

/// Builds the header row of a table of IPv4 subnets.
pub fn ipv4_csv_header() -> (row: Vec<String>)
    ensures
        string_views(row@) == ipv4_header_fields(),
{
    let mut row: Vec<String> = Vec::new();
    row.push("input".to_owned());
    row.push("network_address".to_owned());
    row.push("broadcast_address".to_owned());
    row.push("subnet_mask".to_owned());
    row.push("wildcard_mask".to_owned());
    row.push("prefix_length".to_owned());
    row.push("first_host".to_owned());
    row.push("last_host".to_owned());
    row.push("total_hosts".to_owned());
    row.push("usable_hosts".to_owned());
    row.push("network_class".to_owned());
    row.push("is_private".to_owned());
    row.push("address_type".to_owned());
    assert(string_views(row@) =~= ipv4_header_fields());
    row
}

/// The fields of one IPv4 subnet, in the order of the header.
pub open spec fn ipv4_record_fields(v: Ipv4SubnetView) -> Seq<Seq<char>> {
    seq![
        v.input,
        ipv4_text(v.network),
        ipv4_text(v.broadcast),
        ipv4_text(v.mask),
        ipv4_text(v.wildcard),
        decimal_text(v.prefix_length as nat),
        ipv4_text(v.first_host),
        ipv4_text(v.last_host),
        decimal_text(v.total_hosts as nat),
        decimal_text(v.usable_hosts as nat),
        v.network_class,
        (if v.is_private { "true"@ } else { "false"@ }),
        v.address_type,
    ]
}

/// Builds the row of one IPv4 subnet.
pub fn ipv4_csv_record(s: &Ipv4Subnet) -> (row: Vec<String>)
    ensures
        string_views(row@) == ipv4_record_fields(s@),
{
    let mut row: Vec<String> = Vec::new();
    row.push(s.input.clone());
    row.push(ipv4_to_string(s.network));
    row.push(ipv4_to_string(s.broadcast));
    row.push(ipv4_to_string(s.mask));
    row.push(ipv4_to_string(s.wildcard));
    row.push(decimal_string(s.prefix_length as u128));
    row.push(ipv4_to_string(s.first_host));
    row.push(ipv4_to_string(s.last_host));
    row.push(decimal_string(s.total_hosts as u128));
    row.push(decimal_string(s.usable_hosts as u128));
    row.push(s.network_class.clone());
    row.push((if s.is_private { "true" } else { "false" }).to_owned());
    row.push(s.address_type.clone());
    assert(string_views(row@) =~= ipv4_record_fields(s@));
    row
}

/// The rows of a table of IPv4 subnets: the header, then one row for each.
pub open spec fn ipv4_table(subnets: Seq<Ipv4SubnetView>) -> Seq<Seq<Seq<char>>> {
    seq![ipv4_header_fields()] + subnets.map_values(|v: Ipv4SubnetView| ipv4_record_fields(v))
}

/// Every row of a table of IPv4 subnets has as many fields as the header.
pub proof fn lemma_ipv4_table_uniform(subnets: Seq<Ipv4SubnetView>)
    ensures
        uniform(ipv4_table(subnets)),
{
    let t = ipv4_table(subnets);
    assert forall|i: int| 0 <= i < t.len() implies (#[trigger] t[i]).len() == t[0].len() by {
        if i > 0 {
            assert(t[i] == ipv4_record_fields(subnets[i - 1]));
        }
    }
}

/// Builds the rows of a table of IPv4 subnets.
pub fn ipv4_csv_table(subnets: &Vec<Ipv4Subnet>) -> (rows: Vec<Vec<String>>)
    ensures
        table_views(rows@) == ipv4_table(ipv4_subnet_views(subnets@)),
{
    let ghost views = ipv4_subnet_views(subnets@);
    let mut rows: Vec<Vec<String>> = Vec::new();
    rows.push(ipv4_csv_header());
    let mut i: usize = 0;
    proof {
        assert(table_views(rows@) =~= ipv4_table(views.take(0)));
    }
    while i < subnets.len()
        invariant
            0 <= i <= subnets.len(),
            views == ipv4_subnet_views(subnets@),
            table_views(rows@) == ipv4_table(views.take(i as int)),
        decreases subnets.len() - i,
    {
        let ghost before = table_views(rows@);
        rows.push(ipv4_csv_record(&subnets[i]));
        proof {
            assert(views.take(i + 1) =~= views.take(i as int).push(subnets@[i as int]@));
            assert(table_views(rows@) =~= before.push(ipv4_record_fields(subnets@[i as int]@)));
            assert(table_views(rows@) =~= ipv4_table(views.take(i + 1)));
        }
        i = i + 1;
    }
    proof {
        assert(views.take(subnets@.len() as int) =~= views);
    }
    rows
}

/// The column names of a table of IPv6 subnets.
pub open spec fn ipv6_header_fields() -> Seq<Seq<char>> {
    seq![
        "input"@,
        "network_address"@,
        "network_address_full"@,
        "last_address"@,
        "last_address_full"@,
        "prefix_length"@,
        "total_addresses"@,
        "hextets"@,
        "address_type"@,
    ]
}

/// Builds the header row of a table of IPv6 subnets.
pub fn ipv6_csv_header() -> (row: Vec<String>)
    ensures
        string_views(row@) == ipv6_header_fields(),
{
    let mut row: Vec<String> = Vec::new();
    row.push("input".to_owned());
    row.push("network_address".to_owned());
    row.push("network_address_full".to_owned());
    row.push("last_address".to_owned());
    row.push("last_address_full".to_owned());
    row.push("prefix_length".to_owned());
    row.push("total_addresses".to_owned());
    row.push("hextets".to_owned());
    row.push("address_type".to_owned());
    assert(string_views(row@) =~= ipv6_header_fields());
    row
}

/// The fields of one IPv6 subnet, in the order of the header.
pub open spec fn ipv6_record_fields(v: Ipv6SubnetView) -> Seq<Seq<char>> {
    seq![
        v.input,
        ipv6_text(v.network),
        v.network_address_full,
        ipv6_text(v.last),
        v.last_address_full,
        decimal_text(v.prefix_length as nat),
        v.total_addresses,
        colon_join(v.hextets),
        v.address_type,
    ]
}

/// Builds the row of one IPv6 subnet.
pub fn ipv6_csv_record(s: &Ipv6Subnet) -> (row: Vec<String>)
    ensures
        string_views(row@) == ipv6_record_fields(s@),
{
    let mut row: Vec<String> = Vec::new();
    row.push(s.input.clone());
    row.push(ipv6_to_string(s.network));
    row.push(s.network_address_full.clone());
    row.push(ipv6_to_string(s.last));
    row.push(s.last_address_full.clone());
    row.push(decimal_string(s.prefix_length as u128));
    row.push(s.total_addresses.clone());
    row.push(colon_joined(&s.hextets));
    row.push(s.address_type.clone());
    assert(string_views(row@) =~= ipv6_record_fields(s@));
    row
}

/// The rows of a table of IPv6 subnets: the header, then one row for each.
pub open spec fn ipv6_table(subnets: Seq<Ipv6SubnetView>) -> Seq<Seq<Seq<char>>> {
    seq![ipv6_header_fields()] + subnets.map_values(|v: Ipv6SubnetView| ipv6_record_fields(v))
}

/// Every row of a table of IPv6 subnets has as many fields as the header.
pub proof fn lemma_ipv6_table_uniform(subnets: Seq<Ipv6SubnetView>)
    ensures
        uniform(ipv6_table(subnets)),
{
    let t = ipv6_table(subnets);
    assert forall|i: int| 0 <= i < t.len() implies (#[trigger] t[i]).len() == t[0].len() by {
        if i > 0 {
            assert(t[i] == ipv6_record_fields(subnets[i - 1]));
        }
    }
}

/// Builds the rows of a table of IPv6 subnets.
pub fn ipv6_csv_table(subnets: &Vec<Ipv6Subnet>) -> (rows: Vec<Vec<String>>)
    ensures
        table_views(rows@) == ipv6_table(ipv6_subnet_views(subnets@)),
{
    let ghost views = ipv6_subnet_views(subnets@);
    let mut rows: Vec<Vec<String>> = Vec::new();
    rows.push(ipv6_csv_header());
    let mut i: usize = 0;
    proof {
        assert(table_views(rows@) =~= ipv6_table(views.take(0)));
    }
    while i < subnets.len()
        invariant
            0 <= i <= subnets.len(),
            views == ipv6_subnet_views(subnets@),
            table_views(rows@) == ipv6_table(views.take(i as int)),
        decreases subnets.len() - i,
    {
        let ghost before = table_views(rows@);
        rows.push(ipv6_csv_record(&subnets[i]));
        proof {
            assert(views.take(i + 1) =~= views.take(i as int).push(subnets@[i as int]@));
            assert(table_views(rows@) =~= before.push(ipv6_record_fields(subnets@[i as int]@)));
            assert(table_views(rows@) =~= ipv6_table(views.take(i + 1)));
        }
        i = i + 1;
    }
    proof {
        assert(views.take(subnets@.len() as int) =~= views);
    }
    rows
}

impl CsvOutput for Ipv4Subnet {
    open spec fn csv_comments(&self) -> Seq<char> {
        Seq::empty()
    }

    open spec fn csv_rows(&self) -> Seq<Seq<Seq<char>>> {
        seq![ipv4_header_fields(), ipv4_record_fields(self@)]
    }

    fn to_csv(&self) -> (r: Result<String>) {
        let mut comments = String::new();
        assert(comments@ =~= self.csv_comments());
        let mut rows: Vec<Vec<String>> = Vec::new();
        rows.push(ipv4_csv_header());
        rows.push(ipv4_csv_record(self));
        assert(table_views(rows@) =~= self.csv_rows());
        assert(uniform(self.csv_rows()));
        render_csv(comments.as_str(), &rows)
    }
}

impl CsvOutput for Ipv6Subnet {
    open spec fn csv_comments(&self) -> Seq<char> {
        Seq::empty()
    }

    open spec fn csv_rows(&self) -> Seq<Seq<Seq<char>>> {
        seq![ipv6_header_fields(), ipv6_record_fields(self@)]
    }

    fn to_csv(&self) -> (r: Result<String>) {
        let mut comments = String::new();
        assert(comments@ =~= self.csv_comments());
        let mut rows: Vec<Vec<String>> = Vec::new();
        rows.push(ipv6_csv_header());
        rows.push(ipv6_csv_record(self));
        assert(table_views(rows@) =~= self.csv_rows());
        assert(uniform(self.csv_rows()));
        render_csv(comments.as_str(), &rows)
    }
}

/// The column names of a containment check.
pub open spec fn contains_header_fields() -> Seq<Seq<char>> {
    seq![
        "cidr"@,
        "address"@,
        "contained"@,
        "network_address"@,
        "broadcast_address"@,
    ]
}

/// Builds the header row of a containment check.
pub fn contains_csv_header() -> (row: Vec<String>)
    ensures
        string_views(row@) == contains_header_fields(),
{
    let mut row: Vec<String> = Vec::new();
    row.push("cidr".to_owned());
    row.push("address".to_owned());
    row.push("contained".to_owned());
    row.push("network_address".to_owned());
    row.push("broadcast_address".to_owned());
    assert(string_views(row@) =~= contains_header_fields());
    row
}

/// The fields of a containment check.
pub open spec fn contains_record_fields(v: ContainsView) -> Seq<Seq<char>> {
    seq![
        v.cidr,
        v.address,
        (if v.contained { "true"@ } else { "false"@ }),
        v.network_address,
        v.broadcast_address,
    ]
}

/// Builds the row of a containment check.
pub fn contains_csv_record(s: &ContainsResult) -> (row: Vec<String>)
    ensures
        string_views(row@) == contains_record_fields(s@),
{
    let mut row: Vec<String> = Vec::new();
    row.push(s.cidr.clone());
    row.push(s.address.clone());
    row.push((if s.contained { "true" } else { "false" }).to_owned());
    row.push(s.network_address.clone());
    row.push(s.broadcast_address.clone());
    assert(string_views(row@) =~= contains_record_fields(s@));
    row
}

impl CsvOutput for ContainsResult {
    open spec fn csv_comments(&self) -> Seq<char> {
        Seq::empty()
    }

    open spec fn csv_rows(&self) -> Seq<Seq<Seq<char>>> {
        seq![contains_header_fields(), contains_record_fields(self@)]
    }

    fn to_csv(&self) -> (r: Result<String>) {
        let mut comments = String::new();
        assert(comments@ =~= self.csv_comments());
        let mut rows: Vec<Vec<String>> = Vec::new();
        rows.push(contains_csv_header());
        rows.push(contains_csv_record(self));
        assert(table_views(rows@) =~= self.csv_rows());
        assert(uniform(self.csv_rows()));
        render_csv(comments.as_str(), &rows)
    }
}

/// The column names of a count of subnets.
pub open spec fn split_summary_header_fields() -> Seq<Seq<char>> {
    seq![
        "supernet"@,
        "new_prefix"@,
        "available_subnets"@,
    ]
}

/// Builds the header row of a count of subnets.
pub fn split_summary_csv_header() -> (row: Vec<String>)
    ensures
        string_views(row@) == split_summary_header_fields(),
{
    let mut row: Vec<String> = Vec::new();
    row.push("supernet".to_owned());
    row.push("new_prefix".to_owned());
    row.push("available_subnets".to_owned());
    assert(string_views(row@) =~= split_summary_header_fields());
    row
}

/// The fields of a count of subnets.
pub open spec fn split_summary_record_fields(v: SplitSummaryView) -> Seq<Seq<char>> {
    seq![
        v.supernet,
        decimal_text(v.new_prefix as nat),
        v.available_subnets,
    ]
}

/// Builds the row of a count of subnets.
pub fn split_summary_csv_record(s: &SplitSummary) -> (row: Vec<String>)
    ensures
        string_views(row@) == split_summary_record_fields(s@),
{
    let mut row: Vec<String> = Vec::new();
    row.push(s.supernet.clone());
    row.push(decimal_string(s.new_prefix as u128));
    row.push(s.available_subnets.clone());
    assert(string_views(row@) =~= split_summary_record_fields(s@));
    row
}

impl CsvOutput for SplitSummary {
    open spec fn csv_comments(&self) -> Seq<char> {
        Seq::empty()
    }

    open spec fn csv_rows(&self) -> Seq<Seq<Seq<char>>> {
        seq![split_summary_header_fields(), split_summary_record_fields(self@)]
    }

    fn to_csv(&self) -> (r: Result<String>) {
        let mut comments = String::new();
        assert(comments@ =~= self.csv_comments());
        let mut rows: Vec<Vec<String>> = Vec::new();
        rows.push(split_summary_csv_header());
        rows.push(split_summary_csv_record(self));
        assert(table_views(rows@) =~= self.csv_rows());
        assert(uniform(self.csv_rows()));
        render_csv(comments.as_str(), &rows)
    }
}

impl CsvOutput for Ipv4SubnetList {
    open spec fn csv_comments(&self) -> Seq<char> {
        "# supernet: "@ + self@.supernet.input + "\n# new_prefix: "@
            + decimal_text(self@.new_prefix as nat) + "\n# count: "@
            + decimal_text(self@.requested_count as nat) + "\n"@
    }

    open spec fn csv_rows(&self) -> Seq<Seq<Seq<char>>> {
        ipv4_table(self@.subnets)
    }

    fn to_csv(&self) -> (r: Result<String>) {
        let mut comments = String::new();
        comments.append("# supernet: ");
        comments.append(self.supernet.input.as_str());
        comments.append("\n# new_prefix: ");
        push_decimal(&mut comments, self.new_prefix as u128);
        comments.append("\n# count: ");
        push_decimal(&mut comments, self.requested_count as u128);
        comments.append("\n");
        assert(comments@ =~= self.csv_comments());
        let rows = ipv4_csv_table(&self.subnets);
        proof {
            lemma_ipv4_table_uniform(self@.subnets);
        }
        render_csv(comments.as_str(), &rows)
    }
}

impl CsvOutput for Ipv4SummaryResult {
    open spec fn csv_comments(&self) -> Seq<char> {
        "# input_count: "@ + decimal_text(self@.input_count as nat) + "\n# output_count: "@
            + decimal_text(self@.output_count as nat) + "\n"@
    }

    open spec fn csv_rows(&self) -> Seq<Seq<Seq<char>>> {
        ipv4_table(self@.cidrs)
    }

    fn to_csv(&self) -> (r: Result<String>) {
        let mut comments = String::new();
        comments.append("# input_count: ");
        push_decimal(&mut comments, self.input_count as u128);
        comments.append("\n# output_count: ");
        push_decimal(&mut comments, self.output_count as u128);
        comments.append("\n");
        assert(comments@ =~= self.csv_comments());
        let rows = ipv4_csv_table(&self.cidrs);
        proof {
            lemma_ipv4_table_uniform(self@.cidrs);
        }
        render_csv(comments.as_str(), &rows)
    }
}

impl CsvOutput for Ipv4FromRangeResult {
    open spec fn csv_comments(&self) -> Seq<char> {
        "# start_address: "@ + self@.start_address + "\n# end_address: "@ + self@.end_address
            + "\n# cidr_count: "@ + decimal_text(self@.cidr_count as nat) + "\n"@
    }

    open spec fn csv_rows(&self) -> Seq<Seq<Seq<char>>> {
        ipv4_table(self@.cidrs)
    }

    fn to_csv(&self) -> (r: Result<String>) {
        let mut comments = String::new();
        comments.append("# start_address: ");
        comments.append(self.start_address.as_str());
        comments.append("\n# end_address: ");
        comments.append(self.end_address.as_str());
        comments.append("\n# cidr_count: ");
        push_decimal(&mut comments, self.cidr_count as u128);
        comments.append("\n");
        assert(comments@ =~= self.csv_comments());
        let rows = ipv4_csv_table(&self.cidrs);
        proof {
            lemma_ipv4_table_uniform(self@.cidrs);
        }
        render_csv(comments.as_str(), &rows)
    }
}

impl CsvOutput for Ipv6SubnetList {
    open spec fn csv_comments(&self) -> Seq<char> {
        "# supernet: "@ + self@.supernet.input + "\n# new_prefix: "@
            + decimal_text(self@.new_prefix as nat) + "\n# count: "@
            + decimal_text(self@.requested_count as nat) + "\n"@
    }

    open spec fn csv_rows(&self) -> Seq<Seq<Seq<char>>> {
        ipv6_table(self@.subnets)
    }

    fn to_csv(&self) -> (r: Result<String>) {
        let mut comments = String::new();
        comments.append("# supernet: ");
        comments.append(self.supernet.input.as_str());
        comments.append("\n# new_prefix: ");
        push_decimal(&mut comments, self.new_prefix as u128);
        comments.append("\n# count: ");
        push_decimal(&mut comments, self.requested_count as u128);
        comments.append("\n");
        assert(comments@ =~= self.csv_comments());
        let rows = ipv6_csv_table(&self.subnets);
        proof {
            lemma_ipv6_table_uniform(self@.subnets);
        }
        render_csv(comments.as_str(), &rows)
    }
}

impl CsvOutput for Ipv6SummaryResult {
    open spec fn csv_comments(&self) -> Seq<char> {
        "# input_count: "@ + decimal_text(self@.input_count as nat) + "\n# output_count: "@
            + decimal_text(self@.output_count as nat) + "\n"@
    }

    open spec fn csv_rows(&self) -> Seq<Seq<Seq<char>>> {
        ipv6_table(self@.cidrs)
    }

    fn to_csv(&self) -> (r: Result<String>) {
        let mut comments = String::new();
        comments.append("# input_count: ");
        push_decimal(&mut comments, self.input_count as u128);
        comments.append("\n# output_count: ");
        push_decimal(&mut comments, self.output_count as u128);
        comments.append("\n");
        assert(comments@ =~= self.csv_comments());
        let rows = ipv6_csv_table(&self.cidrs);
        proof {
            lemma_ipv6_table_uniform(self@.cidrs);
        }
        render_csv(comments.as_str(), &rows)
    }
}

impl CsvOutput for Ipv6FromRangeResult {
    open spec fn csv_comments(&self) -> Seq<char> {
        "# start_address: "@ + self@.start_address + "\n# end_address: "@ + self@.end_address
            + "\n# cidr_count: "@ + decimal_text(self@.cidr_count as nat) + "\n"@
    }

    open spec fn csv_rows(&self) -> Seq<Seq<Seq<char>>> {
        ipv6_table(self@.cidrs)
    }

    fn to_csv(&self) -> (r: Result<String>) {
        let mut comments = String::new();
        comments.append("# start_address: ");
        comments.append(self.start_address.as_str());
        comments.append("\n# end_address: ");
        comments.append(self.end_address.as_str());
        comments.append("\n# cidr_count: ");
        push_decimal(&mut comments, self.cidr_count as u128);
        comments.append("\n");
        assert(comments@ =~= self.csv_comments());
        let rows = ipv6_csv_table(&self.cidrs);
        proof {
            lemma_ipv6_table_uniform(self@.cidrs);
        }
        render_csv(comments.as_str(), &rows)
    }
}

/// The column names of a batch: those of both families, and one for the error.
pub open spec fn batch_header_fields() -> Seq<Seq<char>> {
    seq![
        "cidr"@,
        "network_address"@,
        "broadcast_address"@,
        "subnet_mask"@,
        "wildcard_mask"@,
        "prefix_length"@,
        "first_host"@,
        "last_host"@,
        "total_hosts"@,
        "usable_hosts"@,
        "network_class"@,
        "is_private"@,
        "network_address_full"@,
        "last_address"@,
        "last_address_full"@,
        "total_addresses"@,
        "hextets"@,
        "address_type"@,
        "error"@,
    ]
}

/// Builds the header row of a batch.
pub fn batch_csv_header() -> (row: Vec<String>)
    ensures
        string_views(row@) == batch_header_fields(),
{
    let mut row: Vec<String> = Vec::new();
    row.push("cidr".to_owned());
    row.push("network_address".to_owned());
    row.push("broadcast_address".to_owned());
    row.push("subnet_mask".to_owned());
    row.push("wildcard_mask".to_owned());
    row.push("prefix_length".to_owned());
    row.push("first_host".to_owned());
    row.push("last_host".to_owned());
    row.push("total_hosts".to_owned());
    row.push("usable_hosts".to_owned());
    row.push("network_class".to_owned());
    row.push("is_private".to_owned());
    row.push("network_address_full".to_owned());
    row.push("last_address".to_owned());
    row.push("last_address_full".to_owned());
    row.push("total_addresses".to_owned());
    row.push("hextets".to_owned());
    row.push("address_type".to_owned());
    row.push("error".to_owned());
    assert(string_views(row@) =~= batch_header_fields());
    row
}

/// The fields of an IPv4 subnet in a batch; the columns of the other family stay empty.
pub open spec fn batch_ipv4_fields(cidr: Seq<char>, v: Ipv4SubnetView) -> Seq<Seq<char>> {
    seq![
        cidr,
        ipv4_text(v.network),
        ipv4_text(v.broadcast),
        ipv4_text(v.mask),
        ipv4_text(v.wildcard),
        decimal_text(v.prefix_length as nat),
        ipv4_text(v.first_host),
        ipv4_text(v.last_host),
        decimal_text(v.total_hosts as nat),
        decimal_text(v.usable_hosts as nat),
        v.network_class,
        (if v.is_private { "true"@ } else { "false"@ }),
        ""@,
        ""@,
        ""@,
        ""@,
        ""@,
        v.address_type,
        ""@,
    ]
}

/// Builds the row of an IPv4 subnet in a batch.
pub fn batch_ipv4_record(cidr: &String, s: &Ipv4Subnet) -> (row: Vec<String>)
    ensures
        string_views(row@) == batch_ipv4_fields(cidr@, s@),
{
    let mut row: Vec<String> = Vec::new();
    row.push(cidr.clone());
    row.push(ipv4_to_string(s.network));
    row.push(ipv4_to_string(s.broadcast));
    row.push(ipv4_to_string(s.mask));
    row.push(ipv4_to_string(s.wildcard));
    row.push(decimal_string(s.prefix_length as u128));
    row.push(ipv4_to_string(s.first_host));
    row.push(ipv4_to_string(s.last_host));
    row.push(decimal_string(s.total_hosts as u128));
    row.push(decimal_string(s.usable_hosts as u128));
    row.push(s.network_class.clone());
    row.push((if s.is_private { "true" } else { "false" }).to_owned());
    row.push("".to_owned());
    row.push("".to_owned());
    row.push("".to_owned());
    row.push("".to_owned());
    row.push("".to_owned());
    row.push(s.address_type.clone());
    row.push("".to_owned());
    assert(string_views(row@) =~= batch_ipv4_fields(cidr@, s@));
    row
}

/// The fields of an IPv6 subnet in a batch; the columns of the other family stay empty.
pub open spec fn batch_ipv6_fields(cidr: Seq<char>, v: Ipv6SubnetView) -> Seq<Seq<char>> {
    seq![
        cidr,
        ipv6_text(v.network),
        ""@,
        ""@,
        ""@,
        decimal_text(v.prefix_length as nat),
        ""@,
        ""@,
        ""@,
        ""@,
        ""@,
        ""@,
        v.network_address_full,
        ipv6_text(v.last),
        v.last_address_full,
        v.total_addresses,
        colon_join(v.hextets),
        v.address_type,
        ""@,
    ]
}

/// Builds the row of an IPv6 subnet in a batch.
pub fn batch_ipv6_record(cidr: &String, s: &Ipv6Subnet) -> (row: Vec<String>)
    ensures
        string_views(row@) == batch_ipv6_fields(cidr@, s@),
{
    let mut row: Vec<String> = Vec::new();
    row.push(cidr.clone());
    row.push(ipv6_to_string(s.network));
    row.push("".to_owned());
    row.push("".to_owned());
    row.push("".to_owned());
    row.push(decimal_string(s.prefix_length as u128));
    row.push("".to_owned());
    row.push("".to_owned());
    row.push("".to_owned());
    row.push("".to_owned());
    row.push("".to_owned());
    row.push("".to_owned());
    row.push(s.network_address_full.clone());
    row.push(ipv6_to_string(s.last));
    row.push(s.last_address_full.clone());
    row.push(s.total_addresses.clone());
    row.push(colon_joined(&s.hextets));
    row.push(s.address_type.clone());
    row.push("".to_owned());
    assert(string_views(row@) =~= batch_ipv6_fields(cidr@, s@));
    row
}

/// The fields of an entry that failed: its text and the message, nothing between.
pub open spec fn batch_error_fields(cidr: Seq<char>, error: Seq<char>) -> Seq<Seq<char>> {
    seq![
        cidr,
        ""@,
        ""@,
        ""@,
        ""@,
        ""@,
        ""@,
        ""@,
        ""@,
        ""@,
        ""@,
        ""@,
        ""@,
        ""@,
        ""@,
        ""@,
        ""@,
        ""@,
        error,
    ]
}

/// Builds the row of an entry that failed.
pub fn batch_error_record(cidr: &String, error: &String) -> (row: Vec<String>)
    ensures
        string_views(row@) == batch_error_fields(cidr@, error@),
{
    let mut row: Vec<String> = Vec::new();
    row.push(cidr.clone());
    row.push("".to_owned());
    row.push("".to_owned());
    row.push("".to_owned());
    row.push("".to_owned());
    row.push("".to_owned());
    row.push("".to_owned());
    row.push("".to_owned());
    row.push("".to_owned());
    row.push("".to_owned());
    row.push("".to_owned());
    row.push("".to_owned());
    row.push("".to_owned());
    row.push("".to_owned());
    row.push("".to_owned());
    row.push("".to_owned());
    row.push("".to_owned());
    row.push("".to_owned());
    row.push(error.clone());
    assert(string_views(row@) =~= batch_error_fields(cidr@, error@));
    row
}

/// The fields of one entry of a batch.
pub open spec fn batch_entry_fields(e: BatchEntryView) -> Seq<Seq<char>> {
    match e.result {
        BatchEntryResultView::Success { subnet: SubnetResultView::V4(s) } => batch_ipv4_fields(
            e.cidr,
            s,
        ),
        BatchEntryResultView::Success { subnet: SubnetResultView::V6(s) } => batch_ipv6_fields(
            e.cidr,
            s,
        ),
        BatchEntryResultView::Failure { error } => batch_error_fields(e.cidr, error),
    }
}

/// The rows of the table of a batch: the header, then one row for each
/// entry.
pub open spec fn batch_table(entries: Seq<BatchEntryView>) -> Seq<Seq<Seq<char>>> {
    seq![batch_header_fields()] + entries.map_values(|e: BatchEntryView| batch_entry_fields(e))
}

/// Every row of the table of a batch has as many fields as the header.
pub proof fn lemma_batch_table_uniform(entries: Seq<BatchEntryView>)
    ensures
        uniform(batch_table(entries)),
{
    let t = batch_table(entries);
    assert forall|i: int| 0 <= i < t.len() implies (#[trigger] t[i]).len() == t[0].len() by {
        if i > 0 {
            assert(t[i] == batch_entry_fields(entries[i - 1]));
        }
    }
}

/// Builds the row of one entry of a batch.
pub fn batch_csv_record(entry: &BatchEntry) -> (row: Vec<String>)
    ensures
        string_views(row@) == batch_entry_fields(entry@),
{
    match &entry.result {
        BatchEntryResult::Success { subnet } => match &**subnet {
            SubnetResult::V4(s) => batch_ipv4_record(&entry.cidr, s),
            SubnetResult::V6(s) => batch_ipv6_record(&entry.cidr, s),
        },
        BatchEntryResult::Failure { error } => batch_error_record(&entry.cidr, error),
    }
}

/// Builds the rows of the table of a batch.
pub fn batch_csv_table(entries: &Vec<BatchEntry>) -> (rows: Vec<Vec<String>>)
    ensures
        table_views(rows@) == batch_table(batch_entry_views(entries@)),
{
    let ghost views = batch_entry_views(entries@);
    let mut rows: Vec<Vec<String>> = Vec::new();
    rows.push(batch_csv_header());
    let mut i: usize = 0;
    proof {
        assert(table_views(rows@) =~= batch_table(views.take(0)));
    }
    while i < entries.len()
        invariant
            0 <= i <= entries.len(),
            views == batch_entry_views(entries@),
            table_views(rows@) == batch_table(views.take(i as int)),
        decreases entries.len() - i,
    {
        let ghost before = table_views(rows@);
        rows.push(batch_csv_record(&entries[i]));
        proof {
            assert(views.take(i + 1) =~= views.take(i as int).push(entries@[i as int]@));
            assert(table_views(rows@) =~= before.push(batch_entry_fields(entries@[i as int]@)));
            assert(table_views(rows@) =~= batch_table(views.take(i + 1)));
        }
        i = i + 1;
    }
    proof {
        assert(views.take(entries@.len() as int) =~= views);
    }
    rows
}

impl CsvOutput for BatchResult {
    open spec fn csv_comments(&self) -> Seq<char> {
        "# count: "@ + decimal_text(self@.count as nat) + "\n"@
    }

    open spec fn csv_rows(&self) -> Seq<Seq<Seq<char>>> {
        batch_table(self@.results)
    }

    fn to_csv(&self) -> (r: Result<String>) {
        let mut comments = String::new();
        comments.append("# count: ");
        push_decimal(&mut comments, self.count as u128);
        comments.append("\n");
        assert(comments@ =~= self.csv_comments());
        let rows = batch_csv_table(&self.results);
        proof {
            lemma_batch_table_uniform(self@.results);
        }
        render_csv(comments.as_str(), &rows)
    }
}

impl OutputWriter {
    /// Renders a result in the writer's format, where the format is one
    /// that the library renders itself: plain text or comma-separated
    /// values. For the formats that need a serializer, JSON and YAML, the
    /// answer is `None`.
    pub fn render<T: TextOutput + CsvOutput>(&self, data: &T) -> (r: Option<Result<String>>)
        ensures
            match self.spec_format() {
                OutputFormat::Text => r matches Some(Ok(s)) && s@ == data.text(),
                OutputFormat::Csv => r matches Some(Ok(s)) && s@ == data.csv_comments() + csv_text(
                    data.csv_rows(),
                ),
                OutputFormat::Json => r is None,
                OutputFormat::Yaml => r is None,
            },
    {
        match self.format() {
            OutputFormat::Text => Some(Ok(data.to_text())),
            OutputFormat::Csv => Some(data.to_csv()),
            OutputFormat::Json => None,
            OutputFormat::Yaml => None,
        }
    }
}

} // verus!
