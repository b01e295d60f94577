//! Output formats and the plain-text reports of every result.

use vstd::prelude::*;
use vstd::string::*;
pub use crate::csv_output::CsvOutput;
use crate::batch::{
    batch_entry_views, BatchEntry, BatchEntryResult, BatchEntryResultView, BatchEntryView,
    BatchResult, BatchResultView, SubnetResult, SubnetResultView,
};
use crate::contains::{ContainsResult, ContainsView};
use crate::from_range::{
    Ipv4FromRangeResult, Ipv4FromRangeView, Ipv6FromRangeResult, Ipv6FromRangeView,
};
use crate::ipv4::{ipv4_subnet_views, ipv4_text, push_ipv4, Ipv4Subnet, Ipv4SubnetView};
use crate::ipv6::{ipv6_subnet_views, ipv6_text, push_ipv6, Ipv6Subnet, Ipv6SubnetView};
use crate::subnet_generator::{
    Ipv4SubnetList, Ipv4SubnetListView, Ipv6SubnetList, Ipv6SubnetListView, SplitSummary,
    SplitSummaryView,
};
use crate::summarize::{Ipv4SummaryResult, Ipv4SummaryView, Ipv6SummaryResult, Ipv6SummaryView};
use crate::text::{
    decimal_text, lowercase_text, push_decimal, string_views, text_equals, to_lowercase,
};

verus! {

/// The formats in which a result can be written.
#[derive(Debug, Clone, Copy, PartialEq, Eq, Structural)]
pub enum OutputFormat {
    Json,
    Text,
    Csv,
    Yaml,
}

impl Default for OutputFormat {
    fn default() -> (r: OutputFormat)
        ensures
            r == OutputFormat::Json,
    {
        OutputFormat::Json
    }
}

/// The media type of a format, as HTTP names it.
pub open spec fn content_type_text(format: OutputFormat) -> Seq<char> {
    match format {
        OutputFormat::Json => "application/json"@,
        OutputFormat::Text => "text/plain"@,
        OutputFormat::Csv => "text/csv"@,
        OutputFormat::Yaml => "application/yaml"@,
    }
}

impl OutputFormat {
    /// The media type of the format, as HTTP names it.
    pub fn content_type(&self) -> (text: &'static str)
        ensures
            text@ == content_type_text(*self),
    {
        match self {
            OutputFormat::Json => "application/json",
            OutputFormat::Text => "text/plain",
            OutputFormat::Csv => "text/csv",
            OutputFormat::Yaml => "application/yaml",
        }
    }
}

/// The format that a lower-case name denotes, or the message that refuses
/// the name as it was given.
pub open spec fn output_format_value(lower: Seq<char>, given: Seq<char>) -> core::result::Result<
    OutputFormat,
    Seq<char>,
> {
    if lower == "json"@ {
        Ok(OutputFormat::Json)
    } else if lower == "text"@ || lower == "plain"@ || lower == "txt"@ {
        Ok(OutputFormat::Text)
    } else if lower == "csv"@ {
        Ok(OutputFormat::Csv)
    } else if lower == "yaml"@ || lower == "yml"@ {
        Ok(OutputFormat::Yaml)
    } else {
        Err("Unknown output format: "@ + given)
    }
}

/// A format or a message, the message as a character sequence.
pub open spec fn output_format_outcome(r: core::result::Result<OutputFormat, String>)
    -> core::result::Result<OutputFormat, Seq<char>> {
    match r {
        Ok(f) => Ok(f),
        Err(m) => Err(m@),
    }
}

/// Tells the format that a name in lower case denotes. `given` is the name
/// before it was lowered, for the message.
pub fn output_format_from_lowercase(lower: &str, given: &str) -> (r: core::result::Result<
    OutputFormat,
    String,
>)
    ensures
        output_format_outcome(r) == output_format_value(lower@, given@),
{
    if text_equals(lower, "json") {
        Ok(OutputFormat::Json)
    } else if text_equals(lower, "text") || text_equals(lower, "plain") || text_equals(
        lower,
        "txt",
    ) {
        Ok(OutputFormat::Text)
    } else if text_equals(lower, "csv") {
        Ok(OutputFormat::Csv)
    } else if text_equals(lower, "yaml") || text_equals(lower, "yml") {
        Ok(OutputFormat::Yaml)
    } else {
        let mut m = String::new();
        m.append("Unknown output format: ");
        m.append(given);
        assert(m@ =~= "Unknown output format: "@ + given@);
        Err(m)
    }
}

/// Reads an output format by its name, in any case: `json`; `text`, `plain`
/// or `txt`; `csv`; `yaml` or `yml`.
pub fn parse_output_format(s: &str) -> (r: core::result::Result<OutputFormat, String>)
    ensures
        output_format_outcome(r) == output_format_value(lowercase_text(s@), s@),
{
    let lower = to_lowercase(s);
    output_format_from_lowercase(lower.as_str(), s)
}

impl core::str::FromStr for OutputFormat {
    type Err = String;

    /// Reads an output format by its name, in any case, as
    /// `parse_output_format` does.
    fn from_str(s: &str) -> (r: core::result::Result<OutputFormat, String>)
        ensures
            output_format_outcome(r) == output_format_value(lowercase_text(s@), s@),
    {
        parse_output_format(s)
    }
}

/// Where a result goes: in which format, and to which file if any.
#[derive(Debug, Clone, PartialEq, Eq)]
pub struct OutputWriter {
    format: OutputFormat,
    file_path: Option<String>,
}

impl OutputWriter {
    /// The format of the writer.
    pub closed spec fn spec_format(&self) -> OutputFormat {
        self.format
    }

    /// The file of the writer.
    pub closed spec fn spec_file_path(&self) -> Option<String> {
        self.file_path
    }

    /// A writer for the given format, to the given file or to none.
    pub fn new(format: OutputFormat, file_path: Option<String>) -> (w: OutputWriter)
        ensures
            w.spec_format() == format,
            w.spec_file_path() == file_path,
    {
        OutputWriter { format, file_path }
    }

    /// The format in which the writer renders.
    pub fn format(&self) -> (f: OutputFormat)
        ensures
            f == self.spec_format(),
    {
        self.format
    }

    /// The file that takes what the writer renders, if any.
    pub fn file_path(&self) -> (p: &Option<String>)
        ensures
            *p == self.spec_file_path(),
    {
        &self.file_path
    }
}

/// A result that has a plain-text report.
pub trait TextOutput {
    /// The report as a character sequence.
    spec fn text(&self) -> Seq<char>;

    /// Renders the report.
    fn to_text(&self) -> (r: String)
        ensures
            r@ == self.text(),
    ;
}

/// The texts with a colon between neighbours.
pub open spec fn colon_join(parts: Seq<Seq<char>>) -> Seq<char>
    decreases parts.len(),
{
    if parts.len() == 0 {
        Seq::empty()
    } else if parts.len() == 1 {
        parts[0]
    } else {
        colon_join(parts.drop_last()) + ":"@ + parts.last()
    }
}

/// Appends the texts with a colon between neighbours.
pub fn push_colon_join(out: &mut String, parts: &Vec<String>)
    ensures
        final(out)@ == old(out)@ + colon_join(string_views(parts@)),
{
    let ghost views = string_views(parts@);
    let mut i: usize = 0;
    proof {
        assert(views.take(0) =~= Seq::<Seq<char>>::empty());
        assert(out@ =~= old(out)@ + colon_join(views.take(0)));
    }
    while i < parts.len()
        invariant
            0 <= i <= parts.len(),
            views == string_views(parts@),
            out@ == old(out)@ + colon_join(views.take(i as int)),
        decreases parts.len() - i,
    {
        let ghost before = out@;
        proof {
            assert(views.take(i + 1).drop_last() =~= views.take(i as int));
            assert(views.take(i + 1).last() == parts@[i as int]@);
        }
        if i > 0 {
            out.append(":");
        }
        out.append(parts[i].as_str());
        i = i + 1;
        proof {
            assert(out@ =~= old(out)@ + colon_join(views.take(i as int)));
        }
    }
    proof {
        assert(views.take(parts@.len() as int) =~= views);
    }
}

/// The report of an IPv4 subnet.
pub open spec fn ipv4_subnet_text(v: Ipv4SubnetView) -> Seq<char> {
    "IPv4 Subnet Calculator\n======================\nInput:             "@
        + v.input
        + "\nNetwork Address:   "@
        + ipv4_text(v.network)
        + "\nBroadcast Address: "@
        + ipv4_text(v.broadcast)
        + "\nSubnet Mask:       "@
        + ipv4_text(v.mask)
        + "\nWildcard Mask:     "@
        + ipv4_text(v.wildcard)
        + "\nPrefix Length:     /"@
        + decimal_text(v.prefix_length as nat)
        + "\nFirst Host:        "@
        + ipv4_text(v.first_host)
        + "\nLast Host:         "@
        + ipv4_text(v.last_host)
        + "\nTotal Hosts:       "@
        + decimal_text(v.total_hosts as nat)
        + "\nUsable Hosts:      "@
        + decimal_text(v.usable_hosts as nat)
        + "\nNetwork Class:     "@
        + v.network_class
        + "\nPrivate Address:   "@
        + (if v.is_private { "Yes"@ } else { "No"@ })
        + "\nAddress Type:      "@
        + v.address_type
        + "\n"@
}

impl TextOutput for Ipv4Subnet {
    open spec fn text(&self) -> Seq<char> {
        ipv4_subnet_text(self@)
    }

    fn to_text(&self) -> (r: String) {
        let mut out = String::new();
        out.append("IPv4 Subnet Calculator\n======================\nInput:             ");
        out.append(self.input.as_str());
        out.append("\nNetwork Address:   ");
        push_ipv4(&mut out, self.network);
        out.append("\nBroadcast Address: ");
        push_ipv4(&mut out, self.broadcast);
        out.append("\nSubnet Mask:       ");
        push_ipv4(&mut out, self.mask);
        out.append("\nWildcard Mask:     ");
        push_ipv4(&mut out, self.wildcard);
        out.append("\nPrefix Length:     /");
        push_decimal(&mut out, self.prefix_length as u128);
        out.append("\nFirst Host:        ");
        push_ipv4(&mut out, self.first_host);
        out.append("\nLast Host:         ");
        push_ipv4(&mut out, self.last_host);
        out.append("\nTotal Hosts:       ");
        push_decimal(&mut out, self.total_hosts as u128);
        out.append("\nUsable Hosts:      ");
        push_decimal(&mut out, self.usable_hosts as u128);
        out.append("\nNetwork Class:     ");
        out.append(self.network_class.as_str());
        out.append("\nPrivate Address:   ");
        out.append(if self.is_private { "Yes" } else { "No" });
        out.append("\nAddress Type:      ");
        out.append(self.address_type.as_str());
        out.append("\n");
        assert(out@ =~= ipv4_subnet_text(self@));
        out
    }
}

/// The report of an IPv6 subnet.
pub open spec fn ipv6_subnet_text(v: Ipv6SubnetView) -> Seq<char> {
    "IPv6 Subnet Calculator\n======================\nInput:               "@
        + v.input
        + "\nNetwork Address:     "@
        + ipv6_text(v.network)
        + "\nNetwork (Full):      "@
        + v.network_address_full
        + "\nLast Address:        "@
        + ipv6_text(v.last)
        + "\nLast Address (Full): "@
        + v.last_address_full
        + "\nPrefix Length:       /"@
        + decimal_text(v.prefix_length as nat)
        + "\nTotal Addresses:     "@
        + v.total_addresses
        + "\nHextets:             "@
        + colon_join(v.hextets)
        + "\nAddress Type:        "@
        + v.address_type
        + "\n"@
}

impl TextOutput for Ipv6Subnet {
    open spec fn text(&self) -> Seq<char> {
        ipv6_subnet_text(self@)
    }

    fn to_text(&self) -> (r: String) {
        let mut out = String::new();
        out.append("IPv6 Subnet Calculator\n======================\nInput:               ");
        out.append(self.input.as_str());
        out.append("\nNetwork Address:     ");
        push_ipv6(&mut out, self.network);
        out.append("\nNetwork (Full):      ");
        out.append(self.network_address_full.as_str());
        out.append("\nLast Address:        ");
        push_ipv6(&mut out, self.last);
        out.append("\nLast Address (Full): ");
        out.append(self.last_address_full.as_str());
        out.append("\nPrefix Length:       /");
        push_decimal(&mut out, self.prefix_length as u128);
        out.append("\nTotal Addresses:     ");
        out.append(self.total_addresses.as_str());
        out.append("\nHextets:             ");
        push_colon_join(&mut out, &self.hextets);
        out.append("\nAddress Type:        ");
        out.append(self.address_type.as_str());
        out.append("\n");
        assert(out@ =~= ipv6_subnet_text(self@));
        out
    }
}

/// The report of a containment check.
pub open spec fn contains_text(v: ContainsView) -> Seq<char> {
    "Address Containment Check\n=========================\nSubnet:            "@
        + v.cidr
        + "\nAddress:           "@
        + v.address
        + "\nContained:         "@
        + (if v.contained { "Yes"@ } else { "No"@ })
        + "\nNetwork Address:   "@
        + v.network_address
        + "\nBroadcast Address: "@
        + v.broadcast_address
        + "\n"@
}

impl TextOutput for ContainsResult {
    open spec fn text(&self) -> Seq<char> {
        contains_text(self@)
    }

    fn to_text(&self) -> (r: String) {
        let mut out = String::new();
        out.append("Address Containment Check\n=========================\nSubnet:            ");
        out.append(self.cidr.as_str());
        out.append("\nAddress:           ");
        out.append(self.address.as_str());
        out.append("\nContained:         ");
        out.append(if self.contained { "Yes" } else { "No" });
        out.append("\nNetwork Address:   ");
        out.append(self.network_address.as_str());
        out.append("\nBroadcast Address: ");
        out.append(self.broadcast_address.as_str());
        out.append("\n");
        assert(out@ =~= contains_text(self@));
        out
    }
}

/// The report of a count of subnets.
pub open spec fn split_summary_text(v: SplitSummaryView) -> Seq<char> {
    "Subnet Split Summary\n====================\nSupernet:           "@
        + v.supernet
        + "\nNew Prefix:         /"@
        + decimal_text(v.new_prefix as nat)
        + "\nAvailable Subnets:  "@
        + v.available_subnets
        + "\n"@
}

impl TextOutput for SplitSummary {
    open spec fn text(&self) -> Seq<char> {
        split_summary_text(self@)
    }

    fn to_text(&self) -> (r: String) {
        let mut out = String::new();
        out.append("Subnet Split Summary\n====================\nSupernet:           ");
        out.append(self.supernet.as_str());
        out.append("\nNew Prefix:         /");
        push_decimal(&mut out, self.new_prefix as u128);
        out.append("\nAvailable Subnets:  ");
        out.append(self.available_subnets.as_str());
        out.append("\n");
        assert(out@ =~= split_summary_text(self@));
        out
    }
}

/// One line of a list of IPv4 subnets, with the range of hosts.
pub open spec fn ipv4_host_line(index: nat, v: Ipv4SubnetView) -> Seq<char> {
    "  "@ + decimal_text(index) + ". "@
        + ipv4_text(v.network)
        + "/"@
        + decimal_text(v.prefix_length as nat)
        + " (Hosts: "@
        + ipv4_text(v.first_host)
        + "-"@
        + ipv4_text(v.last_host)
        + ")\n"@
}

/// The numbered lines of a list of IPv4 subnets.
pub open spec fn ipv4_host_lines(subnets: Seq<Ipv4SubnetView>) -> Seq<char>
    decreases subnets.len(),
{
    if subnets.len() == 0 {
        Seq::empty()
    } else {
        ipv4_host_lines(subnets.drop_last()) + ipv4_host_line(subnets.len(), subnets.last())
    }
}

/// Appends the numbered lines of a list of IPv4 subnets.
fn push_ipv4_host_lines(out: &mut String, subnets: &Vec<Ipv4Subnet>)
    ensures
        final(out)@ == old(out)@ + ipv4_host_lines(ipv4_subnet_views(subnets@)),
{
    let ghost views = ipv4_subnet_views(subnets@);
    let mut i: usize = 0;
    proof {
        assert(views.take(0) =~= Seq::<Ipv4SubnetView>::empty());
        assert(out@ =~= old(out)@ + ipv4_host_lines(views.take(0)));
    }
    while i < subnets.len()
        invariant
            0 <= i <= subnets.len(),
            views == ipv4_subnet_views(subnets@),
            out@ == old(out)@ + ipv4_host_lines(views.take(i as int)),
        decreases subnets.len() - i,
    {
        let ghost before = out@;
        let subnet = &subnets[i];
        proof {
            assert(views.take(i + 1).drop_last() =~= views.take(i as int));
            assert(views.take(i + 1).last() == subnet@);
        }
        out.append("  ");
        push_decimal(out, (i as u128) + 1);
        out.append(". ");
        push_ipv4(out, subnet.network);
        out.append("/");
        push_decimal(out, subnet.prefix_length as u128);
        out.append(" (Hosts: ");
        push_ipv4(out, subnet.first_host);
        out.append("-");
        push_ipv4(out, subnet.last_host);
        out.append(")\n");
        assert(out@ =~= before + ipv4_host_line((i + 1) as nat, subnet@));
        i = i + 1;
    }
    proof {
        assert(views.take(subnets@.len() as int) =~= views);
    }
}

/// One line of a list of IPv4 blocks.
pub open spec fn ipv4_cidr_line(index: nat, v: Ipv4SubnetView) -> Seq<char> {
    "  "@ + decimal_text(index) + ". "@
        + ipv4_text(v.network)
        + "/"@
        + decimal_text(v.prefix_length as nat)
        + "\n"@
}

/// The numbered lines of a list of IPv4 subnets.
pub open spec fn ipv4_cidr_lines(subnets: Seq<Ipv4SubnetView>) -> Seq<char>
    decreases subnets.len(),
{
    if subnets.len() == 0 {
        Seq::empty()
    } else {
        ipv4_cidr_lines(subnets.drop_last()) + ipv4_cidr_line(subnets.len(), subnets.last())
    }
}

/// Appends the numbered lines of a list of IPv4 subnets.
fn push_ipv4_cidr_lines(out: &mut String, subnets: &Vec<Ipv4Subnet>)
    ensures
        final(out)@ == old(out)@ + ipv4_cidr_lines(ipv4_subnet_views(subnets@)),
{
    let ghost views = ipv4_subnet_views(subnets@);
    let mut i: usize = 0;
    proof {
        assert(views.take(0) =~= Seq::<Ipv4SubnetView>::empty());
        assert(out@ =~= old(out)@ + ipv4_cidr_lines(views.take(0)));
    }
    while i < subnets.len()
        invariant
            0 <= i <= subnets.len(),
            views == ipv4_subnet_views(subnets@),
            out@ == old(out)@ + ipv4_cidr_lines(views.take(i as int)),
        decreases subnets.len() - i,
    {
        let ghost before = out@;
        let subnet = &subnets[i];
        proof {
            assert(views.take(i + 1).drop_last() =~= views.take(i as int));
            assert(views.take(i + 1).last() == subnet@);
        }
        out.append("  ");
        push_decimal(out, (i as u128) + 1);
        out.append(". ");
        push_ipv4(out, subnet.network);
        out.append("/");
        push_decimal(out, subnet.prefix_length as u128);
        out.append("\n");
        assert(out@ =~= before + ipv4_cidr_line((i + 1) as nat, subnet@));
        i = i + 1;
    }
    proof {
        assert(views.take(subnets@.len() as int) =~= views);
    }
}

/// One line of a list of IPv6 blocks.
pub open spec fn ipv6_cidr_line(index: nat, v: Ipv6SubnetView) -> Seq<char> {
    "  "@ + decimal_text(index) + ". "@
        + ipv6_text(v.network)
        + "/"@
        + decimal_text(v.prefix_length as nat)
        + "\n"@
}

/// The numbered lines of a list of IPv6 subnets.
pub open spec fn ipv6_cidr_lines(subnets: Seq<Ipv6SubnetView>) -> Seq<char>
    decreases subnets.len(),
{
    if subnets.len() == 0 {
        Seq::empty()
    } else {
        ipv6_cidr_lines(subnets.drop_last()) + ipv6_cidr_line(subnets.len(), subnets.last())
    }
}

/// Appends the numbered lines of a list of IPv6 subnets.
fn push_ipv6_cidr_lines(out: &mut String, subnets: &Vec<Ipv6Subnet>)
    ensures
        final(out)@ == old(out)@ + ipv6_cidr_lines(ipv6_subnet_views(subnets@)),
{
    let ghost views = ipv6_subnet_views(subnets@);
    let mut i: usize = 0;
    proof {
        assert(views.take(0) =~= Seq::<Ipv6SubnetView>::empty());
        assert(out@ =~= old(out)@ + ipv6_cidr_lines(views.take(0)));
    }
    while i < subnets.len()
        invariant
            0 <= i <= subnets.len(),
            views == ipv6_subnet_views(subnets@),
            out@ == old(out)@ + ipv6_cidr_lines(views.take(i as int)),
        decreases subnets.len() - i,
    {
        let ghost before = out@;
        let subnet = &subnets[i];
        proof {
            assert(views.take(i + 1).drop_last() =~= views.take(i as int));
            assert(views.take(i + 1).last() == subnet@);
        }
        out.append("  ");
        push_decimal(out, (i as u128) + 1);
        out.append(". ");
        push_ipv6(out, subnet.network);
        out.append("/");
        push_decimal(out, subnet.prefix_length as u128);
        out.append("\n");
        assert(out@ =~= before + ipv6_cidr_line((i + 1) as nat, subnet@));
        i = i + 1;
    }
    proof {
        assert(views.take(subnets@.len() as int) =~= views);
    }
}

/// The report of a split of an IPv4 network.
pub open spec fn ipv4_subnet_list_text(v: Ipv4SubnetListView) -> Seq<char> {
    "IPv4 Subnet Generator\n=====================\nSupernet: "@
        + v.supernet.input
        + "\nNew Prefix: /"@
        + decimal_text(v.new_prefix as nat)
        + "\nGenerated "@
        + decimal_text(v.requested_count as nat)
        + " subnets:\n\n"@
        + ipv4_host_lines(v.subnets)
}

impl TextOutput for Ipv4SubnetList {
    open spec fn text(&self) -> Seq<char> {
        ipv4_subnet_list_text(self@)
    }

    fn to_text(&self) -> (r: String) {
        let mut out = String::new();
        out.append("IPv4 Subnet Generator\n=====================\nSupernet: ");
        out.append(self.supernet.input.as_str());
        out.append("\nNew Prefix: /");
        push_decimal(&mut out, self.new_prefix as u128);
        out.append("\nGenerated ");
        push_decimal(&mut out, self.requested_count as u128);
        out.append(" subnets:\n\n");
        push_ipv4_host_lines(&mut out, &self.subnets);
        assert(out@ =~= ipv4_subnet_list_text(self@));
        out
    }
}

/// The report of a summarization of IPv4 networks.
pub open spec fn ipv4_summary_text(v: Ipv4SummaryView) -> Seq<char> {
    "CIDR Summarization\n==================\nInput CIDRs:   "@
        + decimal_text(v.input_count as nat)
        + "\nOutput CIDRs:  "@
        + decimal_text(v.output_count as nat)
        + "\n\n"@
        + ipv4_cidr_lines(v.cidrs)
}

impl TextOutput for Ipv4SummaryResult {
    open spec fn text(&self) -> Seq<char> {
        ipv4_summary_text(self@)
    }

    fn to_text(&self) -> (r: String) {
        let mut out = String::new();
        out.append("CIDR Summarization\n==================\nInput CIDRs:   ");
        push_decimal(&mut out, self.input_count as u128);
        out.append("\nOutput CIDRs:  ");
        push_decimal(&mut out, self.output_count as u128);
        out.append("\n\n");
        push_ipv4_cidr_lines(&mut out, &self.cidrs);
        assert(out@ =~= ipv4_summary_text(self@));
        out
    }
}

/// The report of a decomposition of an IPv4 range.
pub open spec fn ipv4_from_range_text(v: Ipv4FromRangeView) -> Seq<char> {
    "IP Range to CIDR\n=================\nStart Address: "@
        + v.start_address
        + "\nEnd Address:   "@
        + v.end_address
        + "\nCIDR Count:    "@
        + decimal_text(v.cidr_count as nat)
        + "\n\n"@
        + ipv4_cidr_lines(v.cidrs)
}

impl TextOutput for Ipv4FromRangeResult {
    open spec fn text(&self) -> Seq<char> {
        ipv4_from_range_text(self@)
    }

    fn to_text(&self) -> (r: String) {
        let mut out = String::new();
        out.append("IP Range to CIDR\n=================\nStart Address: ");
        out.append(self.start_address.as_str());
        out.append("\nEnd Address:   ");
        out.append(self.end_address.as_str());
        out.append("\nCIDR Count:    ");
        push_decimal(&mut out, self.cidr_count as u128);
        out.append("\n\n");
        push_ipv4_cidr_lines(&mut out, &self.cidrs);
        assert(out@ =~= ipv4_from_range_text(self@));
        out
    }
}

/// The report of a split of an IPv6 network.
pub open spec fn ipv6_subnet_list_text(v: Ipv6SubnetListView) -> Seq<char> {
    "IPv6 Subnet Generator\n=====================\nSupernet: "@
        + v.supernet.input
        + "\nNew Prefix: /"@
        + decimal_text(v.new_prefix as nat)
        + "\nGenerated "@
        + decimal_text(v.requested_count as nat)
        + " subnets:\n\n"@
        + ipv6_cidr_lines(v.subnets)
}

impl TextOutput for Ipv6SubnetList {
    open spec fn text(&self) -> Seq<char> {
        ipv6_subnet_list_text(self@)
    }

    fn to_text(&self) -> (r: String) {
        let mut out = String::new();
        out.append("IPv6 Subnet Generator\n=====================\nSupernet: ");
        out.append(self.supernet.input.as_str());
        out.append("\nNew Prefix: /");
        push_decimal(&mut out, self.new_prefix as u128);
        out.append("\nGenerated ");
        push_decimal(&mut out, self.requested_count as u128);
        out.append(" subnets:\n\n");
        push_ipv6_cidr_lines(&mut out, &self.subnets);
        assert(out@ =~= ipv6_subnet_list_text(self@));
        out
    }
}

/// The report of a summarization of IPv6 networks.
pub open spec fn ipv6_summary_text(v: Ipv6SummaryView) -> Seq<char> {
    "CIDR Summarization\n==================\nInput CIDRs:   "@
        + decimal_text(v.input_count as nat)
        + "\nOutput CIDRs:  "@
        + decimal_text(v.output_count as nat)
        + "\n\n"@
        + ipv6_cidr_lines(v.cidrs)
}

impl TextOutput for Ipv6SummaryResult {
    open spec fn text(&self) -> Seq<char> {
        ipv6_summary_text(self@)
    }

    fn to_text(&self) -> (r: String) {
        let mut out = String::new();
        out.append("CIDR Summarization\n==================\nInput CIDRs:   ");
        push_decimal(&mut out, self.input_count as u128);
        out.append("\nOutput CIDRs:  ");
        push_decimal(&mut out, self.output_count as u128);
        out.append("\n\n");
        push_ipv6_cidr_lines(&mut out, &self.cidrs);
        assert(out@ =~= ipv6_summary_text(self@));
        out
    }
}

/// The report of a decomposition of an IPv6 range.
pub open spec fn ipv6_from_range_text(v: Ipv6FromRangeView) -> Seq<char> {
    "IP Range to CIDR\n=================\nStart Address: "@
        + v.start_address
        + "\nEnd Address:   "@
        + v.end_address
        + "\nCIDR Count:    "@
        + decimal_text(v.cidr_count as nat)
        + "\n\n"@
        + ipv6_cidr_lines(v.cidrs)
}

impl TextOutput for Ipv6FromRangeResult {
    open spec fn text(&self) -> Seq<char> {
        ipv6_from_range_text(self@)
    }

    fn to_text(&self) -> (r: String) {
        let mut out = String::new();
        out.append("IP Range to CIDR\n=================\nStart Address: ");
        out.append(self.start_address.as_str());
        out.append("\nEnd Address:   ");
        out.append(self.end_address.as_str());
        out.append("\nCIDR Count:    ");
        push_decimal(&mut out, self.cidr_count as u128);
        out.append("\n\n");
        push_ipv6_cidr_lines(&mut out, &self.cidrs);
        assert(out@ =~= ipv6_from_range_text(self@));
        out
    }
}

/// The report of one entry of a batch: a heading with its position, then
/// the report of its subnet or the message of its error.
pub open spec fn batch_entry_text(index: nat, total: usize, v: BatchEntryView) -> Seq<char> {
    "--- ["@ + decimal_text(index) + "/"@ + decimal_text(total as nat) + "] "@ + v.cidr + " ---\n"@
        + (match v.result {
        BatchEntryResultView::Success { subnet: SubnetResultView::V4(s) } => ipv4_subnet_text(s),
        BatchEntryResultView::Success { subnet: SubnetResultView::V6(s) } => ipv6_subnet_text(s),
        BatchEntryResultView::Failure { error } => "Error: "@ + error + "\n\n"@,
    })
}

/// The reports of the entries of a batch, one after the other.
pub open spec fn batch_entry_texts(total: usize, entries: Seq<BatchEntryView>) -> Seq<char>
    decreases entries.len(),
{
    if entries.len() == 0 {
        Seq::empty()
    } else {
        batch_entry_texts(total, entries.drop_last()) + batch_entry_text(
            entries.len(),
            total,
            entries.last(),
        )
    }
}

/// Appends the report of one entry of a batch.
fn push_batch_entry(out: &mut String, index: usize, total: usize, entry: &BatchEntry)
    ensures
        final(out)@ == old(out)@ + batch_entry_text(index as nat, total, entry@),
{
    out.append("--- [");
    push_decimal(out, index as u128);
    out.append("/");
    push_decimal(out, total as u128);
    out.append("] ");
    out.append(entry.cidr.as_str());
    out.append(" ---\n");
    match &entry.result {
        BatchEntryResult::Success { subnet } => match &**subnet {
            SubnetResult::V4(s) => {
                let t = s.to_text();
                out.append(t.as_str());
            },
            SubnetResult::V6(s) => {
                let t = s.to_text();
                out.append(t.as_str());
            },
        },
        BatchEntryResult::Failure { error } => {
            out.append("Error: ");
            out.append(error.as_str());
            out.append("\n\n");
        },
    }
    assert(out@ =~= old(out)@ + batch_entry_text(index as nat, total, entry@));
}

/// The report of a batch.
pub open spec fn batch_text(v: BatchResultView) -> Seq<char> {
    "Batch CIDR Processing\n=====================\nTotal CIDRs: "@ + decimal_text(v.count as nat)
        + "\n\n"@ + batch_entry_texts(v.count, v.results)
}

impl TextOutput for BatchResult {
    open spec fn text(&self) -> Seq<char> {
        batch_text(self@)
    }

    fn to_text(&self) -> (r: String) {
        let mut out = String::new();
        out.append("Batch CIDR Processing\n=====================\nTotal CIDRs: ");
        push_decimal(&mut out, self.count as u128);
        out.append("\n\n");
        let ghost start = out@;
        let ghost views = batch_entry_views(self.results@);
        let total = self.count;
        let mut i: usize = 0;
        proof {
            assert(views.take(0) =~= Seq::<BatchEntryView>::empty());
            assert(out@ =~= start + batch_entry_texts(total, views.take(0)));
        }
        while i < self.results.len()
            invariant
                0 <= i <= self.results.len(),
                views == batch_entry_views(self.results@),
                total == self.count,
                out@ == start + batch_entry_texts(total, views.take(i as int)),
            decreases self.results.len() - i,
        {
            let ghost before = out@;
            let entry = &self.results[i];
            proof {
                assert(views.take(i + 1).drop_last() =~= views.take(i as int));
                assert(views.take(i + 1).last() == entry@);
            }
            push_batch_entry(&mut out, i + 1, total, entry);
            assert(out@ =~= before + batch_entry_text((i + 1) as nat, total, entry@));
            i = i + 1;
        }
        proof {
            assert(views.take(self.results@.len() as int) =~= views);
            assert(out@ =~= batch_text(self@));
        }
        out
    }
}

} // verus!
