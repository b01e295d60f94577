//! What a command line needs from the library: the output formats that an
//! argument can name.

use vstd::prelude::*;
use vstd::std_specs::convert::FromSpecImpl;
use crate::output::OutputFormat;

verus! {

/// The output format that a command-line argument asks for.
#[derive(Debug, Clone, Copy, PartialEq, Eq, Structural)]
pub enum OutputFormatArg {
    Json,
    Text,
}

impl Default for OutputFormatArg {
    fn default() -> (r: OutputFormatArg)
        ensures
            r == OutputFormatArg::Json,
    {
        OutputFormatArg::Json
    }
}

impl From<OutputFormatArg> for OutputFormat {
    fn from(arg: OutputFormatArg) -> (r: OutputFormat) {
        match arg {
            OutputFormatArg::Json => OutputFormat::Json,
            OutputFormatArg::Text => OutputFormat::Text,
        }
    }
}

impl FromSpecImpl<OutputFormatArg> for OutputFormat {
    open spec fn obeys_from_spec() -> bool {
        true
    }

    open spec fn from_spec(arg: OutputFormatArg) -> OutputFormat {
        match arg {
            OutputFormatArg::Json => OutputFormat::Json,
            OutputFormatArg::Text => OutputFormat::Text,
        }
    }
}

} // verus!
