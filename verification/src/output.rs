//! Output formats.
use vstd::prelude::*;

verus! {

/// Output format selector.
#[derive(Debug, Clone, Copy, PartialEq, Eq, Structural)]
pub enum OutputFormat {
    Text,
    Json,
    Csv,
}

/// The name of an output format.
pub open spec fn output_format_name(f: OutputFormat) -> Seq<char> {
    match f {
        OutputFormat::Text => "text"@,
        OutputFormat::Json => "json"@,
        OutputFormat::Csv => "csv"@,
    }
}

/// Each output format has a name of its own.
pub proof fn law_output_format_names_distinct(a: OutputFormat, b: OutputFormat)
    ensures
        output_format_name(a) == output_format_name(b) ==> a == b,
{
    reveal_strlit("text");
    reveal_strlit("json");
    reveal_strlit("csv");
    assert("text"@[0] == 't');
    assert("json"@[0] == 'j');
    assert("csv"@[0] == 'c');
}

impl OutputFormat {
    pub fn as_str(&self) -> (s: &'static str)
        ensures
            s@ == output_format_name(*self),
    {
        match self {
            OutputFormat::Text => "text",
            OutputFormat::Json => "json",
            OutputFormat::Csv => "csv",
        }
    }
}

} // verus!
