//! What the printers compute before they print: the output format, the
//! widths of a table's columns, and the grouping of rows by package.
pub mod json;
pub mod pretty_table;

use vstd::prelude::*;
use vstd::string::StringExecFns;
use crate::text::text_eq;

verus! {

/// The form in which the rows are printed.
#[derive(Debug, Clone, Copy, PartialEq, Eq, Structural)]
pub enum PrintFormat {
    Table,
    Json,
}

/// The lower-case form of a text, as the standard library gives it.
pub uninterp spec fn lowercased(text: Seq<char>) -> Seq<char>;

/// Trusted: `str::to_lowercase`.
#[verifier::external_body]
fn lowercase(text: &str) -> (r: String)
    ensures
        r@ == lowercased(text@),
{
    text.to_lowercase()
}

/// The format that a lower-case name stands for.
pub open spec fn format_named(name: Seq<char>) -> Option<PrintFormat> {
    if name == "table"@ {
        Some(PrintFormat::Table)
    } else if name == "json"@ {
        Some(PrintFormat::Json)
    } else {
        None
    }
}

impl PrintFormat {
    /// The format that a lower-case name stands for: `table` or `json`.
    pub fn named(name: &str) -> (r: Option<PrintFormat>)
        ensures
            r == format_named(name@),
    {
        if text_eq(name, "table") {
            Some(PrintFormat::Table)
        } else if text_eq(name, "json") {
            Some(PrintFormat::Json)
        } else {
            None
        }
    }
}

impl std::str::FromStr for PrintFormat {
    type Err = String;

    /// Reads a format from its name, in whatever case. A text that names no
    /// format is rejected with a message that quotes it.
    fn from_str(s: &str) -> (r: Result<PrintFormat, String>)
        ensures
            match format_named(lowercased(s@)) {
                Some(format) => r == Ok::<PrintFormat, String>(format),
                None => r is Err && r->Err_0@ == "Invalid value: "@ + s@,
            },
    {
        let lowered = lowercase(s);
        match PrintFormat::named(lowered.as_str()) {
            Some(format) => Ok(format),
            None => Err("Invalid value: ".to_owned().concat(s)),
        }
    }
}

} // verus!
