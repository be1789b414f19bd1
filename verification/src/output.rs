use vstd::prelude::*;

use owo_colors::OwoColorize;

use crate::models::SourceStatus;
use crate::text::push_char;

verus! {

broadcast use vstd::string::group_string_axioms;

/// Which rendering the caller asked for.
#[derive(Debug, Clone, Copy, PartialEq, Eq, Structural)]
pub enum OutputFormat {
    Json,
    Table,
    Markdown,
}

impl OutputFormat {
    /// The format a selector names: "json", "table", "markdown" (or "md").
    /// Any other selector is an error that spells out the choices.
    pub fn from_str(s: &str) -> (r: Result<OutputFormat, String>)
        ensures
            s@ == "json"@ ==> r == Ok::<OutputFormat, String>(OutputFormat::Json),
            s@ == "table"@ ==> r == Ok::<OutputFormat, String>(OutputFormat::Table),
            s@ == "markdown"@ || s@ == "md"@ ==> r == Ok::<OutputFormat, String>(
                OutputFormat::Markdown,
            ),
            s@ != "json"@ && s@ != "table"@ && s@ != "markdown"@ && s@ != "md"@ ==> (r matches Err(
                e,
            ) && e@ == "Unknown format: "@ + s@ + ". Expected: json, table, markdown"@),
    {
        proof {
            reveal_strlit("json");
            reveal_strlit("table");
            reveal_strlit("markdown");
            reveal_strlit("md");
            // The four selectors have pairwise different lengths, so no two
            // of them can name the same view.
            assert("json"@.len() == 4);
            assert("table"@.len() == 5);
            assert("markdown"@.len() == 8);
            assert("md"@.len() == 2);
        }
        if crate::text::str_eq(s, "json") {
            Ok(OutputFormat::Json)
        } else if crate::text::str_eq(s, "table") {
            Ok(OutputFormat::Table)
        } else if crate::text::str_eq(s, "markdown") || crate::text::str_eq(s, "md") {
            Ok(OutputFormat::Markdown)
        } else {
            let mut e = String::from_str("Unknown format: ");
            e.append(s);
            e.append(". Expected: json, table, markdown");
            proof {
                assert(e@ =~= "Unknown format: "@ + s@ + ". Expected: json, table, markdown"@);
            }
            Err(e)
        }
    }
}

/// Relies on owo_colors' OwoColorize::green, whose Display wraps the text
/// in the ANSI escapes for green foreground and default foreground.
#[verifier::external_body]
fn green(s: &str) -> (r: String)
    ensures
        r@ == "\u{1b}[32m"@ + s@ + "\u{1b}[39m"@,
{
    format!("{}", s.green())
}

/// Relies on owo_colors' OwoColorize::yellow, whose Display wraps the text
/// in the ANSI escapes for yellow foreground and default foreground.
#[verifier::external_body]
fn yellow(s: &str) -> (r: String)
    ensures
        r@ == "\u{1b}[33m"@ + s@ + "\u{1b}[39m"@,
{
    format!("{}", s.yellow())
}

/// Relies on owo_colors' OwoColorize::red, whose Display wraps the text
/// in the ANSI escapes for red foreground and default foreground.
#[verifier::external_body]
fn red(s: &str) -> (r: String)
    ensures
        r@ == "\u{1b}[31m"@ + s@ + "\u{1b}[39m"@,
{
    format!("{}", s.red())
}

/// The colored text a status renders to: successes in green, an absent
/// integration in yellow, a failure with its message in red.
pub open spec fn status_text(status: SourceStatus) -> Seq<char> {
    match status {
        SourceStatus::Fetched => "\u{1b}[32m"@ + "OK"@ + "\u{1b}[39m"@,
        SourceStatus::Cached => "\u{1b}[32m"@ + "Cached"@ + "\u{1b}[39m"@,
        SourceStatus::Unavailable => "\u{1b}[33m"@ + "Unavailable"@ + "\u{1b}[39m"@,
        SourceStatus::Error(e) => "\u{1b}[31m"@ + ("Error: "@ + e@) + "\u{1b}[39m"@,
    }
}

/// Render a status for the table view.
pub fn format_status(status: &SourceStatus) -> (r: String)
    ensures
        r@ == status_text(*status),
{
    match status {
        SourceStatus::Fetched => green("OK"),
        SourceStatus::Cached => green("Cached"),
        SourceStatus::Unavailable => yellow("Unavailable"),
        SourceStatus::Error(e) => {
            let mut t = String::from_str("Error: ");
            t.append(e.as_str());
            red(t.as_str())
        },
    }
}

/// A string padded with spaces on the right up to the given width; a string
/// already that wide is returned unchanged.
pub open spec fn padded(s: Seq<char>, width: int) -> Seq<char> {
    if width <= s.len() {
        s
    } else {
        s + Seq::new((width - s.len()) as nat, |i: int| ' ')
    }
}

/// Pad a table cell with spaces to the column's width.
pub fn pad(s: &str, width: usize) -> (r: String)
    ensures
        r@ == padded(s@, width as int),
{
    let n = s.unicode_len();
    let mut out = String::from_str(s);
    if width <= n {
        proof {
            assert(out@ == padded(s@, width as int));
        }
        return out;
    }
    let mut i: usize = n;
    while i < width
        invariant
            n == s@.len(),
            n <= i <= width,
            out@ == s@ + Seq::new((i - n) as nat, |k: int| ' '),
        decreases width - i,
    {
        push_char(&mut out, ' ');
        i = i + 1;
        proof {
            assert(out@ =~= s@ + Seq::new((i - n) as nat, |k: int| ' '));
        }
    }
    out
}

} // verus!
