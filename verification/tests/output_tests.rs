use owo_colors::OwoColorize;
use pondus::models::SourceStatus;
use pondus::output::{format_status, pad, OutputFormat};

#[test]
fn from_str_accepts_the_three_formats() {
    assert_eq!(OutputFormat::from_str("json"), Ok(OutputFormat::Json));
    assert_eq!(OutputFormat::from_str("table"), Ok(OutputFormat::Table));
    assert_eq!(OutputFormat::from_str("markdown"), Ok(OutputFormat::Markdown));
    assert_eq!(OutputFormat::from_str("md"), Ok(OutputFormat::Markdown));
}

#[test]
fn from_str_rejects_anything_else() {
    assert_eq!(
        OutputFormat::from_str("yaml"),
        Err(String::from("Unknown format: yaml. Expected: json, table, markdown"))
    );
    assert_eq!(
        OutputFormat::from_str(""),
        Err(String::from("Unknown format: . Expected: json, table, markdown"))
    );
    assert_eq!(
        OutputFormat::from_str("JSON"),
        Err(String::from("Unknown format: JSON. Expected: json, table, markdown"))
    );
}

#[test]
fn format_status_uses_the_ansi_colors() {
    assert_eq!(format_status(&SourceStatus::Fetched), "\u{1b}[32mOK\u{1b}[39m");
    assert_eq!(format_status(&SourceStatus::Cached), "\u{1b}[32mCached\u{1b}[39m");
    assert_eq!(
        format_status(&SourceStatus::Unavailable),
        "\u{1b}[33mUnavailable\u{1b}[39m"
    );
    assert_eq!(
        format_status(&SourceStatus::Error(String::from("HTTP 500"))),
        "\u{1b}[31mError: HTTP 500\u{1b}[39m"
    );
}

#[test]
fn format_status_matches_the_color_crate() {
    // The same strings the color crate itself renders.
    assert_eq!(format_status(&SourceStatus::Fetched), format!("{}", "OK".green()));
    assert_eq!(format_status(&SourceStatus::Cached), format!("{}", "Cached".green()));
    assert_eq!(
        format_status(&SourceStatus::Unavailable),
        format!("{}", "Unavailable".yellow())
    );
    assert_eq!(
        format_status(&SourceStatus::Error(String::from("boom"))),
        format!("{}", "Error: boom".red())
    );
}

#[test]
fn pad_right_pads_with_spaces() {
    assert_eq!(pad("ab", 5), "ab   ");
    assert_eq!(pad("abcde", 5), "abcde");
    assert_eq!(pad("abcdef", 5), "abcdef");
    assert_eq!(pad("", 3), "   ");
    assert_eq!(pad("x", 0), "x");
}
