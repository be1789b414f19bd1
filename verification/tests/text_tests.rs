use pondus::numbers::{i64_to_dec, parse_i64_dec, parse_u64_dec, u64_to_dec};
use pondus::sources::{extract_cell_value, is_likely_model_name, should_skip_line};
use pondus::text::{lowercase, normalize_model_name, str_contains, str_eq, str_is_prefix, str_lt};

#[test]
fn lowercase_maps_ascii_capitals_only() {
    assert_eq!(lowercase("GPT-5 Pro"), "gpt-5 pro");
    assert_eq!(lowercase("already lower"), "already lower");
    assert_eq!(lowercase("MiXeD 123 _-()"), "mixed 123 _-()");
    assert_eq!(lowercase(""), "");
}

#[test]
fn normalize_model_name_lowercases_and_hyphenates() {
    assert_eq!(normalize_model_name("Mistral Large 3"), "mistral-large-3");
    assert_eq!(normalize_model_name("some_model name"), "some-model-name");
    assert_eq!(normalize_model_name("GPT_5 Pro"), "gpt-5-pro");
    assert_eq!(normalize_model_name(""), "");
}

#[test]
fn string_primitives() {
    assert!(str_eq("abc", "abc"));
    assert!(!str_eq("abc", "abd"));
    assert!(!str_eq("abc", "ab"));
    assert!(str_is_prefix("gpt-5", "gpt-5-pro"));
    assert!(!str_is_prefix("gpt-5x", "gpt-5-pro"));
    assert!(str_contains("the leaderboard page", "leaderboard"));
    assert!(!str_contains("the page", "leaderboard"));
    assert!(str_contains("abc", ""));
    assert!(str_lt("abc", "abd"));
    assert!(str_lt("ab", "abc"));
    assert!(!str_lt("abc", "abc"));
    assert!(!str_lt("b", "abc"));
}

#[test]
fn extract_cell_value_takes_the_first_quoted_run() {
    assert_eq!(
        extract_cell_value("- cell \"Gemini 3.1 Pro Preview\" [ref=x]:"),
        Some(String::from("Gemini 3.1 Pro Preview"))
    );
    assert_eq!(extract_cell_value("- cell \"57\" [ref=y]"), Some(String::from("57")));
    assert_eq!(extract_cell_value("no quotes here"), None);
    assert_eq!(extract_cell_value("one \" quote only"), None);
    assert_eq!(extract_cell_value("empty \"\" value"), Some(String::from("")));
}

#[test]
fn should_skip_line_spots_page_furniture() {
    assert!(should_skip_line("SWE-rebench Leaderboard"));
    assert!(should_skip_line("Rank Model Resolved Rate"));
    assert!(should_skip_line("Updated 2024"));
    assert!(should_skip_line("  Loading…  "));
    assert!(!should_skip_line("1 Qwen Coder 52.9%"));
}

#[test]
fn is_likely_model_name_filters_column_words() {
    assert!(is_likely_model_name("Qwen Coder"));
    assert!(is_likely_model_name("gpt-5"));
    assert!(!is_likely_model_name("Overall"));
    assert!(!is_likely_model_name("score"));
    assert!(!is_likely_model_name("x"));
    assert!(!is_likely_model_name("123 456"));
    assert!(!is_likely_model_name(""));
}

#[test]
fn decimal_spelling_round_trips() {
    for n in [0u64, 1, 9, 10, 42, 1000, u64::MAX] {
        let s = u64_to_dec(n);
        assert_eq!(parse_u64_dec(&s), Some(n));
    }
    for n in [0i64, 1, -1, 42, -42, i64::MIN, i64::MAX] {
        let s = i64_to_dec(n);
        assert_eq!(parse_i64_dec(&s), Some(n));
    }
    assert_eq!(u64_to_dec(1700000000), "1700000000");
    assert_eq!(i64_to_dec(-7), "-7");
}

#[test]
fn decimal_parsing_is_strict() {
    assert_eq!(parse_u64_dec(""), None);
    assert_eq!(parse_u64_dec("007"), None);
    assert_eq!(parse_u64_dec("1 2"), None);
    assert_eq!(parse_u64_dec("+1"), None);
    assert_eq!(parse_u64_dec("18446744073709551615"), Some(u64::MAX));
    assert_eq!(parse_u64_dec("18446744073709551616"), None);
    assert_eq!(parse_u64_dec("99999999999999999999999"), None);
    assert_eq!(parse_i64_dec("-0"), None);
    assert_eq!(parse_i64_dec("-9223372036854775808"), Some(i64::MIN));
    assert_eq!(parse_i64_dec("-9223372036854775809"), None);
    assert_eq!(parse_i64_dec("9223372036854775807"), Some(i64::MAX));
    assert_eq!(parse_i64_dec("9223372036854775808"), None);
    assert_eq!(parse_i64_dec("--1"), None);
}
