use pondus::alias::{AliasEntry, AliasMap};

fn entry(canonical: &str, aliases: &[&str]) -> AliasEntry {
    AliasEntry {
        canonical: String::from(canonical),
        aliases: aliases.iter().map(|a| String::from(*a)).collect(),
    }
}

fn demo_map() -> AliasMap {
    AliasMap::from_entries(&vec![
        entry("gpt-5", &["GPT 5", "openai gpt-5"]),
        entry("gpt-5-pro", &["GPT 5 Pro"]),
        entry("mistral-large-3", &["Mistral Large 3"]),
    ])
}

#[test]
fn resolve_exact_alias_any_case() {
    let m = demo_map();
    assert_eq!(m.resolve("GPT 5"), "gpt-5");
    assert_eq!(m.resolve("gpt 5"), "gpt-5");
    assert_eq!(m.resolve("gPt 5"), "gpt-5");
    assert_eq!(m.resolve("OPENAI GPT-5"), "gpt-5");
    assert_eq!(m.resolve("Mistral Large 3"), "mistral-large-3");
}

#[test]
fn resolve_canonical_to_itself() {
    let m = demo_map();
    assert_eq!(m.resolve("gpt-5"), "gpt-5");
    assert_eq!(m.resolve("GPT-5"), "gpt-5");
    assert_eq!(m.resolve("mistral-large-3"), "mistral-large-3");
}

#[test]
fn resolve_unknown_falls_back_to_lowercased_input() {
    let m = demo_map();
    assert_eq!(m.resolve("Some Unknown Model"), "some unknown model");
    assert_eq!(m.resolve(""), "");
}

#[test]
fn version_dot_does_not_prefix_match() {
    let m = demo_map();
    assert_eq!(m.resolve("gpt-5.2"), "gpt-5.2");
    assert_eq!(m.resolve("gpt-5-high"), "gpt-5");
    assert_eq!(m.resolve("gpt-5(high)"), "gpt-5");
    assert_eq!(m.resolve("gpt-5 high"), "gpt-5");
}

#[test]
fn longest_prefix_wins() {
    let m = demo_map();
    assert_eq!(m.resolve("gpt-5-pro-max"), "gpt-5-pro");
    assert_eq!(m.resolve("gpt-5-mini"), "gpt-5");
}

#[test]
fn resolve_is_idempotent_on_examples() {
    let m = demo_map();
    for name in [
        "GPT 5",
        "gpt-5-pro-max",
        "gpt-5.2",
        "Some Unknown Model",
        "mistral large 3",
        "gpt-5(high)",
    ] {
        let once = m.resolve(name);
        let twice = m.resolve(&once);
        assert_eq!(twice, once);
    }
}

#[test]
fn matches_compares_resolution_to_lowercased_canonical() {
    let m = demo_map();
    assert!(m.matches("GPT 5", "gpt-5"));
    assert!(m.matches("GPT 5", "GPT-5"));
    assert!(!m.matches("GPT 5", "gpt-5-pro"));
    assert!(m.matches("anything", "Anything"));
}

#[test]
fn prefix_match_requires_separator() {
    let m = demo_map();
    assert_eq!(m.prefix_match("gpt-5x"), None);
    assert_eq!(m.prefix_match("gpt-5-x"), Some(String::from("gpt-5")));
    assert_eq!(m.prefix_match("gpt-5"), None);
}

#[test]
fn canonical_closure_is_decidable() {
    // Every canonical name still resolves to itself: closed, and resolution
    // is idempotent.
    assert!(demo_map().is_canonically_closed());

    // The second entry claims the first one's canonical name as an alias of
    // its own: "model-a" now resolves to "model-b", while "k" still
    // resolves to "model-a" — not closed, and resolving twice moves on.
    let m = AliasMap::from_entries(&vec![
        entry("model-a", &["k"]),
        entry("model-b", &["model-a"]),
    ]);
    assert!(!m.is_canonically_closed());
    assert_eq!(m.resolve("k"), "model-a");
    assert_eq!(m.resolve(&m.resolve("k")), "model-b");
}

#[test]
fn later_dataset_entry_overwrites_earlier_binding() {
    let m = AliasMap::from_entries(&vec![
        entry("model-a", &["shared name"]),
        entry("model-b", &["shared name"]),
    ]);
    assert_eq!(m.resolve("Shared Name"), "model-b");
}
