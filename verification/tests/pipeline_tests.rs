use pondus::alias::{AliasEntry, AliasMap};
use pondus::models::{MetricValue, ModelScore, SourceResult, SourceStatus};
use pondus::pipeline::{check, compare, fetch_all, rank, sources};

fn score(model: &str, source_model_name: &str, points: f64, rank: u32) -> ModelScore {
    ModelScore {
        model: String::from(model),
        source_model_name: String::from(source_model_name),
        metrics: vec![
            (String::from("score"), MetricValue::Float(points.to_bits())),
            (String::from("rank"), MetricValue::Int(rank as i64)),
        ],
        rank: Some(rank),
    }
}

fn result(source: &str, scores: Vec<ModelScore>) -> SourceResult {
    SourceResult {
        source: String::from(source),
        fetched_at: Some(1000),
        status: SourceStatus::Fetched,
        scores,
    }
}

fn demo_map() -> AliasMap {
    AliasMap::from_entries(&vec![
        AliasEntry {
            canonical: String::from("m1"),
            aliases: vec![String::from("Model One")],
        },
        AliasEntry {
            canonical: String::from("m2"),
            aliases: vec![String::from("Model Two")],
        },
    ])
}

#[test]
fn fetch_all_isolates_a_failing_source() {
    let first = result("first", vec![score("a", "A", 1.0, 1)]);
    let third = result("third", vec![score("b", "B", 2.0, 1)]);
    let outcomes = vec![
        (String::from("first"), Ok(first.clone())),
        (String::from("second"), Err(String::from("connection refused"))),
        (String::from("third"), Ok(third.clone())),
    ];
    let results = fetch_all(outcomes);
    assert_eq!(results.len(), 3);
    assert_eq!(results[0], first);
    assert_eq!(results[2], third);
    assert_eq!(results[1].source, "second");
    assert_eq!(results[1].fetched_at, None);
    assert_eq!(
        results[1].status,
        SourceStatus::Error(String::from("connection refused"))
    );
    assert!(results[1].scores.is_empty());
}

#[test]
fn check_retains_only_the_asked_for_model() {
    let aliases = AliasMap::from_entries(&Vec::new());
    let results = vec![result(
        "mock",
        vec![
            score("gpt-5.2", "GPT-5.2", 89.1, 2),
            score("mistral-large-3", "Mistral Large 3", 92.5, 1),
            score("gemini-3.1-pro", "Gemini 3.1 Pro", 87.3, 3),
        ],
    )];
    let out = check(&aliases, results, "GPT-5.2", 1234);
    assert_eq!(out.timestamp, 1234);
    assert_eq!(out.query.query_type, "check");
    assert_eq!(out.query.model, Some(String::from("gpt-5.2")));
    assert_eq!(out.sources.len(), 1);
    assert_eq!(out.sources[0].scores.len(), 1);
    assert_eq!(out.sources[0].scores[0].model, "gpt-5.2");
}

#[test]
fn check_keeps_scores_through_either_name_field() {
    let aliases = demo_map();
    let results = vec![result(
        "mock",
        vec![
            // Kept: the source-normalized name is already the canonical one.
            score("m1", "weird spelling", 1.0, 1),
            // Kept: the raw name resolves to the canonical one.
            score("something-else", "Model One", 2.0, 2),
            // Dropped: neither field names m1.
            score("m2", "Model Two", 3.0, 3),
        ],
    )];
    let out = check(&aliases, results, "M1", 0);
    assert_eq!(out.sources[0].scores.len(), 2);
    assert_eq!(out.sources[0].scores[0].model, "m1");
    assert_eq!(out.sources[0].scores[1].model, "something-else");
}

#[test]
fn compare_never_returns_a_third_model() {
    let aliases = demo_map();
    let results = vec![
        result(
            "alpha",
            vec![
                score("x", "Model One", 1.0, 1),
                score("y", "Model Two", 2.0, 2),
                score("z", "Model Three", 3.0, 3),
                score("w", "m1", 4.0, 4),
            ],
        ),
        result("beta", vec![score("q", "unrelated", 5.0, 1)]),
    ];
    let out = compare(&aliases, results, "Model One", "m2", 0);
    assert_eq!(
        out.query.models,
        Some(vec![String::from("m1"), String::from("m2")])
    );
    for source in &out.sources {
        for s in &source.scores {
            let resolved = aliases.resolve(&s.source_model_name);
            assert!(resolved == "m1" || resolved == "m2", "kept {resolved}");
        }
    }
    assert_eq!(out.sources[0].scores.len(), 3);
    assert_eq!(out.sources[1].scores.len(), 0);
}

#[test]
fn rank_truncates_each_source_to_top_n() {
    let results = vec![
        result(
            "alpha",
            vec![
                score("a", "A", 3.0, 1),
                score("b", "B", 2.0, 2),
                score("c", "C", 1.0, 3),
            ],
        ),
        result("beta", vec![score("d", "D", 9.0, 1)]),
    ];
    let out = rank(results, Some(2), 77);
    assert_eq!(out.timestamp, 77);
    assert_eq!(out.query.query_type, "rank");
    assert_eq!(out.query.top, Some(2));
    assert_eq!(out.sources[0].scores.len(), 2);
    assert_eq!(out.sources[0].scores[0].model, "a");
    assert_eq!(out.sources[0].scores[1].model, "b");
    assert_eq!(out.sources[1].scores.len(), 1);
}

#[test]
fn rank_without_top_keeps_everything() {
    let results = vec![result(
        "alpha",
        vec![score("a", "A", 3.0, 1), score("b", "B", 2.0, 2)],
    )];
    let out = rank(results.clone(), None, 0);
    assert_eq!(out.query.top, None);
    assert_eq!(out.sources, results);
}

#[test]
fn sources_view_passes_results_through() {
    let results = vec![
        result("alpha", vec![score("a", "A", 3.0, 1)]),
        SourceResult {
            source: String::from("beta"),
            fetched_at: None,
            status: SourceStatus::Unavailable,
            scores: vec![],
        },
    ];
    let out = sources(results.clone(), 5);
    assert_eq!(out.timestamp, 5);
    assert_eq!(out.query.query_type, "sources");
    assert_eq!(out.sources, results);
}
