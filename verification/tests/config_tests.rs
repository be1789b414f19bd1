use pondus::config::{AliasConfig, CacheConfig, Config, SourceConfig, default_ttl};
use pondus::sources::{
    Aider, Arena, ArtificialAnalysis, LiveBench, MockSource, Seal, SweBench, SweRebench,
    TerminalBench,
};

fn source(api_key: Option<&str>, agent_browser_path: Option<&str>) -> SourceConfig {
    SourceConfig {
        api_key: api_key.map(String::from),
        agent_browser_path: agent_browser_path.map(String::from),
    }
}

#[test]
fn default_configuration() {
    let c = Config::default();
    assert!(c.sources.is_empty());
    assert_eq!(c.cache.ttl_hours, 24);
    assert_eq!(c.alias.path, None);
    assert_eq!(c.aa_api_key, None);
    assert_eq!(default_ttl(), 24);
    assert_eq!(CacheConfig::default().ttl_hours, 24);
    assert_eq!(AliasConfig::default().path, None);
    assert_eq!(SourceConfig::default(), source(None, None));
}

#[test]
fn agent_browser_path_prefers_seal_then_swe_rebench_then_default() {
    let mut c = Config::default();
    assert_eq!(c.agent_browser_path(), "agent-browser");

    c.sources.push((
        String::from("swe-rebench"),
        source(None, Some("/opt/swe-browser")),
    ));
    assert_eq!(c.agent_browser_path(), "/opt/swe-browser");

    c.sources
        .push((String::from("seal"), source(None, Some("/opt/seal-browser"))));
    assert_eq!(c.agent_browser_path(), "/opt/seal-browser");
}

#[test]
fn agent_browser_path_does_not_fall_past_a_configured_seal() {
    // "seal" is configured but holds no path: the lookup stops there, as the
    // chain picks the seal section before asking for the path inside it.
    let c = Config {
        sources: vec![
            (String::from("seal"), source(None, None)),
            (String::from("swe-rebench"), source(None, Some("/opt/other"))),
        ],
        cache: CacheConfig::default(),
        alias: AliasConfig::default(),
        aa_api_key: None,
    };
    assert_eq!(c.agent_browser_path(), "agent-browser");
}

#[test]
fn aa_api_key_prefers_the_environment_key() {
    let c = Config {
        sources: vec![(
            String::from("artificial-analysis"),
            source(Some("from-config"), None),
        )],
        cache: CacheConfig::default(),
        alias: AliasConfig::default(),
        aa_api_key: Some(String::from("from-env")),
    };
    assert_eq!(c.aa_api_key(), Some("from-env"));
}

#[test]
fn aa_api_key_reads_either_spelling_of_the_source_name() {
    let mut c = Config::default();
    assert_eq!(c.aa_api_key(), None);

    c.sources.push((
        String::from("artificial_analysis"),
        source(Some("underscore-key"), None),
    ));
    assert_eq!(c.aa_api_key(), Some("underscore-key"));

    c.sources.insert(
        0,
        (
            String::from("artificial-analysis"),
            source(Some("dash-key"), None),
        ),
    );
    assert_eq!(c.aa_api_key(), Some("dash-key"));
}

#[test]
fn source_names_are_fixed() {
    assert_eq!(ArtificialAnalysis.name(), "artificial-analysis");
    assert_eq!(Aider.name(), "aider");
    assert_eq!(Arena.name(), "arena");
    assert_eq!(LiveBench.name(), "livebench");
    assert_eq!(Seal.name(), "seal");
    assert_eq!(SweBench.name(), "swebench");
    assert_eq!(SweRebench.name(), "swe-rebench");
    assert_eq!(TerminalBench.name(), "terminal-bench");
    assert_eq!(MockSource.name(), "mock");
}
