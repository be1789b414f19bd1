use vstd::prelude::*;

use crate::text::str_eq;

verus! {

/// Per-source settings from the configuration file.
#[derive(Debug, Clone, PartialEq)]
pub struct SourceConfig {
    pub api_key: Option<String>,
    pub agent_browser_path: Option<String>,
}

/// Cache settings from the configuration file.
#[derive(Debug, Clone, PartialEq)]
pub struct CacheConfig {
    pub ttl_hours: u64,
}

/// Alias dataset settings from the configuration file.
#[derive(Debug, Clone, PartialEq)]
pub struct AliasConfig {
    pub path: Option<String>,
}

/// The program configuration: per-source settings keyed by source name,
/// cache and alias settings, and the API key that may also arrive through
/// the environment.
#[derive(Debug, Clone, PartialEq)]
pub struct Config {
    pub sources: Vec<(String, SourceConfig)>,
    pub cache: CacheConfig,
    pub alias: AliasConfig,
    pub aa_api_key: Option<String>,
}

/// The default time-to-live of a cached payload, in hours.
pub fn default_ttl() -> (r: u64)
    ensures
        r == 24,
{
    24
}

impl Default for SourceConfig {
    /// No key, no tool path.
    fn default() -> (r: SourceConfig)
        ensures
            r.api_key is None,
            r.agent_browser_path is None,
    {
        SourceConfig { api_key: None, agent_browser_path: None }
    }
}

impl Default for CacheConfig {
    /// The default time-to-live.
    fn default() -> (r: CacheConfig)
        ensures
            r.ttl_hours == 24,
    {
        CacheConfig { ttl_hours: default_ttl() }
    }
}

impl Default for AliasConfig {
    /// No override path.
    fn default() -> (r: AliasConfig)
        ensures
            r.path is None,
    {
        AliasConfig { path: None }
    }
}

impl Default for Config {
    /// No sources configured, default cache and alias settings, no key.
    fn default() -> (r: Config)
        ensures
            r.sources@.len() == 0,
            r.cache.ttl_hours == 24,
            r.alias.path is None,
            r.aa_api_key is None,
    {
        Config {
            sources: Vec::new(),
            cache: CacheConfig::default(),
            alias: AliasConfig::default(),
            aa_api_key: None,
        }
    }
}

/// The settings of the source with the given name, if it is configured.
pub open spec fn cfg_lookup(s: Seq<(String, SourceConfig)>, k: Seq<char>) -> Option<SourceConfig>
    decreases s.len(),
{
    if s.len() == 0 {
        None
    } else if s[0].0@ == k {
        Some(s[0].1)
    } else {
        cfg_lookup(s.drop_first(), k)
    }
}

/// The path of the browser-automation tool the scraping sources run: taken
/// from the "seal" source's settings if that source is configured, else
/// from "swe-rebench"'s, else the plain command name.
pub open spec fn agent_browser_path_spec(c: Config) -> Seq<char> {
    let chosen = match cfg_lookup(c.sources@, "seal"@) {
        Some(sc) => Some(sc),
        None => cfg_lookup(c.sources@, "swe-rebench"@),
    };
    match chosen {
        Some(sc) => match sc.agent_browser_path {
            Some(p) => p@,
            None => "agent-browser"@,
        },
        None => "agent-browser"@,
    }
}

/// The API key for the artificial-analysis source: the one from the
/// environment wins, else the key configured under either spelling of the
/// source's name.
pub open spec fn aa_api_key_spec(c: Config) -> Option<Seq<char>> {
    match c.aa_api_key {
        Some(k) => Some(k@),
        None => {
            let chosen = match cfg_lookup(c.sources@, "artificial-analysis"@) {
                Some(sc) => Some(sc),
                None => cfg_lookup(c.sources@, "artificial_analysis"@),
            };
            match chosen {
                Some(sc) => match sc.api_key {
                    Some(k) => Some(k@),
                    None => None,
                },
                None => None,
            }
        },
    }
}

/// A miss on the first `i` entries pushes the whole lookup past them.
proof fn lemma_cfg_lookup_skip(s: Seq<(String, SourceConfig)>, k: Seq<char>, i: int)
    requires
        0 <= i <= s.len(),
        forall|j: int| 0 <= j < i ==> (#[trigger] s[j]).0@ != k,
    ensures
        cfg_lookup(s, k) == cfg_lookup(s.skip(i), k),
    decreases i,
{
    if i > 0 {
        assert(s.drop_first() =~= s.skip(1));
        lemma_cfg_lookup_skip(s.skip(1), k, i - 1);
        assert(s.skip(1).skip(i - 1) =~= s.skip(i));
    } else {
        assert(s.skip(0) =~= s);
    }
}

impl Config {
    /// The settings of the source with the given name, if it is configured.
    fn find_source(&self, name: &str) -> (r: Option<&SourceConfig>)
        ensures
            match r {
                Some(sc) => cfg_lookup(self.sources@, name@) == Some(*sc),
                None => cfg_lookup(self.sources@, name@) is None,
            },
    {
        let n = self.sources.len();
        let mut i: usize = 0;
        while i < n
            invariant
                n == self.sources@.len(),
                i <= n,
                forall|j: int| 0 <= j < i ==> (#[trigger] self.sources@[j]).0@ != name@,
            decreases n - i,
        {
            let p = &self.sources[i];
            if str_eq(p.0.as_str(), name) {
                proof {
                    lemma_cfg_lookup_skip(self.sources@, name@, i as int);
                    assert(self.sources@.skip(i as int)[0] == self.sources@[i as int]);
                }
                return Some(&p.1);
            }
            i = i + 1;
        }
        proof {
            lemma_cfg_lookup_skip(self.sources@, name@, i as int);
            assert(self.sources@.skip(i as int).len() == 0);
        }
        None
    }

    /// The path of the browser-automation tool, with its fallbacks (see
    /// `agent_browser_path_spec`).
    pub fn agent_browser_path(&self) -> (r: &str)
        ensures
            r@ == agent_browser_path_spec(*self),
    {
        let chosen = match self.find_source("seal") {
            Some(sc) => Some(sc),
            None => self.find_source("swe-rebench"),
        };
        match chosen {
            Some(sc) => match &sc.agent_browser_path {
                Some(p) => p.as_str(),
                None => "agent-browser",
            },
            None => "agent-browser",
        }
    }

    /// The API key for the artificial-analysis source, with its fallbacks
    /// (see `aa_api_key_spec`).
    pub fn aa_api_key(&self) -> (r: Option<&str>)
        ensures
            match r {
                Some(k) => aa_api_key_spec(*self) == Some(k@),
                None => aa_api_key_spec(*self) is None,
            },
    {
        match &self.aa_api_key {
            Some(k) => Some(k.as_str()),
            None => {
                let chosen = match self.find_source("artificial-analysis") {
                    Some(sc) => Some(sc),
                    None => self.find_source("artificial_analysis"),
                };
                match chosen {
                    Some(sc) => match &sc.api_key {
                        Some(k) => Some(k.as_str()),
                        None => None,
                    },
                    None => None,
                }
            },
        }
    }
}

} // verus!
