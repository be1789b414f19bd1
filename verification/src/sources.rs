use vstd::prelude::*;

use crate::text::{contains_seq, lower, lowercase, str_contains, str_eq};

verus! {

/// The Artificial Analysis leaderboard.
pub struct ArtificialAnalysis;

/// The Aider polyglot leaderboard.
pub struct Aider;

/// The LMArena leaderboard.
pub struct Arena;

/// The LiveBench leaderboard.
pub struct LiveBench;

/// The SEAL leaderboards.
pub struct Seal;

/// The SWE-bench leaderboard.
pub struct SweBench;

/// The SWE-rebench leaderboard.
pub struct SweRebench;

/// The Terminal-Bench leaderboard.
pub struct TerminalBench;

/// A fixed in-memory source for development and tests.
pub struct MockSource;

impl ArtificialAnalysis {
    /// This source's registration name.
    pub fn name(&self) -> (r: &str)
        ensures
            r@ == "artificial-analysis"@,
    {
        "artificial-analysis"
    }
}

impl Aider {
    /// This source's registration name.
    pub fn name(&self) -> (r: &str)
        ensures
            r@ == "aider"@,
    {
        "aider"
    }
}

impl Arena {
    /// This source's registration name.
    pub fn name(&self) -> (r: &str)
        ensures
            r@ == "arena"@,
    {
        "arena"
    }
}

impl LiveBench {
    /// This source's registration name.
    pub fn name(&self) -> (r: &str)
        ensures
            r@ == "livebench"@,
    {
        "livebench"
    }
}

impl Seal {
    /// This source's registration name.
    pub fn name(&self) -> (r: &str)
        ensures
            r@ == "seal"@,
    {
        "seal"
    }
}

impl SweBench {
    /// This source's registration name.
    pub fn name(&self) -> (r: &str)
        ensures
            r@ == "swebench"@,
    {
        "swebench"
    }
}

impl SweRebench {
    /// This source's registration name.
    pub fn name(&self) -> (r: &str)
        ensures
            r@ == "swe-rebench"@,
    {
        "swe-rebench"
    }
}

impl TerminalBench {
    /// This source's registration name.
    pub fn name(&self) -> (r: &str)
        ensures
            r@ == "terminal-bench"@,
    {
        "terminal-bench"
    }
}

impl MockSource {
    /// This source's registration name.
    pub fn name(&self) -> (r: &str)
        ensures
            r@ == "mock"@,
    {
        "mock"
    }
}

/// The position of the first occurrence of a character at or after `from`.
pub open spec fn first_at(s: Seq<char>, c: char, from: int) -> Option<int>
    decreases s.len() - from,
{
    if from < 0 || from >= s.len() {
        None
    } else if s[from] == c {
        Some(from)
    } else {
        first_at(s, c, from + 1)
    }
}

/// What an accessibility-tree cell line carries: the text between the first
/// two double quotes, if the line has two.
pub open spec fn cell_value(line: Seq<char>) -> Option<Seq<char>> {
    match first_at(line, '"', 0) {
        None => None,
        Some(i) => match first_at(line, '"', i + 1) {
            None => None,
            Some(j) => Some(line.subrange(i + 1, j)),
        },
    }
}

/// Find the first occurrence of a character at or after `from`.
fn find_char(s: &str, c: char, from: usize) -> (r: Option<usize>)
    requires
        from <= s@.len(),
    ensures
        match r {
            Some(i) => from <= i < s@.len() && s@[i as int] == c && first_at(s@, c, from as int)
                == Some(i as int),
            None => first_at(s@, c, from as int) is None,
        },
{
    let n = s.unicode_len();
    let mut i = from;
    while i < n
        invariant
            n == s@.len(),
            from <= i <= n,
            first_at(s@, c, from as int) == first_at(s@, c, i as int),
        decreases n - i,
    {
        if s.get_char(i) == c {
            return Some(i);
        }
        i = i + 1;
    }
    None
}

/// Extract the quoted value from an accessibility-tree line such as
/// `- cell "some value" [ref=...]`.
pub fn extract_cell_value(line: &str) -> (r: Option<String>)
    ensures
        match r {
            Some(v) => cell_value(line@) == Some(v@),
            None => cell_value(line@) is None,
        },
{
    let n = line.unicode_len();
    let i = match find_char(line, '"', 0) {
        Some(i) => i,
        None => {
            return None;
        },
    };
    proof {
        assert(i < n);
    }
    let j = match find_char(line, '"', i + 1) {
        Some(j) => j,
        None => {
            return None;
        },
    };
    let v = line.substring_char(i + 1, j);
    Some(String::from_str(v))
}

/// Whether a line of scraped leaderboard text is page furniture rather than
/// a data row: its lowercased text contains one of the fixed skip terms.
pub open spec fn should_skip(line: Seq<char>) -> bool {
    let low = lower(line);
    contains_seq(low, "leaderboard"@) || contains_seq(low, "benchmark"@) || contains_seq(
        low,
        "rank model"@,
    ) || contains_seq(low, "resolved rate"@) || contains_seq(low, "updated"@) || contains_seq(
        low,
        "loading"@,
    ) || contains_seq(low, "search"@) || contains_seq(low, "filter"@) || contains_seq(
        low,
        "about"@,
    ) || contains_seq(low, "paper"@) || contains_seq(low, "data"@)
}

/// Decide whether a line of scraped leaderboard text should be skipped.
pub fn should_skip_line(line: &str) -> (r: bool)
    ensures
        r == should_skip(line@),
{
    let low = lowercase(line);
    let l = low.as_str();
    str_contains(l, "leaderboard") || str_contains(l, "benchmark") || str_contains(l, "rank model")
        || str_contains(l, "resolved rate") || str_contains(l, "updated") || str_contains(
        l,
        "loading",
    ) || str_contains(l, "search") || str_contains(l, "filter") || str_contains(l, "about")
        || str_contains(l, "paper") || str_contains(l, "data")
}

/// Whether a character is an ASCII letter.
pub open spec fn is_ascii_alpha(c: char) -> bool {
    ('a' <= c && c <= 'z') || ('A' <= c && c <= 'Z')
}

/// Whether a scraped token run plausibly names a model: neither too short
/// nor too long, not one of the fixed column words, and holding at least
/// one letter.
pub open spec fn likely_model_name(n: Seq<char>) -> bool {
    &&& 2 <= n.len() <= 120
    &&& lower(n) != "overall"@
    &&& lower(n) != "composite"@
    &&& lower(n) != "score"@
    &&& lower(n) != "rank"@
    &&& lower(n) != "model"@
    &&& lower(n) != "resolved"@
    &&& lower(n) != "rate"@
    &&& exists|i: int| 0 <= i < n.len() && is_ascii_alpha(#[trigger] n[i])
}

/// Decide whether a scraped token run plausibly names a model.
pub fn is_likely_model_name(name: &str) -> (r: bool)
    ensures
        r == likely_model_name(name@),
{
    let n = name.unicode_len();
    if n < 2 || n > 120 {
        return false;
    }
    let low = lowercase(name);
    let l = low.as_str();
    if str_eq(l, "overall") || str_eq(l, "composite") || str_eq(l, "score") || str_eq(l, "rank")
        || str_eq(l, "model") || str_eq(l, "resolved") || str_eq(l, "rate") {
        return false;
    }
    let mut i: usize = 0;
    while i < n
        invariant
            n == name@.len(),
            2 <= n <= 120,
            lower(name@) != "overall"@,
            lower(name@) != "composite"@,
            lower(name@) != "score"@,
            lower(name@) != "rank"@,
            lower(name@) != "model"@,
            lower(name@) != "resolved"@,
            lower(name@) != "rate"@,
            i <= n,
            forall|j: int| 0 <= j < i ==> !is_ascii_alpha(#[trigger] name@[j]),
        decreases n - i,
    {
        let c = name.get_char(i);
        if ('a' <= c && c <= 'z') || ('A' <= c && c <= 'Z') {
            return true;
        }
        i = i + 1;
    }
    false
}

} // verus!
