use vstd::prelude::*;

verus! {

/// A single metric value as a source reports it: an integer, a piece of
/// text, or a floating-point number carried opaquely as its IEEE-754 bit
/// pattern (the library never interprets the number; callers convert at the
/// edge).
#[derive(Debug, Clone, PartialEq)]
pub enum MetricValue {
    Float(u64),
    Int(i64),
    Text(String),
}

/// One model's scores from one source. `model` is the name as the source's
/// own normalization spelled it, `source_model_name` the raw spelling; the
/// two need not resolve alike under the identity resolver.
#[derive(Debug, Clone, PartialEq)]
pub struct ModelScore {
    pub model: String,
    pub source_model_name: String,
    pub metrics: Vec<(String, MetricValue)>,
    pub rank: Option<u32>,
}

/// How fetching one source went. `Fetched` is a fresh success, `Cached` a
/// success served from the cache; `Unavailable` means no attempt could be
/// made (a tool or key is absent), `Error` that an attempt was made and
/// failed.
#[derive(Debug, Clone, PartialEq)]
pub enum SourceStatus {
    Fetched,
    Cached,
    Unavailable,
    Error(String),
}

/// Everything one source contributed to a query.
#[derive(Debug, Clone, PartialEq)]
pub struct SourceResult {
    pub source: String,
    pub fetched_at: Option<i64>,
    pub status: SourceStatus,
    pub scores: Vec<ModelScore>,
}

/// Which query produced an output.
#[derive(Debug, Clone, PartialEq)]
pub struct QueryInfo {
    pub query_type: String,
    pub model: Option<String>,
    pub models: Option<Vec<String>>,
    pub top: Option<usize>,
}

/// The complete answer to one query.
#[derive(Debug, Clone, PartialEq)]
pub struct PondusOutput {
    pub timestamp: i64,
    pub query: QueryInfo,
    pub sources: Vec<SourceResult>,
}

} // verus!
