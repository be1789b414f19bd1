//! Aggregates AI-model benchmark scores from independent sources and lets a
//! caller rank, inspect or compare models by one canonical identity, though
//! every source spells model names differently. The identity resolution,
//! the freshness cache's record format and staleness rule, and the
//! fan-out/filter query pipeline are specified and verified here; network,
//! subprocess and file I/O live with the callers.

pub mod alias;
pub mod cache;
pub mod config;
pub mod models;
pub mod numbers;
pub mod output;
pub mod pipeline;
pub mod sources;
pub mod text;
