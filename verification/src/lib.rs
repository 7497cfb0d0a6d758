//! Core logic of a website uptime monitor.
//!
//! Sites are registered under a unique alias and probed periodically over
//! HTTP; every probe appends one status observation. Raw observations are
//! folded into fixed-width time buckets, each carrying an uptime
//! percentage, and missing buckets are synthesized so that a chart always
//! shows a regular series. The store of sites and observations, the
//! bucketed queries, the gap-filling aggregator and the per-tick probing
//! rules live here with their contracts; network and database plumbing
//! stays outside.

pub mod argument_parsing;
pub mod prober;
pub mod stats;
pub mod store;
