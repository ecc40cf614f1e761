//! A registry of blockchain metadata mirrored from a git-hosted directory
//! tree into an in-memory relational store: chain documents are parsed and
//! upserted per commit, peer endpoints are derived and deduplicated by
//! canonical address, liveness verdicts are written back per endpoint, and
//! retention prunes all but the most recent commits.
pub mod api;
pub mod api_chain;
pub mod api_peer;
pub mod db_chain;
pub mod db_endpoint;
pub mod db_peer;
pub mod hydrate;
pub mod json;
pub mod laws;
pub mod liveness;
pub mod peers;
pub mod store;
pub mod text;
