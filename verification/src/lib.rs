//! Indexed code retrieval: shard files, layered freshness, tiered call
//! resolution, hybrid recall and the request protocol that serves them.

pub mod api;
pub mod ask;
pub mod ask_laws;
pub mod bytes;
pub mod cli;
pub mod cli_laws;
pub mod daemon;
pub mod daemon_laws;
pub mod delta;
pub mod finder;
pub mod format_laws;
pub mod graph_build;
pub mod graph_json;
pub mod graph_laws;
pub mod hash;
pub mod indexset;
pub mod indexset_laws;
pub mod ingest;
pub mod ingest_laws;
pub mod json;
pub mod order;
pub mod overlay;
pub mod posting;
pub mod reopen_laws;
pub mod resolve;
pub mod resolve_laws;
pub mod seqs;
pub mod serve_laws;
pub mod shard;
pub mod shard_builder;
pub mod shard_format;
pub mod shard_laws;
pub mod text;
pub mod text_laws;
pub mod text_set;
pub mod varint;
pub mod words;
pub mod words_laws;
