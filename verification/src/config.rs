//! Configuration defaults for the single-user local build.
//!
//! `Config` holds the runtime parameters of the embedding and storage paths;
//! override any field by constructing the struct directly.

use vstd::prelude::*;

verus! {

/// Default total deadline, in seconds, for an embedding request; generous
/// enough to tolerate a cold model load.
pub const DEFAULT_EMBED_TIMEOUT_SECS: u64 = 60;

/// Default TCP connect deadline, in seconds, for the embedding server.
pub const DEFAULT_EMBED_CONNECT_TIMEOUT_SECS: u64 = 5;

/// Runtime configuration of the core.
#[derive(Debug, Clone)]
pub struct Config {
    /// Path to the database directory.
    pub db_path: String,
    /// Name of the table that holds passages.
    pub table_name: String,
    /// Base URL of the local embedding server (no trailing slash).
    pub ollama_url: String,
    /// Name of the embedding model.
    pub embed_model: String,
    /// Expected dimension of the embedding vectors.
    pub embed_dim: usize,
    /// Total deadline of an embedding request, in seconds.
    pub embed_timeout_secs: u64,
    /// Connect deadline of an embedding request, in seconds.
    pub embed_connect_timeout_secs: u64,
}

impl Default for Config {
    fn default() -> (c: Self)
        ensures
            c.db_path@ == "./data/athenaeum"@,
            c.table_name@ == "passages"@,
            c.ollama_url@ == "http://localhost:11434"@,
            c.embed_model@ == "nomic-embed-text"@,
            c.embed_dim == 768,
            c.embed_timeout_secs == DEFAULT_EMBED_TIMEOUT_SECS,
            c.embed_connect_timeout_secs == DEFAULT_EMBED_CONNECT_TIMEOUT_SECS,
    {
        Config {
            db_path: String::from_str("./data/athenaeum"),
            table_name: String::from_str("passages"),
            ollama_url: String::from_str("http://localhost:11434"),
            embed_model: String::from_str("nomic-embed-text"),
            embed_dim: 768,
            embed_timeout_secs: DEFAULT_EMBED_TIMEOUT_SECS,
            embed_connect_timeout_secs: DEFAULT_EMBED_CONNECT_TIMEOUT_SECS,
        }
    }
}

} // verus!
