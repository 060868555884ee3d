use athenaeum::config::{Config, DEFAULT_EMBED_CONNECT_TIMEOUT_SECS, DEFAULT_EMBED_TIMEOUT_SECS};

#[test]
fn default_embed_dim_is_768() {
    assert_eq!(Config::default().embed_dim, 768);
}

#[test]
fn default_table_name_is_passages() {
    assert_eq!(Config::default().table_name, "passages");
}

#[test]
fn default_paths_urls_and_timeouts() {
    let c = Config::default();
    assert_eq!(c.db_path, "./data/athenaeum");
    assert_eq!(c.ollama_url, "http://localhost:11434");
    assert_eq!(c.embed_model, "nomic-embed-text");
    assert_eq!(c.embed_timeout_secs, 60);
    assert_eq!(c.embed_connect_timeout_secs, 5);
    assert_eq!(DEFAULT_EMBED_TIMEOUT_SECS, 60);
    assert_eq!(DEFAULT_EMBED_CONNECT_TIMEOUT_SECS, 5);
}
