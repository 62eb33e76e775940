use pilar_core::embed::{embed_url, EmbedConfig, EmbedError};

#[test]
fn test_default_config_targets_nomic_embed_text() {
    let config = EmbedConfig::default();
    assert_eq!(config.model, "nomic-embed-text");
    assert_eq!(config.base_url, "http://localhost:11434");
}

#[test]
fn embed_url_appends_the_embed_endpoint() {
    let config = EmbedConfig { base_url: "http://example:1".to_string(), model: "m".to_string() };
    assert_eq!(embed_url(&config), "http://example:1/api/embed");
}

#[test]
fn embed_error_messages() {
    assert_eq!(EmbedError::Request("refused".into()).message(), "couldn't reach Ollama: refused");
    assert_eq!(
        EmbedError::no_embeddings().message(),
        "unexpected response from Ollama: response contained no embeddings"
    );
}
