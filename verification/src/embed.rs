//! Configuration and errors of the embedding client, and the endpoint it posts to.
use vstd::prelude::*;
use vstd::string::StringExecFns;

verus! {

/// Where the embedding service runs and which model it embeds with.
pub struct EmbedConfig {
    /// Base URL of the Ollama service.
    pub base_url: String,
    /// Embedding model name.
    pub model: String,
}

impl Default for EmbedConfig {
    fn default() -> (c: Self)
        ensures
            c.base_url@ == "http://localhost:11434"@,
            c.model@ == "nomic-embed-text"@,
    {
        EmbedConfig {
            base_url: String::from_str("http://localhost:11434"),
            model: String::from_str("nomic-embed-text"),
        }
    }
}

/// What can go wrong asking for an embedding.
#[derive(Debug)]
pub enum EmbedError {
    /// The service could not be reached at all.
    Request(String),
    /// The service answered, but not with an embeddings array.
    UnexpectedResponse(String),
}

impl EmbedError {
    /// The human-readable description of the error.
    pub fn message(&self) -> (m: String)
        ensures
            m@ == match self {
                EmbedError::Request(msg) => "couldn't reach Ollama: "@ + msg@,
                EmbedError::UnexpectedResponse(msg) => "unexpected response from Ollama: "@ + msg@,
            },
    {
        match self {
            EmbedError::Request(msg) => {
                let mut m = String::from_str("couldn't reach Ollama: ");
                m.append(msg.as_str());
                m
            },
            EmbedError::UnexpectedResponse(msg) => {
                let mut m = String::from_str("unexpected response from Ollama: ");
                m.append(msg.as_str());
                m
            },
        }
    }

    /// The error for a response that held no embedding at all.
    pub fn no_embeddings() -> (e: Self)
        ensures
            e matches EmbedError::UnexpectedResponse(msg) && msg@ == "response contained no embeddings"@,
    {
        EmbedError::UnexpectedResponse(String::from_str("response contained no embeddings"))
    }
}

/// The URL that embedding requests are posted to.
pub fn embed_url(config: &EmbedConfig) -> (url: String)
    ensures
        url@ == config.base_url@ + "/api/embed"@,
{
    let mut url = config.base_url.clone();
    url.append("/api/embed");
    url
}

} // verus!
