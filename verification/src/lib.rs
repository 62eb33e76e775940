//! The text-processing core of a knowledge-manifold builder: chunking of
//! source texts, n-gram term extraction, corpus-wide occurrence counting,
//! the prompts and checks of concept enrichment, the geometry class
//! decision, and shard naming and routing decisions.
pub mod text;
pub mod types;
pub mod ingest;
pub mod ner;
pub mod tfidf;
pub mod enrich;
pub mod embed;
pub mod geometry;
pub mod sharding;
