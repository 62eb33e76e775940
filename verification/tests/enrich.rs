use std::collections::HashMap;

use pilar_core::enrich::{
    build_name_prompt, build_summarize_prompt, chat_url, rank_chunks_by_signal_density, summarize_prompt,
    summary_context, validate_name, EnrichError,
};
use pilar_core::types::Chunk;

fn chunk(text: &str) -> Chunk {
    Chunk { text: text.to_string(), source_path: "test.md".to_string(), source_line: None }
}

/// The terms whose strength is above the threshold, as the ranking consumes them.
fn high_value(all_terms: &[&str], strengths: &HashMap<String, f64>, signal_threshold: f64) -> Vec<String> {
    all_terms
        .iter()
        .filter(|t| strengths.get(**t).copied().unwrap_or(0.0) > signal_threshold)
        .map(|t| t.to_string())
        .collect()
}

#[test]
fn test_rank_chunks_prefers_higher_signal_density() {
    let chunks = vec![chunk("manifold and geometry and distance all appear here"), chunk("manifold appears alone")];
    let all_terms = ["geometry", "distance"];
    let mut strengths = HashMap::new();
    strengths.insert("geometry".to_string(), 0.9);
    strengths.insert("distance".to_string(), 0.8);

    let ranked = rank_chunks_by_signal_density(&[0, 1], &chunks, &high_value(&all_terms, &strengths, 0.5));

    assert_eq!(chunks[ranked[0]].text, chunks[0].text);
}

#[test]
fn test_rank_chunks_ignores_terms_below_threshold() {
    let chunks = vec![chunk("weak term appears here"), chunk("nothing special here")];
    let all_terms = ["weak"];
    let mut strengths = HashMap::new();
    strengths.insert("weak".to_string(), 0.1);

    let ranked = rank_chunks_by_signal_density(&[0, 1], &chunks, &high_value(&all_terms, &strengths, 0.5));
    assert_eq!(ranked.len(), 2);
}

#[test]
fn ranking_is_stable_for_ties_and_case_insensitive() {
    let chunks = vec![
        chunk("nothing here"),
        chunk("ORBIT and Rocket"),
        chunk("just rocket"),
        chunk("nothing either"),
        chunk("rocket orbit"),
    ];
    let high = vec!["rocket".to_string(), "orbit".to_string()];
    let ranked = rank_chunks_by_signal_density(&[0, 1, 2, 3, 4], &chunks, &high);
    assert_eq!(ranked, vec![1, 4, 2, 0, 3]);
}

#[test]
fn test_validate_name_accepts_reasonable_name() {
    assert_eq!(validate_name("orbital mechanics", "fallback"), "orbital mechanics");
}

#[test]
fn test_validate_name_falls_back_on_too_many_words() {
    let proposed = "this is way too many words for a name";
    assert_eq!(validate_name(proposed, "fallback_term"), "fallback_term");
}

#[test]
fn test_validate_name_falls_back_on_too_long() {
    let proposed = "a".repeat(50);
    assert_eq!(validate_name(&proposed, "fallback_term"), "fallback_term");
}

#[test]
fn test_validate_name_lowercases_and_trims() {
    assert_eq!(validate_name("  Orbital Mechanics  ", "fallback"), "orbital mechanics");
}

#[test]
fn validate_name_boundaries() {
    assert_eq!(validate_name("one two three four", "f"), "one two three four");
    assert_eq!(validate_name("one two three four five", "f"), "f");
    assert_eq!(validate_name(&"b".repeat(40), "f"), "b".repeat(40));
    assert_eq!(validate_name(&"b".repeat(41), "f"), "f");
}

#[test]
fn test_summarize_prompt_contains_guardrails() {
    let prompt = build_summarize_prompt("manifold", "some excerpt text");
    assert!(prompt.contains("do not interpret"));
    assert!(prompt.contains("outside knowledge"));
    assert!(prompt.contains("without a clear description"));
}

#[test]
fn summarize_prompt_has_the_exact_layout() {
    let prompt = build_summarize_prompt("X", "CTX");
    let expected = format!(
        "You are summarizing a text document.\n\
Write exactly one sentence describing what \"{raw_term}\" refers to in the excerpts below.\n\
Use only information explicitly present in the text \u{2014} do not interpret, infer, or add outside knowledge.\n\
If the excerpts do not clearly describe \"{raw_term}\", write: \"This text mentions {raw_term} without a clear description.\"\n\
\n\
TEXT EXCERPTS:\n\
{context}\n\
\n\
One sentence description of \"{raw_term}\" based only on the text above:",
        raw_term = "X",
        context = "CTX"
    );
    assert_eq!(prompt, expected);
}

#[test]
fn test_name_prompt_excludes_generic_words_instruction() {
    let prompt = build_name_prompt("a test description");
    assert!(prompt.contains("Do not use generic words"));
}

#[test]
fn name_prompt_has_the_exact_layout() {
    let prompt = build_name_prompt("D");
    assert_eq!(
        prompt,
        "Based on this description, give a short 1-3 word name that captures what this concept is about.\n\
Do not use generic words like \"time\", \"one\", \"first\", \"number\".\n\
Use specific meaningful terms from the description.\n\
\n\
Description: D\n\
\n\
Respond with ONLY the name, nothing else. 2-3 words maximum:"
    );
}

#[test]
fn summary_context_joins_the_top_chunks() {
    let chunks = vec![chunk("zero"), chunk("one"), chunk("two")];
    assert_eq!(summary_context(&[2, 0, 1], &chunks, 2), "two\n---\nzero");
    assert_eq!(summary_context(&[1], &chunks, 5), "one");
    assert_eq!(summary_context(&[1, 2], &chunks, 0), "");
}

#[test]
fn summarize_prompt_uses_the_densest_chunks_first() {
    let chunks = vec![chunk("plain text"), chunk("rocket text"), chunk("other")];
    let prompt = summarize_prompt("rocket", &[0, 1], &chunks, &["rocket".to_string()], 1);
    assert_eq!(prompt, build_summarize_prompt("rocket", "rocket text"));
}

#[test]
fn chat_url_appends_the_chat_endpoint() {
    assert_eq!(chat_url("http://localhost:11434"), "http://localhost:11434/api/chat");
}

#[test]
fn enrich_error_messages() {
    assert_eq!(EnrichError::Request("down".into()).message(), "couldn't reach Ollama: down");
    assert_eq!(
        EnrichError::UnexpectedResponse("bad".into()).message(),
        "unexpected response from Ollama: bad"
    );
}
