use pilar_core::ner::{
    build_extractor, build_extractor_with_config, build_stopword_set, extract_terms, ngram_terms, tokenize,
    NerConfig,
};

fn stopwords() -> Vec<String> {
    build_stopword_set()
}

fn has(terms: &[String], t: &str) -> bool {
    terms.iter().any(|x| x == t)
}

#[test]
fn test_unigram_content_word_included() {
    let sw = stopwords();
    let tokens = vec!["witchcraft".to_string()];
    let terms = ngram_terms(&tokens, &sw, 3);
    assert!(has(&terms, "witchcraft"));
}

#[test]
fn test_unigram_stopword_excluded() {
    let sw = stopwords();
    let tokens = vec!["the".to_string()];
    let terms = ngram_terms(&tokens, &sw, 3);
    assert!(terms.is_empty());
}

#[test]
fn test_bigram_internal_stopword_allowed() {
    let sw = stopwords();
    let tokens = vec!["bank".to_string(), "of".to_string(), "america".to_string()];
    let terms = ngram_terms(&tokens, &sw, 3);
    assert!(has(&terms, "bank of america"), "got: {:?}", terms);
}

#[test]
fn test_bigram_leading_stopword_excluded() {
    let sw = stopwords();
    let tokens = vec!["of".to_string(), "the".to_string(), "bank".to_string()];
    let terms = ngram_terms(&tokens, &sw, 3);
    assert!(!has(&terms, "of the bank"), "got: {:?}", terms);
}

#[test]
fn test_bigram_trailing_stopword_excluded() {
    let sw = stopwords();
    let tokens = vec!["bank".to_string(), "of".to_string()];
    let terms = ngram_terms(&tokens, &sw, 2);
    assert!(!has(&terms, "bank of"), "got: {:?}", terms);
}

#[test]
fn test_ngrams_up_to_max_n_only() {
    let sw = stopwords();
    let tokens = vec!["alpha".to_string(), "beta".to_string(), "gamma".to_string(), "delta".to_string()];
    let terms = ngram_terms(&tokens, &sw, 2);
    assert!(has(&terms, "alpha beta"));
    assert!(!has(&terms, "alpha beta gamma"));
}

#[test]
fn test_length_floor_applied() {
    let sw = stopwords();
    let tokens = vec!["ok".to_string()];
    let terms = ngram_terms(&tokens, &sw, 1);
    assert!(terms.is_empty());
}

#[test]
fn test_extracts_proper_nouns() {
    let extractor = build_extractor();
    let text = "SpaceX reported revenue growth. Elon Musk remains Chief Executive Officer.";
    let terms = extract_terms(text, &extractor);

    assert!(terms.iter().any(|t| t.contains("spacex")), "got: {:?}", terms);
    assert!(terms.iter().any(|t| t.contains("elon musk")), "got: {:?}", terms);
}

#[test]
fn test_stopword_only_text_yields_nothing() {
    let extractor = build_extractor();
    let text = "the a an of to in on at";
    let terms = extract_terms(text, &extractor);
    assert!(terms.is_empty(), "got: {:?}", terms);
}

#[test]
fn test_deterministic_across_calls() {
    let extractor = build_extractor();
    let text = "Jean Valjean spent nineteen years in the galleys at Toulon.";
    let a = extract_terms(text, &extractor);
    let b = extract_terms(text, &extractor);
    assert_eq!(a, b);
}

#[test]
fn test_short_fragments_filtered() {
    let extractor = build_extractor();
    let text = "ok an it is";
    let terms = extract_terms(text, &extractor);
    assert!(terms.iter().all(|t| t.len() > 2));
}

#[test]
fn test_internal_stopword_phrase_survives() {
    let extractor = build_extractor();
    let text = "Bank of America reported earnings.";
    let terms = extract_terms(text, &extractor);
    assert!(terms.iter().any(|t| t == "bank of america"), "got: {:?}", terms);
}

#[test]
fn test_max_n_config_respected() {
    let extractor = build_extractor_with_config(NerConfig { max_n: 1 });
    let text = "orbital mechanics governs trajectories.";
    let terms = extract_terms(text, &extractor);
    assert!(terms.iter().all(|t| !t.contains(' ')), "got: {:?}", terms);
}

#[test]
fn test_max_n_2_produces_bigrams() {
    let extractor = build_extractor_with_config(NerConfig { max_n: 2 });
    let text = "orbital mechanics governs trajectories.";
    let terms = extract_terms(text, &extractor);
    assert!(terms.iter().any(|t| t.contains(' ')), "got: {:?}", terms);
}

#[test]
fn tokenize_strips_punctuation_and_lowercases() {
    let toks = tokenize("  \"Hello,\" said Dr. SMITH -- (twice)!  ");
    assert_eq!(toks, vec!["hello", "said", "dr", "smith", "twice"]);
}

#[test]
fn tokenize_keeps_inner_punctuation() {
    let toks = tokenize("e-mail U.S.A. don't");
    assert_eq!(toks, vec!["e-mail", "u.s.a", "don't"]);
}

#[test]
fn terms_are_distinct_even_when_a_phrase_repeats() {
    let sw = stopwords();
    let tokens: Vec<String> = ["rocket", "rocket", "rocket"].iter().map(|s| s.to_string()).collect();
    let terms = ngram_terms(&tokens, &sw, 2);
    let mut sorted = terms.clone();
    sorted.sort();
    assert_eq!(sorted, vec!["rocket".to_string(), "rocket rocket".to_string()]);
}

#[test]
fn length_floor_counts_bytes_not_characters() {
    let sw = stopwords();
    // two characters, four bytes: survives the more-than-two-bytes floor
    let tokens = vec!["\u{e9}\u{e9}".to_string()];
    let terms = ngram_terms(&tokens, &sw, 1);
    assert_eq!(terms, vec!["\u{e9}\u{e9}".to_string()]);
}

#[test]
fn max_n_zero_yields_nothing() {
    let sw = stopwords();
    let tokens = vec!["witchcraft".to_string()];
    assert!(ngram_terms(&tokens, &sw, 0).is_empty());
}

#[test]
fn default_config_max_n_is_three() {
    assert_eq!(NerConfig::default().max_n, 3);
}

#[test]
fn raising_max_n_only_adds_terms() {
    let sw = stopwords();
    let tokens: Vec<String> = ["orbital", "mechanics", "of", "rockets"].iter().map(|s| s.to_string()).collect();
    let small = ngram_terms(&tokens, &sw, 2);
    let large = ngram_terms(&tokens, &sw, 4);
    assert!(small.iter().all(|t| large.contains(t)));
    assert!(has(&large, "orbital mechanics of rockets"));
}
