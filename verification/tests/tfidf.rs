use pilar_core::tfidf::{count_occurrences, TfidfConfig};
use pilar_core::types::Chunk;

fn chunk(text: &str) -> Chunk {
    Chunk { text: text.into(), source_path: "test.md".to_string(), source_line: None }
}

fn terms(words: &[&str]) -> Vec<String> {
    words.iter().map(|w| w.to_string()).collect()
}

fn permissive_config() -> TfidfConfig {
    TfidfConfig { min_occurrences: 1 }
}

#[test]
fn test_chunk_indices_captures_every_occurrence() {
    let chunks = vec![chunk("a"), chunk("b"), chunk("c"), chunk("d")];
    let terms_per_chunk = vec![terms(&["recurring"]), terms(&["other"]), terms(&["recurring"]), terms(&["recurring"])];

    let scores = count_occurrences(&chunks, &terms_per_chunk, &permissive_config());
    let recurring = scores.iter().find(|s| s.term == "recurring").unwrap();

    assert_eq!(recurring.chunk_indices, vec![0, 2, 3]);
}

#[test]
fn test_empty_corpus() {
    let scores = count_occurrences(&[], &[], &permissive_config());
    assert!(scores.is_empty());
}

#[test]
fn test_min_occurrences_filters_terms_below_floor() {
    let chunks = vec![chunk("a"), chunk("b"), chunk("c"), chunk("d"), chunk("e")];
    let terms_per_chunk = vec![
        terms(&["frequent", "rare"]),
        terms(&["frequent"]),
        terms(&["frequent"]),
        terms(&["frequent"]),
        terms(&["frequent"]),
    ];
    let config = TfidfConfig { min_occurrences: 3 };

    let scores = count_occurrences(&chunks, &terms_per_chunk, &config);

    assert!(scores.iter().any(|s| s.term == "frequent"), "should keep a term at or above the floor");
    assert!(scores.iter().all(|s| s.term != "rare"), "should drop a term below the floor entirely");
}

#[test]
fn test_min_occurrences_at_exactly_the_floor_survives() {
    let chunks = vec![chunk("a"), chunk("b")];
    let terms_per_chunk = vec![terms(&["twice"]), terms(&["twice"])];
    let config = TfidfConfig { min_occurrences: 2 };

    let scores = count_occurrences(&chunks, &terms_per_chunk, &config);
    assert!(scores.iter().any(|s| s.term == "twice"));
}

#[test]
fn test_source_attribution_points_to_first_occurrence() {
    let chunks = vec![
        Chunk { text: "first chunk".into(), source_path: "first.md".into(), source_line: Some(3) },
        Chunk { text: "second chunk".into(), source_path: "second.md".into(), source_line: Some(9) },
    ];
    let terms_per_chunk = vec![terms(&["recurring"]), terms(&["recurring"])];

    let scores = count_occurrences(&chunks, &terms_per_chunk, &permissive_config());
    let recurring = scores.iter().find(|s| s.term == "recurring").unwrap();
    assert_eq!(recurring.source_path, chunks[0].source_path);
    assert_eq!(recurring.source_line, Some(3));
}

#[test]
fn terms_come_in_order_of_first_occurrence_each_once() {
    let chunks = vec![chunk("a"), chunk("b"), chunk("c")];
    let terms_per_chunk = vec![terms(&["beta", "alpha"]), terms(&["gamma", "beta"]), terms(&["alpha"])];
    let scores = count_occurrences(&chunks, &terms_per_chunk, &permissive_config());
    let names: Vec<&str> = scores.iter().map(|s| s.term.as_str()).collect();
    assert_eq!(names, vec!["beta", "alpha", "gamma"]);
    assert_eq!(scores[0].chunk_indices, vec![0, 1]);
    assert_eq!(scores[1].chunk_indices, vec![0, 2]);
    assert_eq!(scores[2].chunk_indices, vec![1]);
}

#[test]
fn default_floor_is_ten() {
    assert_eq!(TfidfConfig::default().min_occurrences, 10);
}
