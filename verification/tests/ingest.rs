use pilar_core::ingest::{chunk_text, IngestConfig};

#[test]
fn test_empty_text() {
    let chunks = chunk_text("", "empty.txt", &IngestConfig::default());
    assert!(chunks.is_empty());
}

#[test]
fn test_short_text_single_chunk() {
    let config = IngestConfig::default();
    let chunks = chunk_text("a short piece of text", "a.txt", &config);
    assert_eq!(chunks.len(), 1);
    assert_eq!(chunks[0].text, "a short piece of text");
}

#[test]
fn test_source_path_propagates_to_every_chunk() {
    let config = IngestConfig { chunk_size: 5, overlap: 1 };
    let path = "spacex_s1.txt";
    let chunks = chunk_text("a longer piece of text than one chunk", path, &config);
    assert!(chunks.len() > 1);
    assert!(chunks.iter().all(|c| c.source_path == path));
}

#[test]
fn test_sliding_window_overlap() {
    let config = IngestConfig { chunk_size: 10, overlap: 2 };
    let text = "0123456789ABCDEFGHIJ";
    let chunks = chunk_text(text, "t.txt", &config);

    assert_eq!(chunks[0].text, "0123456789");
    assert_eq!(chunks[1].text, "89ABCDEFGH");
}

#[test]
fn test_multibyte_utf8_does_not_panic_or_corrupt() {
    let text = "\u{201c}Extraordinary Popular Delusions\u{201d} \u{2014} a study in mania.";
    let config = IngestConfig { chunk_size: 10, overlap: 2 };
    let chunks = chunk_text(text, "mackay.txt", &config);

    assert!(!chunks.is_empty());
    for c in &chunks[..chunks.len() - 1] {
        assert_eq!(c.text.chars().count(), 10);
    }
}

#[test]
fn test_source_line_tracks_position_correctly() {
    let text = "line one\nline two\nline three\nline four\nline five";
    let config = IngestConfig { chunk_size: 10, overlap: 2 };
    let chunks = chunk_text(text, "lines.txt", &config);

    assert_eq!(chunks.len(), 6);
    assert_eq!(chunks[0].source_line, Some(1));
    assert_eq!(chunks[2].source_line, Some(2));
    assert_eq!(chunks[3].source_line, Some(3));
    assert_eq!(chunks[4].source_line, Some(4));
    assert_eq!(chunks[5].source_line, Some(5));
}

#[test]
fn default_config_is_two_thousand_with_two_hundred_overlap() {
    let config = IngestConfig::default();
    assert_eq!(config.chunk_size, 2000);
    assert_eq!(config.overlap, 200);
}

#[test]
fn consecutive_full_chunks_share_exactly_the_overlap() {
    let config = IngestConfig { chunk_size: 6, overlap: 3 };
    let chunks = chunk_text("abcdefghijkl", "o.txt", &config);
    // starts at 0, 3, 6, 9
    assert_eq!(chunks.len(), 4);
    for k in 0..chunks.len() - 1 {
        let this: Vec<char> = chunks[k].text.chars().collect();
        let next: Vec<char> = chunks[k + 1].text.chars().collect();
        assert_eq!(&this[3..], &next[..3]);
    }
    assert_eq!(chunks[3].text, "jkl");
}

#[test]
fn every_character_is_covered_and_last_window_is_cut_at_the_end() {
    let config = IngestConfig { chunk_size: 4, overlap: 1 };
    let chunks = chunk_text("abcdefghij", "c.txt", &config);
    let texts: Vec<&str> = chunks.iter().map(|c| c.text.as_str()).collect();
    assert_eq!(texts, vec!["abcd", "defg", "ghij", "j"]);
}

#[test]
fn zero_overlap_gives_disjoint_windows() {
    let config = IngestConfig { chunk_size: 3, overlap: 0 };
    let chunks = chunk_text("abcdefg", "z.txt", &config);
    let texts: Vec<&str> = chunks.iter().map(|c| c.text.as_str()).collect();
    assert_eq!(texts, vec!["abc", "def", "g"]);
}

#[test]
fn source_line_counts_newlines_strictly_before_the_start() {
    // a chunk starting right on a newline still belongs to the line that newline ends
    let config = IngestConfig { chunk_size: 2, overlap: 0 };
    let chunks = chunk_text("a\nb\n", "n.txt", &config);
    assert_eq!(chunks.len(), 2);
    assert_eq!(chunks[0].source_line, Some(1));
    assert_eq!(chunks[1].source_line, Some(2));
}
