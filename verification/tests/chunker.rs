use rag_cli_app::chunker::split;

#[test]
fn split_empty_yields_no_chunks() {
    let chunks = split("", 8, "doc");
    assert_eq!(chunks.len(), 0);
}

#[test]
fn split_whitespace_only_yields_no_chunks() {
    let chunks = split("   \n\t  ", 5, "doc");
    assert_eq!(chunks.len(), 0);
}

#[test]
fn split_sentences_within_bound() {
    let chunks = split("A cat sat. A dog ran.", 8, "doc");
    let texts: Vec<&str> = chunks.iter().map(|c| c.text.as_str()).collect();
    assert_eq!(texts, vec!["A cat sat.", "A dog ran."]);
}

#[test]
fn split_is_deterministic() {
    let a = split("Alpha beta. Gamma delta. Epsilon.", 10, "doc");
    let b = split("Alpha beta. Gamma delta. Epsilon.", 10, "doc");
    assert_eq!(a.len(), b.len());
    for (x, y) in a.iter().zip(b.iter()) {
        assert_eq!(x.text, y.text);
        assert_eq!(x.sequence_index, y.sequence_index);
        assert_eq!(x.source_id, y.source_id);
    }
}

#[test]
fn split_indices_start_at_zero_and_increase() {
    let chunks = split("One. Two. Three.", 8, "src");
    assert_eq!(chunks.len(), 3);
    for (i, c) in chunks.iter().enumerate() {
        assert_eq!(c.sequence_index, i);
        assert_eq!(c.source_id, "src");
    }
}

#[test]
fn split_hard_cuts_overlong_sentence() {
    let chunks = split("aaaa bbbb cccc.", 4, "doc");
    let texts: Vec<&str> = chunks.iter().map(|c| c.text.as_str()).collect();
    assert_eq!(texts, vec!["aaaa", " bbb", "b cc", "cc."]);
    for c in &chunks {
        let weight = c.text.chars().filter(|ch| !ch.is_whitespace()).count();
        assert!(weight <= 4);
        assert!(!c.text.is_empty());
    }
}

#[test]
fn split_trims_sentence_whitespace() {
    let chunks = split("  Hello there.   General greeting. ", 32, "doc");
    let texts: Vec<&str> = chunks.iter().map(|c| c.text.as_str()).collect();
    assert_eq!(texts, vec!["Hello there.", "General greeting."]);
}
