use opendocu::chunk::{Chunk, ChunkStrategy, Chunker};

fn sample() -> &'static str {
    "First sentence here. Second sentence is longer than the first one. \
     Third sentence concludes the first paragraph.\n\n\
     Fourth sentence starts a new paragraph. Fifth sentence ends it."
}

#[test]
fn fixed_size_produces_overlapping_windows() {
    let chunks = Chunker::chunk("abcdefghij", &ChunkStrategy::Fixed { size: 4, overlap: 2 });
    assert!(chunks.len() >= 2);
    assert_eq!(chunks[0].text, "abcdefgh".chars().take(4).collect::<String>());
}

#[test]
fn sentence_strategy_groups_sentences() {
    let chunks = Chunker::chunk(sample(), &ChunkStrategy::Sentence { max_tokens: 100 });
    assert!(chunks.len() >= 1);
    assert!(chunks[0].token_estimate > 0);
}

#[test]
fn sentence_strategy_splits_on_budget() {
    let chunks = Chunker::chunk(sample(), &ChunkStrategy::Sentence { max_tokens: 10 });
    assert!(chunks.len() > 1);
}

#[test]
fn paragraph_strategy_one_per_para() {
    let chunks = Chunker::chunk(sample(), &ChunkStrategy::Paragraph);
    assert_eq!(chunks.len(), 2);
}

#[test]
fn recursive_splits_on_separators() {
    let text = "Topic A. Detail one. Detail two. Topic B. Detail three.";
    let chunks = Chunker::chunk(
        text,
        &ChunkStrategy::Recursive {
            separators: vec![". ".to_string()],
            max_tokens: 5,
        },
    );
    assert!(chunks.len() > 1);
}

#[test]
fn chunks_have_sequential_indices() {
    let chunks = Chunker::chunk(sample(), &ChunkStrategy::Sentence { max_tokens: 5 });
    for (i, c) in chunks.iter().enumerate() {
        assert_eq!(c.index, i);
    }
}

#[test]
fn empty_text_produces_no_chunks() {
    assert!(Chunker::chunk("", &ChunkStrategy::Paragraph).is_empty());
}

#[test]
fn token_estimate_is_positive_for_text() {
    assert!(Chunk::estimate_tokens("hello world this is a test") > 0);
}
