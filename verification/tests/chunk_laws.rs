use opendocu::chunk::{Chunk, ChunkStrategy, Chunker, HeuristicTokenCounter, TokenCounter};

#[test]
fn estimate_rounds_words_times_one_point_three() {
    assert_eq!(Chunk::estimate_tokens(""), 0);
    assert_eq!(Chunk::estimate_tokens("one"), 1);
    assert_eq!(Chunk::estimate_tokens("a b"), 3);
    assert_eq!(Chunk::estimate_tokens("a b c d e"), 7);
    assert_eq!(Chunk::estimate_tokens("a b c d e f"), 8);
    assert_eq!(Chunk::estimate_tokens("  spaced\tout\nwords  "), 4);
    assert_eq!(HeuristicTokenCounter.count("a b c d e"), 7);
}

#[test]
fn fixed_windows_are_exact() {
    let chunks = Chunker::chunk("abcdefghij", &ChunkStrategy::Fixed { size: 4, overlap: 2 });
    let texts: Vec<&str> = chunks.iter().map(|c| c.text.as_str()).collect();
    assert_eq!(texts, vec!["abcd", "cdef", "efgh", "ghij"]);
    let offsets: Vec<usize> = chunks.iter().map(|c| c.start_offset).collect();
    assert_eq!(offsets, vec![0, 2, 4, 6]);
    for (i, c) in chunks.iter().enumerate() {
        assert_eq!(c.index, i);
        assert!(c.text.chars().count() <= 4);
        assert!(c.metadata.is_empty());
    }
}

#[test]
fn fixed_windows_step_one_when_overlap_covers_size() {
    let chunks = Chunker::chunk("abcd", &ChunkStrategy::Fixed { size: 2, overlap: 5 });
    let texts: Vec<&str> = chunks.iter().map(|c| c.text.as_str()).collect();
    assert_eq!(texts, vec!["ab", "bc", "cd"]);
}

#[test]
fn fixed_windows_of_size_zero_give_nothing() {
    assert!(Chunker::chunk("abc", &ChunkStrategy::Fixed { size: 0, overlap: 0 }).is_empty());
}

#[test]
fn fixed_window_offsets_count_bytes() {
    let chunks = Chunker::chunk("héllo", &ChunkStrategy::Fixed { size: 2, overlap: 0 });
    let texts: Vec<&str> = chunks.iter().map(|c| c.text.as_str()).collect();
    assert_eq!(texts, vec!["hé", "ll", "o"]);
    let offsets: Vec<usize> = chunks.iter().map(|c| c.start_offset).collect();
    assert_eq!(offsets, vec![0, 3, 5]);
}

#[test]
fn fixed_windows_drop_blank_ones_and_renumber() {
    let chunks = Chunker::chunk("ab    cd", &ChunkStrategy::Fixed { size: 2, overlap: 0 });
    let texts: Vec<&str> = chunks.iter().map(|c| c.text.as_str()).collect();
    assert_eq!(texts, vec!["ab", "cd"]);
    assert_eq!(chunks[1].index, 1);
    assert_eq!(chunks[1].start_offset, 6);
}

#[test]
fn paragraph_chunks_are_numbered_by_place_in_the_list() {
    let chunks = Chunker::chunk("a\n\n\n\nb", &ChunkStrategy::Paragraph);
    assert_eq!(chunks.len(), 2);
    assert_eq!(chunks[0].index, 0);
    assert_eq!(chunks[0].start_offset, 0);
    assert_eq!(chunks[1].text, "b");
    assert_eq!(chunks[1].index, 1);
    assert_eq!(chunks[1].start_offset, 5);
}

#[test]
fn sentence_chunks_split_on_budget_with_offsets() {
    let chunks = Chunker::chunk("Hello there. General Kenobi.", &ChunkStrategy::Sentence { max_tokens: 2 });
    assert_eq!(chunks.len(), 2);
    assert_eq!(chunks[0].text, "Hello there.");
    assert_eq!(chunks[0].start_offset, 0);
    assert_eq!(chunks[0].token_estimate, 3);
    assert_eq!(chunks[1].text, "General Kenobi.");
    assert_eq!(chunks[1].start_offset, 13);
    assert_eq!(chunks[1].index, 1);
}

#[test]
fn sentence_chunks_group_within_budget() {
    let chunks = Chunker::chunk("Hello there. General Kenobi.", &ChunkStrategy::Semantic { target_tokens: 100 });
    assert_eq!(chunks.len(), 1);
    assert_eq!(chunks[0].text, "Hello there.  General Kenobi.");
    assert_eq!(chunks[0].token_estimate, 5);
}

#[test]
fn recursive_chunks_merge_and_carry_offsets() {
    let text = "aa bb. cc dd. ee";
    let chunks = Chunker::chunk(
        text,
        &ChunkStrategy::Recursive { separators: vec![". ".to_string()], max_tokens: 3 },
    );
    let texts: Vec<&str> = chunks.iter().map(|c| c.text.as_str()).collect();
    assert_eq!(texts, vec!["aa bb", "cc dd", "ee"]);
    let offsets: Vec<usize> = chunks.iter().map(|c| c.start_offset).collect();
    assert_eq!(offsets, vec![0, 7, 14]);
    assert_eq!(chunks[2].index, 2);
}

#[test]
fn recursive_chunks_merge_small_pieces() {
    let chunks = Chunker::chunk(
        "a b c d e",
        &ChunkStrategy::Recursive { separators: vec![" ".to_string()], max_tokens: 4 },
    );
    let texts: Vec<&str> = chunks.iter().map(|c| c.text.as_str()).collect();
    assert_eq!(texts, vec!["a b c", "d e"]);
    let offsets: Vec<usize> = chunks.iter().map(|c| c.start_offset).collect();
    assert_eq!(offsets, vec![0, 6]);
}

#[test]
fn recursive_chunks_keep_small_text_whole() {
    let chunks = Chunker::chunk(
        "short text",
        &ChunkStrategy::Recursive { separators: vec![" ".to_string()], max_tokens: 10 },
    );
    assert_eq!(chunks.len(), 1);
    assert_eq!(chunks[0].text, "short text");
}

#[test]
fn empty_text_gives_no_chunks_for_any_strategy() {
    let strategies = vec![
        ChunkStrategy::Fixed { size: 3, overlap: 1 },
        ChunkStrategy::Sentence { max_tokens: 5 },
        ChunkStrategy::Paragraph,
        ChunkStrategy::Recursive { separators: vec![". ".to_string(), "".to_string()], max_tokens: 1 },
        ChunkStrategy::Semantic { target_tokens: 5 },
        ChunkStrategy::default(),
    ];
    for s in &strategies {
        assert!(Chunker::chunk("", s).is_empty());
    }
}

#[test]
fn chunk_texts_are_trimmed_and_estimated() {
    let text = "  One two.  Three four five.\n\n  Six.  ";
    let strategies = vec![
        ChunkStrategy::Fixed { size: 7, overlap: 3 },
        ChunkStrategy::Sentence { max_tokens: 3 },
        ChunkStrategy::Paragraph,
        ChunkStrategy::Recursive { separators: vec!["\n\n".to_string(), " ".to_string()], max_tokens: 2 },
    ];
    for s in &strategies {
        for c in Chunker::chunk(text, s) {
            assert!(!c.text.is_empty());
            assert_eq!(c.text.trim(), c.text);
            assert_eq!(c.token_estimate, Chunk::estimate_tokens(&c.text));
        }
    }
}

#[test]
fn chunk_word_count_counts_words() {
    let chunks = Chunker::chunk("alpha beta gamma", &ChunkStrategy::Paragraph);
    assert_eq!(chunks[0].word_count(), 3);
}
