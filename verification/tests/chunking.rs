use athenaeum::chunking::{
    chunk_text, estimate_tokens, get_overlap_text, split_into_sentences, ChunkingConfig,
};

#[test]
fn test_chunk_text_basic() {
    let text = "This is a test. This is another sentence. And a third one.";
    let config = ChunkingConfig {
        min_tokens: 5,
        max_tokens: 20,
        overlap_tokens: 2,
    };

    let chunks = chunk_text(text, config);
    assert!(!chunks.is_empty());
    assert!(chunks.iter().all(|c| !c.text.is_empty()));
}

#[test]
fn test_estimate_tokens() {
    let text = "This is a test";
    let tokens = estimate_tokens(text);
    // 4 words * 1.3 = 5.2, rounded up to 6
    assert_eq!(tokens, 6);
}

#[test]
fn test_empty_text() {
    let chunks = chunk_text("", ChunkingConfig::default());
    assert!(chunks.is_empty());
}

#[test]
fn test_split_into_sentences() {
    let text = "First sentence. Second sentence! Third sentence?";
    let sentences = split_into_sentences(text);
    assert_eq!(sentences.len(), 3);
    assert_eq!(sentences[0], "First sentence.");
    assert_eq!(sentences[1], "Second sentence!");
    assert_eq!(sentences[2], "Third sentence?");
}

#[test]
fn chunking_config_defaults() {
    let c = ChunkingConfig::default();
    assert_eq!((c.min_tokens, c.max_tokens, c.overlap_tokens), (500, 1000, 100));
}

#[test]
fn estimate_matches_ceiling_of_one_point_three_per_word() {
    for words in 0..200usize {
        let text = vec!["w"; words].join(" ");
        let expected = ((words as f64) * 1.3).ceil() as usize;
        assert_eq!(estimate_tokens(&text), expected, "words = {words}");
    }
    assert_eq!(estimate_tokens("  spaced\t\nout   words  "), 4);
    assert_eq!(estimate_tokens(""), 0);
    assert_eq!(estimate_tokens("ten words here one two three four five six seven"), 13);
}

#[test]
fn sentence_needs_space_and_uppercase_or_newline() {
    // lower-case after the period: no split
    assert_eq!(split_into_sentences("e.g. this stays. One"), vec!["e.g. this stays.", "One"]);
    // newline after the space ends the sentence
    assert_eq!(split_into_sentences("Done. \nNext"), vec!["Done.", "Next"]);
    // no space after the period: no split
    assert_eq!(split_into_sentences("a.B c"), vec!["a.B c"]);
    // whitespace-only pieces are dropped
    assert!(split_into_sentences("   ").is_empty());
    // a terminator that ends the text closes the sentence
    assert_eq!(split_into_sentences("  Hi!  "), vec!["Hi!"]);
}

#[test]
fn overlap_keeps_last_words_or_whole_text() {
    // 2 tokens -> ceil(2 / 1.3) = 2 words
    assert_eq!(get_overlap_text("one two three four", 2), "three four");
    // more overlap than words: text unchanged, spacing included
    assert_eq!(get_overlap_text(" a  b ", 100), " a  b ");
    // no overlap tokens: nothing carried over
    assert_eq!(get_overlap_text("one two", 0), "");
    // 13 tokens -> 10 words
    let text = (0..20).map(|i| i.to_string()).collect::<Vec<_>>().join(" ");
    assert_eq!(get_overlap_text(&text, 13), "10 11 12 13 14 15 16 17 18 19");
}

#[test]
fn chunks_split_at_max_and_carry_overlap() {
    let config = ChunkingConfig {
        min_tokens: 5,
        max_tokens: 15,
        overlap_tokens: 3,
    };
    let text = "This is a long test sentence that should exceed the maximum token count on its own. \
                And here is another long sentence that also goes beyond the limit on its own. \
                And a final sentence that is also quite long and pushes it over the edge.";
    let chunks = chunk_text(text, config.clone());
    assert_eq!(chunks.len(), 3);
    for c in &chunks {
        assert!(!c.text.is_empty());
        assert_eq!(c.token_count, estimate_tokens(&c.text));
    }
    for pair in chunks.windows(2) {
        let overlap = get_overlap_text(&pair[0].text, config.overlap_tokens);
        assert!(pair[1].text.starts_with(&overlap));
    }
    assert!(chunks[0].text.starts_with("This is a long test sentence"));
    assert!(chunks[1].text.starts_with("on its own. And here is another"));
}

#[test]
fn small_text_is_one_chunk() {
    let chunks = chunk_text("One. Two. Three.", ChunkingConfig::default());
    assert_eq!(chunks.len(), 1);
    assert_eq!(chunks[0].text, "One. Two. Three.");
    assert_eq!(chunks[0].token_count, 4);
}

#[test]
fn blank_text_gives_no_chunks() {
    assert!(chunk_text(" \n\t ", ChunkingConfig::default()).is_empty());
}

#[test]
fn every_sentence_lands_in_a_chunk() {
    let text = "Alpha beta gamma delta. Epsilon zeta eta theta iota! Kappa lambda mu nu? \
                Xi omicron pi rho sigma. Tau upsilon phi chi psi omega.";
    let config = ChunkingConfig {
        min_tokens: 1,
        max_tokens: 8,
        overlap_tokens: 2,
    };
    let chunks = chunk_text(text, config);
    let sentences = split_into_sentences(text);
    assert_eq!(sentences.len(), 5);
    for s in &sentences {
        assert!(chunks.iter().any(|c| c.text.contains(s.as_str())), "{s}");
    }
}

#[test]
fn sentences_keep_all_text_and_end_at_terminators() {
    let text = "  One two.  Three\tfour! five six? Seven. eight";
    let sentences = split_into_sentences(text);
    let kept: String = sentences.concat().chars().filter(|c| !c.is_whitespace()).collect();
    let all: String = text.chars().filter(|c| !c.is_whitespace()).collect();
    assert_eq!(kept, all);
    for s in &sentences[..sentences.len() - 1] {
        assert!(s.ends_with(['.', '!', '?']), "{s}");
    }
    // two spaces after "two." do not end a sentence
    assert_eq!(sentences, vec!["One two.  Three\tfour! five six?", "Seven. eight"]);
}

#[test]
fn split_into_sentences_on_newline_after_terminator() {
    assert_eq!(split_into_sentences("One.\nTwo."), vec!["One.", "Two."]);
    assert_eq!(split_into_sentences("One.\tTwo! Three?"), vec!["One.", "Two!", "Three?"]);
    assert_eq!(split_into_sentences("Two!  Three?"), vec!["Two!  Three?"]);
    assert_eq!(split_into_sentences("e.g. this stays"), vec!["e.g. this stays"]);
}

#[test]
fn split_into_sentences_keeps_only_non_blank_trimmed_pieces() {
    assert!(split_into_sentences(" \n\t ").is_empty());
    let text = "  First one. Second one.\n\nThird  ";
    let sentences = split_into_sentences(text);
    assert_eq!(sentences, vec!["First one.", "Second one.", "Third"]);
    let kept: String = sentences.concat().chars().filter(|c| !c.is_whitespace()).collect();
    let all: String = text.chars().filter(|c| !c.is_whitespace()).collect();
    assert_eq!(kept, all);
}

#[test]
fn chunks_are_trimmed() {
    let text = "  Alpha beta gamma.  Delta epsilon zeta.\n\n Eta theta iota.  ";
    let config = ChunkingConfig { min_tokens: 1, max_tokens: 6, overlap_tokens: 2 };
    let chunks = chunk_text(text, config);
    assert!(chunks.len() > 1);
    for c in &chunks {
        assert!(!c.text.is_empty());
        assert_eq!(c.text, c.text.trim());
        assert_eq!(c.token_count, estimate_tokens(&c.text));
    }
}

#[test]
fn chunk_closed_only_when_next_sentence_overflows() {
    let text = "One two three. Four five six. Seven eight nine.";
    let config = ChunkingConfig { min_tokens: 1, max_tokens: 7, overlap_tokens: 2 };
    let chunks = chunk_text(text, config);
    let texts: Vec<&str> = chunks.iter().map(|c| c.text.as_str()).collect();
    assert_eq!(texts, vec!["One two three.", "two three. Four five six.", "five six. Seven eight nine."]);
    assert_eq!(chunks[0].token_count, 4);
    assert_eq!(chunks[1].token_count, 7);
    // the sentence that closed each chunk would have pushed it past the maximum
    assert!(chunks[0].token_count + estimate_tokens("Four five six.") > 7);
    assert!(chunks[1].token_count + estimate_tokens("Seven eight nine.") > 7);
    // at exactly the maximum the chunk stays open
    let config = ChunkingConfig { min_tokens: 1, max_tokens: 8, overlap_tokens: 2 };
    let texts: Vec<String> = chunk_text(text, config).into_iter().map(|c| c.text).collect();
    assert_eq!(texts, vec!["One two three. Four five six.", "five six. Seven eight nine."]);
}

#[test]
fn chunks_keep_every_word_once() {
    let text = "One two three. Four five six.\nSeven eight nine. Ten eleven twelve thirteen.";
    let overlap = 2;
    let config = ChunkingConfig { min_tokens: 1, max_tokens: 9, overlap_tokens: overlap };
    let chunks = chunk_text(text, config);
    assert!(chunks.len() > 2);
    let mut fresh: Vec<String> = Vec::new();
    for (k, c) in chunks.iter().enumerate() {
        let words: Vec<String> = c.text.split_whitespace().map(str::to_string).collect();
        let carried = if k == 0 {
            0
        } else {
            let prev_overlap = get_overlap_text(&chunks[k - 1].text, overlap);
            let carried_words: Vec<String> = prev_overlap.split_whitespace().map(str::to_string).collect();
            // the chunk begins, word for word, with the overlap of the one before
            assert_eq!(&words[..carried_words.len()], &carried_words[..]);
            carried_words.len()
        };
        fresh.extend(words.into_iter().skip(carried));
    }
    let all: Vec<String> = text.split_whitespace().map(str::to_string).collect();
    assert_eq!(fresh, all);
}

#[test]
fn oversized_chunk_is_one_sentence_after_its_overlap() {
    let text = "Short. This sentence has many many many words in it.";
    let config = ChunkingConfig { min_tokens: 1, max_tokens: 3, overlap_tokens: 0 };
    let texts: Vec<(String, usize)> = chunk_text(text, config).into_iter().map(|c| (c.text, c.token_count)).collect();
    assert_eq!(
        texts,
        vec![
            ("Short.".to_string(), 2),
            ("This sentence has many many many words in it.".to_string(), 12),
        ]
    );
    let config = ChunkingConfig { min_tokens: 1, max_tokens: 3, overlap_tokens: 2 };
    let texts: Vec<String> = chunk_text(text, config).into_iter().map(|c| c.text).collect();
    assert_eq!(texts, vec!["Short.", "Short. This sentence has many many many words in it."]);
}

#[test]
fn sentences_are_the_text_with_whitespace_gaps() {
    let text = "  First one. Second one!\n\nThird?\t ";
    let sentences = split_into_sentences(text);
    assert_eq!(sentences, vec!["First one.", "Second one!", "Third?"]);
    let mut rest = text;
    for s in &sentences {
        let at = rest.find(s.as_str()).expect("sentence occurs in order");
        assert!(rest[..at].chars().all(char::is_whitespace), "gap {:?}", &rest[..at]);
        rest = &rest[at + s.len()..];
    }
    assert!(rest.chars().all(char::is_whitespace));
}
