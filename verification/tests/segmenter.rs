use minerva::segmenter::{_chunk_string_2, chunk_string, chunk_string_within, segment};

const FOX: &str = "the quick brown fox jumps over the lazy dog. And another sentence. Seven!";

#[test]
fn chunk_ml100() {
    let result = chunk_string(FOX, 100);
    assert!(result[0] == "the quick brown fox jumps over the lazy dog. And another sentence. Seven!");
}

#[test]
fn chunk_ml48() {
    let result = chunk_string_within(FOX, 48, 12);
    assert!(result[0] == "the quick brown fox jumps over the lazy dog.");
    assert!(result[1] == "And another sentence. Seven!");
}

#[test]
fn chunk_ml28() {
    let result = chunk_string_within(FOX, 28, 12);
    assert!(result[0] == "the quick brown fox");
    assert!(result[1] == "jumps over the lazy dog.");
    assert!(result[2] == "And another sentence.");
    assert!(result[3] == "Seven!");
}

#[test]
fn chunk_ml12() {
    let result = chunk_string_within(FOX, 12, 4);
    assert!(result[0] == "the quick");
    assert!(result[1] == "brown fox");
    assert!(result[2] == "jumps over");
    assert!(result[3] == "the lazy dog.");
    assert!(result[4] == "And another");
    assert!(result[5] == "sentence.");
    assert!(result[6] == "Seven!");
}

#[test]
fn chunk_ml28_yields_exactly_four_chunks() {
    let result = chunk_string_within(FOX, 28, 12);
    assert_eq!(
        result,
        vec!["the quick brown fox", "jumps over the lazy dog.", "And another sentence.", "Seven!"]
    );
}

#[test]
fn chunk_string_does_not_echo_its_input() {
    let text = "one two three four five six seven eight nine ten eleven twelve thirteen fourteen";
    let result = chunk_string(text, 25);
    assert!(result.len() > 1);
    assert!(result.iter().all(|c| c.chars().count() < 50));
}

#[test]
fn segment_splits_at_sentence_ends() {
    let result = segment(FOX, 100);
    assert_eq!(
        result,
        vec!["the quick brown fox jumps over the lazy dog.", "And another sentence.", "Seven!"]
    );
}

#[test]
fn segment_keeps_a_sentence_without_commas_whole() {
    let result = segment(FOX, 28);
    assert_eq!(
        result,
        vec!["the quick brown fox jumps over the lazy dog.", "And another sentence.", "Seven!"]
    );
}

#[test]
fn segment_falls_back_to_commas() {
    let text = "alpha beta, gamma delta, epsilon, zeta eta theta! Short one?";
    assert_eq!(
        segment(text, 23),
        vec!["alpha beta, gamma delta", "epsilon", "zeta eta theta!", "Short one?"]
    );
    assert_eq!(
        segment(text, 24),
        vec!["alpha beta, gamma delta", "epsilon, zeta eta theta!", "Short one?"]
    );
}

#[test]
fn segment_joins_fragments_up_to_the_limit() {
    // "a, b, c" has seven characters: it fits a limit of seven as it is,
    // and is packed into "a, b" and "c" under a limit of six.
    assert_eq!(segment("a, b, c", 7), vec!["a, b, c"]);
    assert_eq!(segment("a,b,c", 4), vec!["a, b", "c"]);
    assert_eq!(segment("a , b ,c", 6), vec!["a, b", "c"]);
}

#[test]
fn segment_emits_trailing_text_without_punctuation() {
    assert_eq!(segment("First. and then the rest  ", 40), vec!["First.", "and then the rest"]);
}

#[test]
fn segment_drops_blank_text_and_empty_fragments() {
    assert_eq!(segment("", 10), Vec::<String>::new());
    assert_eq!(segment("   \n\t ", 10), Vec::<String>::new());
    assert_eq!(segment(",, ,", 1), Vec::<String>::new());
    assert_eq!(segment("one,, two", 3), vec!["one", "two"]);
}

#[test]
fn segment_counts_characters_not_bytes() {
    // Five characters, ten bytes.
    assert_eq!(segment("ééééé", 5), vec!["ééééé"]);
    assert_eq!(segment("éé,éé", 4), vec!["éé", "éé"]);
}

#[test]
fn segment_keeps_each_punctuation_mark_with_its_unit() {
    assert_eq!(segment("What?! No.", 10), vec!["What?", "!", "No."]);
}

#[test]
fn segment_chunks_keep_to_the_limit_or_hold_no_comma() {
    let text = "alpha, beta gamma delta epsilon zeta, eta. theta iota kappa lambda mu nu xi";
    for limit in 0..30 {
        for chunk in segment(text, limit) {
            assert!(chunk.chars().count() <= limit || !chunk.contains(','));
            assert!(!chunk.is_empty());
        }
    }
}

#[test]
fn words_are_packed_by_byte_length() {
    assert_eq!(_chunk_string_2("the quick brown fox", 10), vec!["the quick", "brown fox"]);
    assert_eq!(_chunk_string_2("the quick brown fox", 9), vec!["the quick", "brown fox"]);
    assert_eq!(_chunk_string_2("the quick brown fox", 8), vec!["the", "quick", "brown", "fox"]);
    assert_eq!(_chunk_string_2("  spaced \n out\ttext ", 100), vec!["spaced out text"]);
    assert_eq!(_chunk_string_2("", 5), Vec::<String>::new());
    assert_eq!(_chunk_string_2("incomprehensible", 4), vec!["incomprehensible"]);
    // "éé" takes four bytes: with a space and "a" it takes six.
    assert_eq!(_chunk_string_2("éé a", 5), vec!["éé", "a"]);
    assert_eq!(_chunk_string_2("éé a", 6), vec!["éé a"]);
}

#[test]
fn semantic_chunks_stay_below_the_upper_end_of_the_range() {
    let text = "Ünïcödé wörds, and plain ones. A second sentence follows!\n\nThen a new paragraph,\nwith a line break; and more text to split up into pieces.";
    for (max_len, tolerance) in [(1, 1), (2, 1), (2, 2), (5, 3), (25, 25), (30, 1), (40, 15), (200, 100)] {
        let chunks = chunk_string_within(text, max_len, tolerance);
        assert!(!chunks.is_empty());
        for chunk in &chunks {
            assert!(chunk.chars().count() < max_len + tolerance, "{:?}", chunk);
            assert!(!chunk.is_empty());
        }
        let rejoined: String = chunks.concat().chars().filter(|c| !c.is_whitespace()).collect();
        let expected: String = text.chars().filter(|c| !c.is_whitespace()).collect();
        assert_eq!(rejoined, expected);
    }
    assert!(chunk_string_within("", 10, 5).is_empty());
    assert!(chunk_string(" \n ", 25).is_empty());
    assert_eq!(chunk_string_within("abc", usize::MAX - 1, 1), vec!["abc"]);
}

#[test]
fn clusters_of_characters_are_cut_where_the_range_is_narrow() {
    let texts = [
        "a\u{310}e\u{301}o\u{308}\u{332}",
        "\u{1F1E9}\u{1F1EA} \u{1F468}\u{200D}\u{1F469}\u{200D}\u{1F467}\u{200D}\u{1F466}",
        "\r\n\r\n\r\n",
        "a\u{300}\u{301}\u{302}\u{303}\u{304}\u{305}\u{306}\u{307} b",
        "word\u{a0}word\u{2003}word",
        "............",
        "x",
    ];
    for text in texts {
        for (max_len, tolerance) in [(1, 1), (2, 1), (2, 2), (3, 1), (4, 4), (10, 2)] {
            for chunk in chunk_string_within(text, max_len, tolerance) {
                assert!(chunk.chars().count() < max_len + tolerance, "{:?} of {:?}", chunk, text);
                assert!(text.contains(chunk.as_str()));
            }
        }
    }
}
