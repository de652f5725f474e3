use minerva::fusion::{come_from, CandidateHit, Origin};
use minerva::gateway::has_collision;
use minerva::record::build_text_records;
use minerva::segmenter::{
    chunk_unit, is_terminal_char, pack_fragments, split_fragments, split_units, split_words,
};

fn chars(s: &str) -> Vec<char> {
    s.chars().collect()
}

fn strings(parts: Vec<Vec<char>>) -> Vec<String> {
    parts.into_iter().map(|p| p.into_iter().collect()).collect()
}

#[test]
fn sentences_end_at_terminal_punctuation() {
    assert!(is_terminal_char('.'));
    assert!(is_terminal_char('?'));
    assert!(is_terminal_char('!'));
    assert!(!is_terminal_char(','));
    assert!(!is_terminal_char(';'));
    assert!(!is_terminal_char('。'));
    assert_eq!(strings(split_units(&chars("One. Two?  Three"))), vec!["One.", " Two?", "  Three"]);
    assert_eq!(strings(split_units(&chars("..a"))), vec![".", ".", "a"]);
    assert_eq!(strings(split_units(&chars("End!"))), vec!["End!"]);
    assert!(split_units(&chars("")).is_empty());
}

#[test]
fn fragments_are_trimmed_and_never_empty() {
    assert_eq!(strings(split_fragments(&chars(" a , b,c ,, d "))), vec!["a", "b", "c", "d"]);
    assert_eq!(strings(split_fragments(&chars("no comma"))), vec!["no comma"]);
    assert!(split_fragments(&chars(" , ,")).is_empty());
    assert!(split_fragments(&chars("")).is_empty());
}

#[test]
fn fragments_are_packed_greedily() {
    let frags = vec![chars("aa"), chars("bb"), chars("cccccccc"), chars("d"), chars("e")];
    assert_eq!(strings(pack_fragments(&frags, 6)), vec!["aa, bb", "cccccccc", "d, e"]);
    assert_eq!(strings(pack_fragments(&frags, 5)), vec!["aa", "bb", "cccccccc", "d, e"]);
    assert_eq!(strings(pack_fragments(&frags, 0)), vec!["aa", "bb", "cccccccc", "d", "e"]);
    assert_eq!(
        strings(pack_fragments(&frags, usize::MAX)),
        vec!["aa, bb, cccccccc, d, e"]
    );
    assert!(pack_fragments(&Vec::new(), 10).is_empty());
}

#[test]
fn a_unit_is_kept_whole_or_cut_at_its_commas() {
    assert_eq!(strings(chunk_unit(&chars("  short one. "), 10)), vec!["short one."]);
    assert_eq!(strings(chunk_unit(&chars("a long, long unit."), 10)), vec!["a long", "long unit."]);
    assert_eq!(strings(chunk_unit(&chars("nothing to cut here"), 10)), vec!["nothing to cut here"]);
    assert!(chunk_unit(&chars("   "), 10).is_empty());
}

#[test]
fn words_are_runs_without_whitespace() {
    assert_eq!(split_words(&chars(" the  quick\tbrown\u{a0}fox\n")), vec!["the", "quick", "brown", "fox"]);
    assert!(split_words(&chars(" \n ")).is_empty());
    assert_eq!(split_words(&chars("one")), vec!["one"]);
}

#[test]
fn hits_are_told_by_their_origin() {
    let hit = |origin| CandidateHit {
        record_id: String::new(),
        source_id: String::new(),
        ordinal: 0,
        text: String::new(),
        score: 0,
        origin,
    };
    assert!(come_from(&vec![hit(Origin::Vector), hit(Origin::Vector)], Origin::Vector));
    assert!(!come_from(&vec![hit(Origin::Vector), hit(Origin::Lexical)], Origin::Vector));
    assert!(!come_from(&vec![hit(Origin::Vector)], Origin::Lexical));
    assert!(come_from(&Vec::new(), Origin::Lexical));
}

#[test]
fn a_collision_is_one_digest_for_two_texts() {
    let chunks = vec!["a".to_string(), "b".to_string(), "a".to_string()];
    let mut records = build_text_records("s", &chunks);
    assert!(!has_collision(&records));
    records[1].content_hash = records[0].content_hash.clone();
    assert!(has_collision(&records));
    assert!(!has_collision(&Vec::new()));
}
