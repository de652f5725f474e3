use minerva::context::{assemble, budget_prefix, chunk_label, render_candidate};
use minerva::fusion::{fuse, FusedCandidate, Origins};

fn candidate(source: &str, ordinal: u64, text: &str) -> FusedCandidate {
    FusedCandidate {
        source_id: source.to_string(),
        ordinal,
        text: text.to_string(),
        normalized_score: 1,
        origins: Origins { vector: true, lexical: false },
    }
}

#[test]
fn a_candidate_is_rendered_with_its_name_and_contents() {
    let c = candidate("notes.txt", 12, "The sky is blue.");
    assert_eq!(
        render_candidate(&c),
        "(document:\"notes.txt/12\", with contents:The sky is blue.)"
    );
    assert_eq!(chunk_label("notes.txt", 0), "notes.txt/0");
    assert_eq!(chunk_label("", 18446744073709551615), "/18446744073709551615");
    assert_eq!(chunk_label("a/b", 1000), "a/b/1000");
}

#[test]
fn candidates_are_joined_in_order() {
    let cands = vec![candidate("a", 0, "one"), candidate("b", 1, "two")];
    assert_eq!(
        assemble(&cands, 1000),
        "(document:\"a/0\", with contents:one), (document:\"b/1\", with contents:two)"
    );
}

#[test]
fn no_candidates_give_the_fallback_whatever_the_budget() {
    let none: Vec<FusedCandidate> = Vec::new();
    assert_eq!(assemble(&none, 0), "Use any knowledge you have.");
    assert_eq!(assemble(&none, 5), "Use any knowledge you have.");
    assert_eq!(assemble(&none, 4096), "Use any knowledge you have.");
    let fused = fuse(&Vec::new(), &Vec::new(), 650_000, 0, 3).unwrap();
    assert_eq!(assemble(&fused, 4096), "Use any knowledge you have.");
}

#[test]
fn only_the_leading_parts_that_fit_are_counted() {
    assert_eq!(budget_prefix(&vec![30, 30, 10], 50), 1);
    assert_eq!(budget_prefix(&vec![30, 30, 10], 61), 1);
    assert_eq!(budget_prefix(&vec![30, 30, 10], 62), 2);
    assert_eq!(budget_prefix(&vec![30, 30, 10], 73), 2);
    assert_eq!(budget_prefix(&vec![30, 30, 10], 74), 3);
    assert_eq!(budget_prefix(&vec![30, 30, 10], 29), 0);
    assert_eq!(budget_prefix(&vec![30, 30, 10], 30), 1);
    assert_eq!(budget_prefix(&vec![], 30), 0);
    assert_eq!(budget_prefix(&vec![0, 0], 1), 1);
    assert_eq!(budget_prefix(&vec![0, 0], 2), 2);
    assert_eq!(budget_prefix(&vec![usize::MAX, 1], usize::MAX), 1);
}

#[test]
fn a_candidate_is_never_cut() {
    // The rendered forms take 42, 42 and 35 characters.
    let cands = vec![
        candidate("a", 0, "0123456789"),
        candidate("b", 1, "abcdefghij"),
        candidate("c", 2, "xyz"),
    ];
    let first = "(document:\"a/0\", with contents:0123456789)";
    assert_eq!(first.len(), 42);
    assert_eq!(render_candidate(&cands[2]).len(), 35);
    // The second does not fit, so the third is not looked at, though it
    // would fit beside the first.
    assert_eq!(assemble(&cands, 80), first);
    assert_eq!(assemble(&cands, 42), first);
    assert_eq!(assemble(&cands, 85), first);
    assert_eq!(assemble(&cands, 86).len(), 86);
    assert_eq!(assemble(&cands, 122).len(), 86);
    assert_eq!(assemble(&cands, 123).len(), 123);
    // Not even the first fits.
    assert_eq!(assemble(&cands, 41), "Use any knowledge you have.");
}

#[test]
fn the_budget_counts_characters() {
    let cands = vec![candidate("é", 0, "ééé")];
    let rendered = render_candidate(&cands[0]);
    assert_eq!(rendered.chars().count(), 35);
    assert_eq!(rendered.len(), 39);
    assert_eq!(assemble(&cands, 35), rendered);
    assert_eq!(assemble(&cands, 34), "Use any knowledge you have.");
}

#[test]
fn the_context_keeps_to_its_budget_or_is_the_fallback() {
    let cands: Vec<FusedCandidate> =
        (0..6).map(|i| candidate("doc", i, &"x".repeat(i as usize * 3))).collect();
    for budget in 0..300 {
        let context = assemble(&cands, budget);
        assert!(context == "Use any knowledge you have." || context.chars().count() <= budget);
        assert!(!context.is_empty());
    }
}
