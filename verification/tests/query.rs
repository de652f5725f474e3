use minerva::error::RetrievalError;
use minerva::fusion::{CandidateHit, Origin};
use minerva::query::{Query, QueryAction, QueryEvent, QueryPhase, QuerySettings};

fn settings() -> QuerySettings {
    QuerySettings {
        dimension: 384,
        nearest: 3,
        keyword_limit: 5,
        vector_max_distance: 650_000,
        lexical_min_score: 0,
        max_candidates: 8,
        max_chars: 4096,
    }
}

fn hit(origin: Origin, source: &str, ordinal: u64, score: u64) -> CandidateHit {
    CandidateHit {
        record_id: String::new(),
        source_id: source.to_string(),
        ordinal,
        text: format!("text {ordinal}"),
        score,
        origin,
    }
}

fn answer(query: &Query) -> String {
    match query.action() {
        QueryAction::Answer(context) => context,
        other => panic!("no answer: {:?}", other),
    }
}

fn failure(query: &Query) -> RetrievalError {
    match query.action() {
        QueryAction::Fail(error) => error,
        other => panic!("no failure: {:?}", other),
    }
}

#[test]
fn a_query_asks_the_model_then_both_stores() {
    let query = Query::begin(settings(), true);
    assert_eq!(query.phase(), QueryPhase::Embedding);
    assert!(matches!(query.action(), QueryAction::Embed));
    let query = query.step(QueryEvent::Embedded(384));
    assert!(matches!(query.action(), QueryAction::SearchVector { limit: 3 }));
    let query = query.step(QueryEvent::VectorHits(vec![hit(Origin::Vector, "a", 0, 325_000)]));
    assert!(matches!(query.action(), QueryAction::SearchKeyword { limit: 5 }));
    let query = query.step(QueryEvent::KeywordHits(vec![hit(Origin::Lexical, "b", 1, 7)]));
    assert_eq!(query.phase(), QueryPhase::Done);
    assert_eq!(
        answer(&query),
        "(document:\"b/1\", with contents:text 1), (document:\"a/0\", with contents:text 0)"
    );
    let query = query.step(QueryEvent::Unavailable);
    assert_eq!(query.phase(), QueryPhase::Done);
}

#[test]
fn the_lexical_store_is_not_asked_without_a_keyword_or_for_no_hits() {
    let query = Query::begin(settings(), false)
        .step(QueryEvent::Embedded(384))
        .step(QueryEvent::VectorHits(vec![hit(Origin::Vector, "a", 0, 1)]));
    assert_eq!(answer(&query), "(document:\"a/0\", with contents:text 0)");
    let mut none = settings();
    none.keyword_limit = 0;
    let query = Query::begin(none, true)
        .step(QueryEvent::Embedded(384))
        .step(QueryEvent::VectorHits(Vec::new()));
    assert_eq!(query.phase(), QueryPhase::Done);
    assert_eq!(answer(&query), "Use any knowledge you have.");
}

#[test]
fn a_query_that_finds_nothing_falls_back() {
    let query = Query::begin(settings(), true)
        .step(QueryEvent::Embedded(384))
        .step(QueryEvent::VectorHits(Vec::new()))
        .step(QueryEvent::KeywordHits(Vec::new()));
    assert_eq!(answer(&query), "Use any knowledge you have.");
    let query = Query::begin(settings(), true)
        .step(QueryEvent::Embedded(384))
        .step(QueryEvent::VectorHits(vec![hit(Origin::Vector, "far", 0, 650_000)]))
        .step(QueryEvent::KeywordHits(Vec::new()));
    assert_eq!(answer(&query), "Use any knowledge you have.");
}

#[test]
fn a_zero_distance_limit_gives_the_query_up_at_once() {
    let mut bad = settings();
    bad.vector_max_distance = 0;
    let query = Query::begin(bad, true);
    assert_eq!(query.phase(), QueryPhase::Failed);
    assert_eq!(failure(&query), RetrievalError::InvalidThreshold);
    let query = query.step(QueryEvent::Embedded(384));
    assert_eq!(failure(&query), RetrievalError::InvalidThreshold);
}

#[test]
fn a_query_vector_of_another_dimension_gives_the_query_up() {
    let query = Query::begin(settings(), true).step(QueryEvent::Embedded(768));
    assert_eq!(failure(&query), RetrievalError::DimensionMismatch { expected: 384, found: 768 });
}

#[test]
fn an_unreachable_store_gives_the_query_up() {
    let unavailable = RetrievalError::BackendUnavailable { inserted: 0 };
    let query = Query::begin(settings(), true).step(QueryEvent::Unavailable);
    assert_eq!(failure(&query), unavailable);
    let query = Query::begin(settings(), true)
        .step(QueryEvent::Embedded(384))
        .step(QueryEvent::Unavailable);
    assert_eq!(failure(&query), unavailable);
    let query = Query::begin(settings(), true)
        .step(QueryEvent::Embedded(384))
        .step(QueryEvent::VectorHits(Vec::new()))
        .step(QueryEvent::Unavailable);
    assert_eq!(failure(&query), unavailable);
}

#[test]
fn an_answer_out_of_turn_gives_the_query_up() {
    let unavailable = RetrievalError::BackendUnavailable { inserted: 0 };
    let query = Query::begin(settings(), true).step(QueryEvent::VectorHits(Vec::new()));
    assert_eq!(failure(&query), unavailable);
    let query = Query::begin(settings(), true)
        .step(QueryEvent::Embedded(384))
        .step(QueryEvent::KeywordHits(Vec::new()));
    assert_eq!(failure(&query), unavailable);
    let query = Query::begin(settings(), true)
        .step(QueryEvent::Embedded(384))
        .step(QueryEvent::VectorHits(Vec::new()))
        .step(QueryEvent::Embedded(384));
    assert_eq!(failure(&query), unavailable);
}

#[test]
fn a_hit_of_the_other_store_gives_the_query_up() {
    let query = Query::begin(settings(), true)
        .step(QueryEvent::Embedded(384))
        .step(QueryEvent::VectorHits(vec![hit(Origin::Lexical, "a", 0, 1)]))
        .step(QueryEvent::KeywordHits(Vec::new()));
    assert_eq!(failure(&query), RetrievalError::OriginMismatch);
    let query = Query::begin(settings(), false)
        .step(QueryEvent::Embedded(384))
        .step(QueryEvent::VectorHits(vec![hit(Origin::Lexical, "a", 0, 1)]));
    assert_eq!(failure(&query), RetrievalError::OriginMismatch);
}

#[test]
fn the_context_of_a_query_keeps_to_its_budget() {
    let mut tight = settings();
    tight.max_chars = 45;
    let hits = vec![hit(Origin::Vector, "a", 0, 1), hit(Origin::Vector, "b", 1, 2)];
    let query = Query::begin(tight, false)
        .step(QueryEvent::Embedded(384))
        .step(QueryEvent::VectorHits(hits));
    assert_eq!(answer(&query), "(document:\"a/0\", with contents:text 0)");
    let mut capped = settings();
    capped.max_candidates = 1;
    let hits = vec![hit(Origin::Vector, "a", 0, 9), hit(Origin::Vector, "b", 1, 2)];
    let query = Query::begin(capped, false)
        .step(QueryEvent::Embedded(384))
        .step(QueryEvent::VectorHits(hits));
    assert_eq!(answer(&query), "(document:\"b/1\", with contents:text 1)");
}
