use minerva::error::RetrievalError;
use minerva::gateway::{
    accepts_extension, plan_keyword_search, plan_vector_search, IngestAction, IngestEvent,
    Ingestion, Phase, SearchPlan,
};
use minerva::record::{build_text_records, Record, ID_LEN};
use minerva::segmenter::segment;
use std::collections::BTreeSet;

/// A store that answers truthfully, and fails at the insertion number
/// `fail_at`, counted from zero.
struct Store {
    hashes: BTreeSet<String>,
    inserted: Vec<Record>,
    questions: usize,
    fail_at: Option<usize>,
}

impl Store {
    fn new() -> Store {
        Store { hashes: BTreeSet::new(), inserted: Vec::new(), questions: 0, fail_at: None }
    }
}

fn ingest(store: &mut Store, records: Vec<Record>) -> Result<Vec<String>, RetrievalError> {
    let mut machine = Ingestion::begin(records)?;
    loop {
        let event = match machine.action() {
            IngestAction::CheckExists(hash) => {
                store.questions += 1;
                IngestEvent::Exists(store.hashes.contains(&hash))
            }
            IngestAction::Insert(record) => {
                if store.fail_at == Some(store.inserted.len()) {
                    IngestEvent::Unavailable
                } else {
                    store.hashes.insert(record.content_hash.clone());
                    store.inserted.push(record);
                    IngestEvent::Inserted
                }
            }
            IngestAction::Finish(ids) => {
                assert_eq!(machine.phase(), Phase::Finished);
                return Ok(ids);
            }
            IngestAction::Fail(error) => {
                assert_eq!(machine.phase(), Phase::Failed);
                return Err(error);
            }
        };
        machine = machine.step(event);
    }
}

fn records_of(source: &str, text: &str) -> Vec<Record> {
    build_text_records(source, &segment(text, 40))
}

const DOCUMENT: &str = "First sentence. Second sentence! A third one? First sentence. Tail";

#[test]
fn the_second_ingestion_inserts_nothing() {
    let mut store = Store::new();
    // Five chunks, two of them alike.
    assert_eq!(records_of("doc.txt", DOCUMENT).len(), 5);
    let first = ingest(&mut store, records_of("doc.txt", DOCUMENT)).unwrap();
    assert_eq!(first.len(), 4);
    let held = store.hashes.clone();
    assert_eq!(held.len(), 4);
    let second = ingest(&mut store, records_of("doc.txt", DOCUMENT)).unwrap();
    assert_eq!(second.len(), 0);
    assert_eq!(store.hashes, held);
    assert_eq!(store.inserted.len(), 4);
}

#[test]
fn inserted_records_carry_fresh_identifiers() {
    let mut store = Store::new();
    let ids = ingest(&mut store, records_of("doc.txt", DOCUMENT)).unwrap();
    let stored: Vec<String> = store.inserted.iter().map(|r| r.id.clone().unwrap()).collect();
    assert_eq!(ids, stored);
    assert!(ids.iter().all(|id| id.len() == ID_LEN));
    let distinct: BTreeSet<&String> = ids.iter().collect();
    assert_eq!(distinct.len(), ids.len());
    let texts: Vec<&str> = store.inserted.iter().map(|r| r.text.as_str()).collect();
    assert_eq!(texts, vec!["First sentence.", "Second sentence!", "A third one?", "Tail"]);
    let ordinals: Vec<u64> = store.inserted.iter().map(|r| r.ordinal).collect();
    assert_eq!(ordinals, vec![0, 1, 2, 4]);
}

#[test]
fn a_digest_that_occurred_in_the_batch_is_not_asked_about() {
    let mut store = Store::new();
    ingest(&mut store, records_of("doc.txt", DOCUMENT)).unwrap();
    assert_eq!(store.questions, 4);
    let mut other = Store::new();
    ingest(&mut other, records_of("doc.txt", "Same. Same. Same.")).unwrap();
    assert_eq!(other.questions, 1);
    assert_eq!(other.inserted.len(), 1);
}

#[test]
fn stored_chunks_of_another_document_are_passed_over() {
    let mut store = Store::new();
    ingest(&mut store, records_of("a.txt", "Shared line. Only in a.")).unwrap();
    let ids = ingest(&mut store, records_of("b.txt", "Only in b. Shared line.")).unwrap();
    assert_eq!(ids.len(), 1);
    assert_eq!(store.inserted.last().unwrap().text, "Only in b.");
    assert_eq!(store.inserted.last().unwrap().source_id, "b.txt");
}

#[test]
fn an_empty_batch_finishes_at_once() {
    let machine = Ingestion::begin(Vec::new()).unwrap();
    assert_eq!(machine.phase(), Phase::Finished);
    assert!(matches!(machine.action(), IngestAction::Finish(ids) if ids.is_empty()));
    let machine = machine.step(IngestEvent::Inserted);
    assert_eq!(machine.phase(), Phase::Finished);
}

#[test]
fn a_failure_reports_what_was_inserted_before() {
    let mut store = Store::new();
    store.fail_at = Some(2);
    let error = ingest(&mut store, records_of("doc.txt", DOCUMENT)).unwrap_err();
    assert_eq!(error, RetrievalError::BackendUnavailable { inserted: 2 });
    assert_eq!(store.inserted.len(), 2);
}

#[test]
fn an_unreachable_store_fails_the_ingestion() {
    let machine = Ingestion::begin(records_of("doc.txt", DOCUMENT)).unwrap();
    assert_eq!(machine.phase(), Phase::Probing);
    let machine = machine.step(IngestEvent::Unavailable);
    assert_eq!(machine.phase(), Phase::Failed);
    assert!(matches!(
        machine.action(),
        IngestAction::Fail(RetrievalError::BackendUnavailable { inserted: 0 })
    ));
    let machine = machine.step(IngestEvent::Exists(false));
    assert_eq!(machine.phase(), Phase::Failed);
}

#[test]
fn an_answer_out_of_turn_fails_the_ingestion() {
    let machine = Ingestion::begin(records_of("doc.txt", DOCUMENT)).unwrap();
    assert_eq!(machine.step(IngestEvent::Inserted).phase(), Phase::Failed);
    let machine = Ingestion::begin(records_of("doc.txt", DOCUMENT)).unwrap();
    let machine = machine.step(IngestEvent::Exists(false));
    assert_eq!(machine.phase(), Phase::Inserting);
    assert!(matches!(machine.action(), IngestAction::Insert(r) if r.text == "First sentence."));
    assert_eq!(machine.step(IngestEvent::Exists(true)).phase(), Phase::Failed);
}

#[test]
fn the_machine_asks_for_each_digest_in_turn() {
    let records = records_of("doc.txt", "One. Two.");
    let hashes: Vec<String> = records.iter().map(|r| r.content_hash.clone()).collect();
    let machine = Ingestion::begin(records).unwrap();
    assert!(matches!(machine.action(), IngestAction::CheckExists(h) if h == hashes[0]));
    let machine = machine.step(IngestEvent::Exists(true));
    assert!(matches!(machine.action(), IngestAction::CheckExists(h) if h == hashes[1]));
    let machine = machine.step(IngestEvent::Exists(false)).step(IngestEvent::Inserted);
    assert!(matches!(machine.action(), IngestAction::Finish(ids) if ids.len() == 1));
}

#[test]
fn two_texts_with_one_digest_are_refused() {
    let mut records = records_of("doc.txt", "One. Two. Three.");
    records[2].content_hash = records[0].content_hash.clone();
    assert!(matches!(Ingestion::begin(records), Err(RetrievalError::HashCollision)));
    let mut store = Store::new();
    let mut records = records_of("doc.txt", "One. Two. One.");
    records[1].content_hash = records[2].content_hash.clone();
    assert_eq!(ingest(&mut store, records).unwrap_err(), RetrievalError::HashCollision);
    assert_eq!(store.questions, 0);
    assert!(Ingestion::begin(records_of("doc.txt", "One. Two. One.")).is_ok());
}

#[test]
fn a_keyword_search_for_no_hits_is_skipped() {
    assert_eq!(plan_keyword_search(0), SearchPlan::Skip);
    assert_eq!(plan_keyword_search(1), SearchPlan::Ask { limit: 1 });
    assert_eq!(plan_keyword_search(25), SearchPlan::Ask { limit: 25 });
}

#[test]
fn a_query_vector_of_another_dimension_is_refused() {
    assert_eq!(plan_vector_search(384, 384, 3), Ok(SearchPlan::Ask { limit: 3 }));
    assert_eq!(
        plan_vector_search(383, 384, 3),
        Err(RetrievalError::DimensionMismatch { expected: 384, found: 383 })
    );
    assert_eq!(
        plan_vector_search(0, 1, 0),
        Err(RetrievalError::DimensionMismatch { expected: 1, found: 0 })
    );
}

#[test]
fn text_files_are_read_from_a_directory() {
    assert!(accepts_extension("xml"));
    assert!(accepts_extension("txt"));
    assert!(accepts_extension("md"));
    assert!(!accepts_extension("pdf"));
    assert!(!accepts_extension("TXT"));
    assert!(!accepts_extension(""));
    assert!(!accepts_extension("txt2"));
}
