use minerva::context::{build_context, full_prompt, question_prompt, system_prompt};
use minerva::error::RetrievalError;
use minerva::fusion::Origin;
use minerva::minervadoc::{
    body_preview, extract_string, extract_u64, find_field, find_number, find_text, highlight,
    lexical_hit, md_to_hashmap, md_to_str, vector_hit, ConversionError, Field, FieldValue,
    Metadata, MinervaDoc, SearchResult,
};

fn text(name: &str, value: &str) -> Field {
    Field { name: name.to_string(), value: FieldValue::Text(value.to_string()) }
}

fn number(name: &str, value: u64) -> Field {
    Field { name: name.to_string(), value: FieldValue::Integer(value) }
}

fn metadata() -> Vec<Field> {
    vec![
        text("ulid", "01ARZ3NDEKTSV4RRFFQ69G5FAV"),
        number("ccnt", 7),
        text("date", "20240102T0304"),
        text("text", "the chunk"),
        text("filename", "notes.txt"),
    ]
}

fn result(fields: Vec<Field>) -> SearchResult {
    SearchResult { id: 1, distance: 300_000, data: Metadata::Object(fields) }
}

fn invalid(converted: Result<MinervaDoc, ConversionError>) -> String {
    match converted {
        Err(ConversionError::InvalidType(name)) => name,
        other => panic!("not an invalid type: {:?}", other),
    }
}

fn missing(converted: Result<MinervaDoc, ConversionError>) -> String {
    match converted {
        Err(ConversionError::MissingField(name)) => name,
        other => panic!("not a missing field: {:?}", other),
    }
}

fn without(mut fields: Vec<Field>, name: &str) -> Vec<Field> {
    fields.retain(|f| f.name != name);
    fields
}

#[test]
fn a_search_result_reads_as_a_document() {
    let doc = MinervaDoc::from_search_result(&result(metadata())).unwrap();
    assert_eq!(doc.title, "notes.txt");
    assert_eq!(doc.body, "the chunk");
    assert_eq!(doc.page_num, 0);
    assert_eq!(doc.chunk_num, 7);
    assert_eq!(doc.hash_body, "?");
    assert_eq!(doc.ulid, "01ARZ3NDEKTSV4RRFFQ69G5FAV");
    assert_eq!(doc.score, 0);
}

#[test]
fn the_first_unreadable_metadata_field_is_reported() {
    let plain = SearchResult { id: 1, distance: 0, data: Metadata::Text("x".to_string()) };
    assert_eq!(invalid(MinervaDoc::from_search_result(&plain)), "data");
    let other = SearchResult { id: 1, distance: 0, data: Metadata::Other };
    assert_eq!(invalid(MinervaDoc::from_search_result(&other)), "data");
    assert_eq!(invalid(MinervaDoc::from_search_result(&result(Vec::new()))), "filename");
    for name in ["filename", "text", "ccnt", "ulid"] {
        let fields = without(metadata(), name);
        assert_eq!(invalid(MinervaDoc::from_search_result(&result(fields))), name);
    }
    let mut fields = without(metadata(), "ccnt");
    fields.push(text("ccnt", "7"));
    assert_eq!(invalid(MinervaDoc::from_search_result(&result(fields))), "ccnt");
    let mut fields = without(without(metadata(), "ulid"), "text");
    fields.push(number("text", 1));
    assert_eq!(invalid(MinervaDoc::from_search_result(&result(fields))), "text");
}

fn stored() -> Vec<Field> {
    vec![
        text("title", "The Old Man and the Sea"),
        text("body", "He was an old man who fished alone."),
        number("page_number", 28),
        number("chunk_number", 8),
        text("hash_body", "abc123"),
        text("ulid", "01ARZ3NDEKTSV4RRFFQ69G5FAV"),
    ]
}

#[test]
fn stored_fields_read_as_a_document() {
    let doc = MinervaDoc::from_fields(&stored()).unwrap();
    assert_eq!(doc.title, "The Old Man and the Sea");
    assert_eq!(doc.body, "He was an old man who fished alone.");
    assert_eq!(doc.page_num, 28);
    assert_eq!(doc.chunk_num, 8);
    assert_eq!(doc.hash_body, "abc123");
    assert_eq!(doc.ulid, "01ARZ3NDEKTSV4RRFFQ69G5FAV");
    assert_eq!(doc.score, 0);
}

#[test]
fn the_first_missing_stored_field_is_reported() {
    for name in ["title", "body", "page_number", "chunk_number", "hash_body", "ulid"] {
        assert_eq!(missing(MinervaDoc::from_fields(&without(stored(), name))), name);
    }
    assert_eq!(missing(MinervaDoc::from_fields(&Vec::new())), "title");
    let mut fields = without(stored(), "page_number");
    fields.push(text("page_number", "28"));
    assert_eq!(missing(MinervaDoc::from_fields(&fields)), "page_number");
    let mut fields = without(without(stored(), "body"), "ulid");
    fields.push(Field { name: "body".to_string(), value: FieldValue::Other });
    assert_eq!(missing(MinervaDoc::from_fields(&fields)), "body");
}

#[test]
fn a_document_written_as_fields_reads_back() {
    let mut doc = MinervaDoc::from_fields(&stored()).unwrap();
    doc.score = 99;
    let fields = doc.to_fields();
    let names: Vec<&str> = fields.iter().map(|f| f.name.as_str()).collect();
    assert_eq!(names, vec!["title", "body", "page_number", "chunk_number", "hash_body", "ulid"]);
    let back = MinervaDoc::from_fields(&fields).unwrap();
    assert_eq!(back.title, doc.title);
    assert_eq!(back.body, doc.body);
    assert_eq!(back.page_num, doc.page_num);
    assert_eq!(back.chunk_num, doc.chunk_num);
    assert_eq!(back.hash_body, doc.hash_body);
    assert_eq!(back.ulid, doc.ulid);
    assert_eq!(back.score, 0);
}

#[test]
fn a_document_is_written_out_on_two_lines() {
    let doc = MinervaDoc::from_fields(&stored()).unwrap();
    assert_eq!(
        doc.display(),
        "The Old Man and the Sea 28/8 01ARZ3NDEKTSV4RRFFQ69G5FAV\n    He was an old man who fished alone."
    );
}

#[test]
fn a_name_is_looked_up_at_its_first_occurrence() {
    let fields = vec![text("a", "first"), number("b", 2), text("a", "second"), number("a", 3)];
    assert!(matches!(find_field(&fields, "a"), Some(FieldValue::Text(t)) if t == "first"));
    assert!(matches!(find_field(&fields, "b"), Some(FieldValue::Integer(2))));
    assert!(find_field(&fields, "c").is_none());
    assert_eq!(find_text(&fields, "a").as_deref(), Some("first"));
    assert_eq!(find_text(&fields, "b"), None);
    assert_eq!(find_number(&fields, "b"), Some(2));
    assert_eq!(find_number(&fields, "a"), None);
    assert_eq!(find_number(&fields, ""), None);
}

#[test]
fn metadata_reads_as_text() {
    assert_eq!(md_to_str(&Metadata::Text("abc".to_string())).as_deref(), Some("abc"));
    assert_eq!(md_to_str(&Metadata::Integer(0)).as_deref(), Some("0"));
    assert_eq!(md_to_str(&Metadata::Integer(1907)).as_deref(), Some("1907"));
    assert_eq!(
        md_to_str(&Metadata::Integer(u64::MAX)).as_deref(),
        Some("18446744073709551615")
    );
    assert_eq!(md_to_str(&Metadata::Other), None);
    assert_eq!(md_to_str(&Metadata::Object(Vec::new())), None);
    assert!(md_to_hashmap(&Metadata::Text("abc".to_string())).is_none());
    assert!(md_to_hashmap(&Metadata::Integer(1)).is_none());
    assert_eq!(md_to_hashmap(&Metadata::Object(metadata())).unwrap().len(), 5);
}

#[test]
fn values_are_extracted_by_kind() {
    assert_eq!(extract_string(&FieldValue::Text("t".to_string())).as_deref(), Some("t"));
    assert_eq!(extract_string(&FieldValue::Integer(1)), None);
    assert_eq!(extract_string(&FieldValue::Other), None);
    assert_eq!(extract_u64(&FieldValue::Integer(42)), Some(42));
    assert_eq!(extract_u64(&FieldValue::Text("42".to_string())), None);
    assert_eq!(extract_u64(&FieldValue::Other), None);
}

#[test]
fn hits_keep_the_score_of_their_index() {
    let hit = vector_hit(&result(metadata())).unwrap();
    assert_eq!(hit.origin, Origin::Vector);
    assert_eq!(hit.score, 300_000);
    assert_eq!(hit.source_id, "notes.txt");
    assert_eq!(hit.ordinal, 7);
    assert_eq!(hit.text, "the chunk");
    assert_eq!(hit.record_id, "01ARZ3NDEKTSV4RRFFQ69G5FAV");
    let hit = lexical_hit(&stored(), 12_000_000).unwrap();
    assert_eq!(hit.origin, Origin::Lexical);
    assert_eq!(hit.score, 12_000_000);
    assert_eq!(hit.source_id, "The Old Man and the Sea");
    assert_eq!(hit.ordinal, 8);
    assert!(matches!(
        vector_hit(&result(without(metadata(), "text"))),
        Err(ConversionError::InvalidType(name)) if name == "text"
    ));
    assert!(matches!(
        lexical_hit(&without(stored(), "ulid"), 1),
        Err(ConversionError::MissingField(name)) if name == "ulid"
    ));
}

#[test]
fn hits_of_both_stores_make_one_context() {
    let vector_hits = vec![vector_hit(&result(metadata())).unwrap()];
    let mut fields = stored();
    fields[0] = text("title", "notes.txt");
    fields[3] = number("chunk_number", 7);
    let lexical_hits = vec![lexical_hit(&fields, 4_000_000).unwrap()];
    let context =
        build_context(&vector_hits, &lexical_hits, 650_000, 1_000_000, 3, 4096).unwrap();
    assert_eq!(context, "(document:\"notes.txt/7\", with contents:the chunk)");
    assert_eq!(
        build_context(&vector_hits, &lexical_hits, 0, 0, 3, 4096).unwrap_err(),
        RetrievalError::InvalidThreshold
    );
    assert_eq!(
        build_context(&Vec::new(), &Vec::new(), 650_000, 0, 3, 10).unwrap(),
        "Use any knowledge you have."
    );
    assert_eq!(
        build_context(&vector_hits, &lexical_hits, 650_000, 0, 3, 10).unwrap(),
        "Use any knowledge you have."
    );
}

#[test]
fn a_body_is_shown_on_one_line() {
    assert_eq!(body_preview("one\ntwo\r\nthree", 80), "one two three");
    assert_eq!(body_preview("one\ntwo\r\nthree", 15), "one two");
    assert_eq!(body_preview("one\ntwo\r\nthree", 12), "one ");
    assert_eq!(body_preview("abc", 8), "");
    assert_eq!(body_preview("abc", 0), "");
    assert_eq!(body_preview("\r\r\rabc", 10), "ab");
    assert_eq!(body_preview("ééé", 10), "éé");
    assert_eq!(body_preview("", 80), "");
}

#[test]
fn matches_are_set_between_marks() {
    assert_eq!(
        highlight("the old man and the sea", &vec![(4, 7), (20, 23)]),
        "the  --> old <--  man and the  --> sea <-- "
    );
    assert_eq!(highlight("plain", &Vec::new()), "plain");
    assert_eq!(highlight("ab", &vec![(0, 0), (0, 2)]), " -->  <--  --> ab <-- ");
    assert_eq!(highlight("éa", &vec![(1, 2)]), "é --> a <-- ");
}

#[test]
fn prompts_carry_the_date_the_context_and_the_question() {
    let system = system_prompt("Monday, January  1, 2024", "CTX");
    assert!(system.starts_with("You are a friendly and helpful AI assistant. "));
    assert!(system.ends_with("references. Today is Monday, January  1, 2024. Context: CTX"));
    assert_eq!(question_prompt("Why?"), "Question: Why?");
    assert_eq!(
        full_prompt("D", "C", "Q"),
        format!("{} \nQuestion: Q", system_prompt("D", "C"))
    );
}
