use minerva::error::RetrievalError;
use minerva::record::{
    build_record, build_records, build_text_records, copy_bits, copy_record, data_to_record,
    seal_record, with_id, Chunk, DIGEST_LEN, ID_LEN,
};

fn chunk(text: &str, ordinal: u64, source: &str) -> Chunk {
    Chunk { text: text.to_string(), ordinal, source_id: source.to_string() }
}

#[test]
fn a_record_carries_the_chunk_and_its_digest() {
    let record = build_record(chunk("hello", 3, "notes.txt"), Some(vec![1, 2, 3]));
    assert_eq!(record.id, None);
    assert_eq!(record.text, "hello");
    assert_eq!(record.ordinal, 3);
    assert_eq!(record.source_id, "notes.txt");
    assert_eq!(record.embedding, Some(vec![1, 2, 3]));
    assert_eq!(
        record.content_hash,
        "ea8f163db38682925e4491c5e58d4bb3506ef8c14eb78a86e908c5624a67200f"
    );
    assert_eq!(record.content_hash.len(), DIGEST_LEN);
    assert_eq!(record.created_at.len(), 13);
    assert_eq!(record.created_at.as_bytes()[8], b'T');
}

#[test]
fn the_digest_is_that_of_the_text_alone() {
    let empty = build_record(chunk("", 0, "a"), None);
    assert_eq!(
        empty.content_hash,
        "af1349b9f5f9a1a6a0404dea36dcc9499bcb25c9adc112b7cc9a93cae41f3262"
    );
    let one = build_record(chunk("same text", 0, "a.txt"), None);
    let other = build_record(chunk("same text", 9, "b.txt"), Some(vec![7]));
    let third = build_record(chunk("same text.", 0, "a.txt"), None);
    assert_eq!(one.content_hash, other.content_hash);
    assert_ne!(one.content_hash, third.content_hash);
    assert_ne!(one.content_hash, one.text);
}

#[test]
fn sealing_takes_the_digest_and_the_time_as_given() {
    let record = seal_record(
        chunk("t", 2, "s"),
        None,
        "digest".to_string(),
        "20240102T0304".to_string(),
    );
    assert_eq!(record.id, None);
    assert_eq!(record.content_hash, "digest");
    assert_eq!(record.created_at, "20240102T0304");
    assert_eq!(record.text, "t");
    assert_eq!(record.ordinal, 2);
    assert_eq!(record.source_id, "s");
    assert_eq!(record.embedding, None);
}

#[test]
fn an_identifier_changes_nothing_else() {
    let record = seal_record(chunk("t", 2, "s"), Some(vec![5]), "d".to_string(), "c".to_string());
    let named = with_id(copy_record(&record), "01ARZ3NDEKTSV4RRFFQ69G5FAV".to_string());
    assert_eq!(named.id.as_deref(), Some("01ARZ3NDEKTSV4RRFFQ69G5FAV"));
    assert_eq!(named.content_hash, record.content_hash);
    assert_eq!(named.created_at, record.created_at);
    assert_eq!(named.text, record.text);
    assert_eq!(named.ordinal, record.ordinal);
    assert_eq!(named.source_id, record.source_id);
    assert_eq!(named.embedding, record.embedding);
    assert_eq!(copy_bits(&vec![9, 8, 7]), vec![9, 8, 7]);
}

#[test]
fn a_record_for_the_vector_store_gets_a_fresh_identifier() {
    let bits: Vec<u32> = vec![0.5f32.to_bits(), (-1.0f32).to_bits()];
    let one = data_to_record(&bits, "paper.txt", "some chunk", 4);
    let two = data_to_record(&bits, "paper.txt", "some chunk", 4);
    assert_eq!(one.source_id, "paper.txt");
    assert_eq!(one.text, "some chunk");
    assert_eq!(one.ordinal, 4);
    assert_eq!(one.embedding.as_ref().unwrap(), &bits);
    assert_eq!(f32::from_bits(one.embedding.as_ref().unwrap()[0]), 0.5);
    assert_eq!(one.content_hash, two.content_hash);
    let id = one.id.unwrap();
    assert_eq!(id.len(), ID_LEN);
    assert!(id.chars().all(|c| c.is_ascii_digit() || c.is_ascii_uppercase()));
    assert_ne!(id, two.id.unwrap());
}

#[test]
fn records_number_the_chunks_of_a_document() {
    let chunks = vec!["zero".to_string(), "one".to_string(), "two".to_string()];
    let embeddings = vec![vec![1, 1], vec![2, 2], vec![3, 3]];
    let records = build_records("doc.md", &chunks, &embeddings, 2).unwrap();
    assert_eq!(records.len(), 3);
    for (i, record) in records.iter().enumerate() {
        assert_eq!(record.ordinal, i as u64);
        assert_eq!(record.text, chunks[i]);
        assert_eq!(record.source_id, "doc.md");
        assert_eq!(record.embedding.as_ref(), Some(&embeddings[i]));
        assert_eq!(record.id, None);
        assert_eq!(record.content_hash, blake3::hash(chunks[i].as_bytes()).to_string());
    }
}

#[test]
fn an_embedding_of_another_dimension_fails_the_document() {
    let chunks = vec!["zero".to_string(), "one".to_string(), "two".to_string()];
    let embeddings = vec![vec![1, 1], vec![2, 2, 2], vec![3]];
    assert_eq!(
        build_records("doc.md", &chunks, &embeddings, 2).unwrap_err(),
        RetrievalError::DimensionMismatch { expected: 2, found: 3 }
    );
    assert_eq!(
        build_records("doc.md", &chunks, &embeddings, 3).unwrap_err(),
        RetrievalError::DimensionMismatch { expected: 3, found: 2 }
    );
}

#[test]
fn the_longer_list_is_cut_to_the_shorter() {
    let chunks = vec!["zero".to_string(), "one".to_string()];
    let embeddings = vec![vec![1], vec![2], vec![3, 3, 3]];
    assert_eq!(build_records("d", &chunks, &embeddings, 1).unwrap().len(), 2);
    assert_eq!(build_records("d", &chunks, &embeddings[..1].to_vec(), 1).unwrap().len(), 1);
    assert!(build_records("d", &Vec::new(), &embeddings, 7).unwrap().is_empty());
}

#[test]
fn text_records_have_no_embedding() {
    let chunks = vec!["zero".to_string(), "one".to_string()];
    let records = build_text_records("doc.txt", &chunks);
    assert_eq!(records.len(), 2);
    assert_eq!(records[1].ordinal, 1);
    assert_eq!(records[1].text, "one");
    assert_eq!(records[1].embedding, None);
    assert_eq!(records[0].source_id, "doc.txt");
    assert!(build_text_records("doc.txt", &Vec::new()).is_empty());
}

#[test]
fn errors_describe_themselves() {
    assert_eq!(RetrievalError::InvalidThreshold.message(), "invalid threshold");
    assert_eq!(RetrievalError::HashCollision.message(), "hash collision");
    assert_eq!(RetrievalError::OriginMismatch.message(), "origin mismatch");
    assert_eq!(RetrievalError::BackendUnavailable { inserted: 2 }.message(), "backend unavailable");
    assert_eq!(
        RetrievalError::DimensionMismatch { expected: 1, found: 2 }.message(),
        "dimension mismatch"
    );
}
