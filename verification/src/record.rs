//! The record that both indexes store: a chunk with its provenance and a
//! digest of its text.

use crate::error::RetrievalError;
use vstd::prelude::*;
use vstd::string::StringExecFns;

verus! {

/// A bounded excerpt of a source document.
#[derive(Debug)]
pub struct Chunk {
    pub text: String,
    pub ordinal: u64,
    pub source_id: String,
}

/// The unit that is persisted. An embedding is held as the bit patterns of
/// its components.
#[derive(Debug)]
pub struct Record {
    pub id: Option<String>,
    pub content_hash: String,
    pub source_id: String,
    pub ordinal: u64,
    pub created_at: String,
    pub text: String,
    pub embedding: Option<Vec<u32>>,
}

/// A record as a mathematical value.
pub struct RecordView {
    pub id: Option<Seq<char>>,
    pub content_hash: Seq<char>,
    pub source_id: Seq<char>,
    pub ordinal: u64,
    pub created_at: Seq<char>,
    pub text: Seq<char>,
    pub embedding: Option<Seq<u32>>,
}

/// The BLAKE3 digest of the UTF-8 bytes of `text`, in lowercase
/// hexadecimal.
pub uninterp spec fn content_digest(text: Seq<char>) -> Seq<char>;

/// The length of a digest in hexadecimal.
pub const DIGEST_LEN: usize = 64;

/// The length of a record identifier.
pub const ID_LEN: usize = 26;

/// The views of an optional string.
pub open spec fn optional_text(s: Option<String>) -> Option<Seq<char>> {
    match s {
        Some(text) => Some(text@),
        None => None,
    }
}

/// The views of an optional embedding.
pub open spec fn optional_bits(v: Option<Vec<u32>>) -> Option<Seq<u32>> {
    match v {
        Some(bits) => Some(bits@),
        None => None,
    }
}

impl View for Record {
    type V = RecordView;

    open spec fn view(&self) -> RecordView {
        RecordView {
            id: optional_text(self.id),
            content_hash: self.content_hash@,
            source_id: self.source_id@,
            ordinal: self.ordinal,
            created_at: self.created_at@,
            text: self.text@,
            embedding: optional_bits(self.embedding),
        }
    }
}

impl RecordView {
    /// Whether the digest is that of the text.
    pub open spec fn sealed(self) -> bool {
        self.content_hash == content_digest(self.text)
    }
}

/// The views of a list of records.
pub open spec fn record_views(records: Seq<Record>) -> Seq<RecordView> {
    Seq::new(records.len(), |i: int| records[i]@)
}

/// Calls `blake3::hash` on the UTF-8 bytes of `text` and writes the digest
/// out as `blake3::Hash` displays it: sixty-four lowercase hexadecimal
/// digits. The digest depends on the text alone.
#[verifier::external_body]
fn digest_text(text: &str) -> (digest: String)
    ensures
        digest@ == content_digest(text@),
        digest@.len() == DIGEST_LEN,
{
    blake3::hash(text.as_bytes()).to_string()
}

/// Calls `chrono::Local::now` and formats the local time as year, month,
/// day, the letter T, hour and minute. Nothing is claimed of the result.
#[verifier::external_body]
fn timestamp_now() -> (stamp: String) {
    chrono::Local::now().format("%Y%m%dT%H%M").to_string()
}

/// Calls `ulid::Ulid::new` and writes the identifier out in Crockford
/// base 32, which takes twenty-six characters. The identifier holds the
/// time and random bits, so nothing else is claimed of it.
#[verifier::external_body]
pub(crate) fn fresh_id() -> (id: String)
    ensures
        id@.len() == ID_LEN,
{
    ulid::Ulid::new().to_string()
}

/// A copy of `bits`.
pub fn copy_bits(bits: &Vec<u32>) -> (copy: Vec<u32>)
    ensures
        copy@ == bits@,
{
    let mut out: Vec<u32> = Vec::new();
    let mut i: usize = 0;
    while i < bits.len()
        invariant
            i <= bits.len(),
            out@ == bits@.take(i as int),
        decreases bits.len() - i,
    {
        out.push(bits[i]);
        assert(bits@.take(i + 1) =~= bits@.take(i as int).push(bits@[i as int]));
        i += 1;
    }
    assert(bits@.take(bits.len() as int) =~= bits@);
    out
}

/// A copy of `record`.
pub fn copy_record(record: &Record) -> (copy: Record)
    ensures
        copy@ == record@,
{
    Record {
        id: match &record.id {
            Some(id) => Some(id.clone()),
            None => None,
        },
        content_hash: record.content_hash.clone(),
        source_id: record.source_id.clone(),
        ordinal: record.ordinal,
        created_at: record.created_at.clone(),
        text: record.text.clone(),
        embedding: match &record.embedding {
            Some(bits) => Some(copy_bits(bits)),
            None => None,
        },
    }
}

/// The record for `chunk` with the given digest and time of creation. It
/// has no identifier yet.
pub fn seal_record(
    chunk: Chunk,
    embedding: Option<Vec<u32>>,
    content_hash: String,
    created_at: String,
) -> (record: Record)
    ensures
        record@ == (RecordView {
            id: None,
            content_hash: content_hash@,
            source_id: chunk.source_id@,
            ordinal: chunk.ordinal,
            created_at: created_at@,
            text: chunk.text@,
            embedding: optional_bits(embedding),
        }),
{
    Record {
        id: None,
        content_hash,
        source_id: chunk.source_id,
        ordinal: chunk.ordinal,
        created_at,
        text: chunk.text,
        embedding,
    }
}

/// Wraps `chunk` into a record: the text and its provenance, the digest of
/// the text, and the time of the call. The store that takes the record
/// gives it its identifier.
pub fn build_record(chunk: Chunk, embedding: Option<Vec<u32>>) -> (record: Record)
    ensures
        record@ == (RecordView {
            id: None,
            content_hash: content_digest(chunk.text@),
            source_id: chunk.source_id@,
            ordinal: chunk.ordinal,
            created_at: record@.created_at,
            text: chunk.text@,
            embedding: optional_bits(embedding),
        }),
        record@.sealed(),
        record@.content_hash.len() == DIGEST_LEN,
{
    let content_hash = digest_text(chunk.text.as_str());
    let created_at = timestamp_now();
    seal_record(chunk, embedding, content_hash, created_at)
}

/// `record` with `id` as its identifier.
pub fn with_id(record: Record, id: String) -> (named: Record)
    ensures
        named@ == (RecordView { id: Some(id@), ..record@ }),
{
    Record {
        id: Some(id),
        content_hash: record.content_hash,
        source_id: record.source_id,
        ordinal: record.ordinal,
        created_at: record.created_at,
        text: record.text,
        embedding: record.embedding,
    }
}

/// The record for the chunk `txt`, number `cnt` of the file `filename`,
/// with its embedding and a fresh identifier.
pub fn data_to_record(emb: &Vec<u32>, filename: &str, txt: &str, cnt: usize) -> (record: Record)
    ensures
        record@ == (RecordView {
            id: record@.id,
            content_hash: content_digest(txt@),
            source_id: filename@,
            ordinal: cnt as u64,
            created_at: record@.created_at,
            text: txt@,
            embedding: Some(emb@),
        }),
        record@.id is Some,
        record@.id->0.len() == ID_LEN,
        record@.sealed(),
{
    let chunk = Chunk {
        text: String::from_str(txt),
        ordinal: cnt as u64,
        source_id: String::from_str(filename),
    };
    let record = build_record(chunk, Some(copy_bits(emb)));
    with_id(record, fresh_id())
}

/// Whether the first `n` embeddings all have `dimension` components.
pub open spec fn uniform(embeddings: Seq<Vec<u32>>, n: int, dimension: usize) -> bool {
    forall|k: int| 0 <= k < n ==> (#[trigger] embeddings[k]).len() == dimension
}

/// The smaller of two lengths.
pub open spec fn shorter(a: int, b: int) -> int {
    if a <= b {
        a
    } else {
        b
    }
}

/// Whether `record` is the record of chunk number `i` of `source_id`.
pub open spec fn record_of(
    record: RecordView,
    source_id: Seq<char>,
    i: int,
    text: Seq<char>,
    embedding: Option<Seq<u32>>,
) -> bool {
    &&& record.id is None
    &&& record.content_hash == content_digest(text)
    &&& record.source_id == source_id
    &&& record.ordinal == i
    &&& record.text == text
    &&& record.embedding == embedding
}

/// The records of the chunks of one document, each with its embedding:
/// chunk and embedding number `i` make the record with ordinal `i`. Where
/// the two lists differ in length the longer one's tail is left out. An
/// embedding that has not `dimension` components fails the whole
/// document, and the first such embedding is reported.
pub fn build_records(
    source_id: &str,
    chunks: &Vec<String>,
    embeddings: &Vec<Vec<u32>>,
    dimension: usize,
) -> (built: Result<Vec<Record>, RetrievalError>)
    ensures
        built is Ok <==> uniform(
            embeddings@,
            shorter(chunks.len() as int, embeddings.len() as int),
            dimension,
        ),
        built is Ok ==> built->Ok_0.len() == shorter(chunks.len() as int, embeddings.len() as int),
        built is Ok ==> forall|i: int|
            0 <= i < built->Ok_0.len() ==> record_of(
                (#[trigger] built->Ok_0[i])@,
                source_id@,
                i,
                chunks[i]@,
                Some(embeddings[i]@),
            ),
        built is Err ==> exists|k: int|
            0 <= k < shorter(chunks.len() as int, embeddings.len() as int) && uniform(
                embeddings@,
                k,
                dimension,
            ) && (#[trigger] embeddings[k]).len() != dimension && built->Err_0
                == (RetrievalError::DimensionMismatch {
                expected: dimension,
                found: embeddings[k].len(),
            }),
{
    let n = if chunks.len() <= embeddings.len() {
        chunks.len()
    } else {
        embeddings.len()
    };
    let mut out: Vec<Record> = Vec::new();
    let mut i: usize = 0;
    while i < n
        invariant
            i <= n,
            n == shorter(chunks.len() as int, embeddings.len() as int),
            out.len() == i,
            uniform(embeddings@, i as int, dimension),
            forall|k: int|
                0 <= k < i ==> record_of(
                    (#[trigger] out[k])@,
                    source_id@,
                    k,
                    chunks[k]@,
                    Some(embeddings[k]@),
                ),
        decreases n - i,
    {
        if embeddings[i].len() != dimension {
            return Err(
                RetrievalError::DimensionMismatch { expected: dimension, found: embeddings[i].len() },
            );
        }
        let chunk = Chunk {
            text: chunks[i].clone(),
            ordinal: i as u64,
            source_id: String::from_str(source_id),
        };
        let record = build_record(chunk, Some(copy_bits(&embeddings[i])));
        out.push(record);
        i += 1;
    }
    Ok(out)
}

/// The records of the chunks of one document for a store without
/// embeddings: chunk number `i` makes the record with ordinal `i`.
pub fn build_text_records(source_id: &str, chunks: &Vec<String>) -> (built: Vec<Record>)
    ensures
        built.len() == chunks.len(),
        forall|i: int|
            0 <= i < built.len() ==> record_of(
                (#[trigger] built[i])@,
                source_id@,
                i,
                chunks[i]@,
                None,
            ),
{
    let mut out: Vec<Record> = Vec::new();
    let mut i: usize = 0;
    while i < chunks.len()
        invariant
            i <= chunks.len(),
            out.len() == i,
            forall|k: int|
                0 <= k < i ==> record_of((#[trigger] out[k])@, source_id@, k, chunks[k]@, None),
        decreases chunks.len() - i,
    {
        let chunk = Chunk {
            text: chunks[i].clone(),
            ordinal: i as u64,
            source_id: String::from_str(source_id),
        };
        let record = build_record(chunk, None);
        out.push(record);
        i += 1;
    }
    out
}

} // verus!
