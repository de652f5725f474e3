//! One unit of information as a store hands it out, and its conversion
//! from and to the fields that the stores keep.

use crate::fusion::{CandidateHit, HitView, Origin};
use crate::text::{decimal, from_chars, push_decimal, to_chars};
use vstd::prelude::*;
use vstd::string::StringExecFns;

verus! {

/// The value of one stored field, as far as the core reads it.
#[derive(Debug)]
pub enum FieldValue {
    Text(String),
    Integer(u64),
    /// A value of any other kind.
    Other,
}

/// A named field of a stored document.
#[derive(Debug)]
pub struct Field {
    pub name: String,
    pub value: FieldValue,
}

/// The metadata that the vector store keeps with a vector.
#[derive(Debug)]
pub enum Metadata {
    Text(String),
    Integer(u64),
    /// A bag of named values; a name is looked up at its first occurrence.
    Object(Vec<Field>),
    /// A value of any other kind.
    Other,
}

/// A nearest neighbour as the vector store returns it. The distance counts
/// millionths.
#[derive(Debug)]
pub struct SearchResult {
    pub id: u32,
    pub distance: u64,
    pub data: Metadata,
}

/// One unit of information from either store. The score counts millionths.
#[derive(Debug)]
pub struct MinervaDoc {
    pub title: String,
    pub body: String,
    pub page_num: u64,
    pub chunk_num: u64,
    pub hash_body: String,
    pub ulid: String,
    pub score: u64,
}

/// Why stored fields could not be read as a document.
#[derive(Debug)]
pub enum ConversionError {
    /// The field of this name is not there, or holds a value of the wrong
    /// kind.
    MissingField(String),
    /// The value of this name has not the kind that is asked for.
    InvalidType(String),
}

/// A field value as a mathematical value.
pub enum ValueView {
    Text(Seq<char>),
    Integer(u64),
    Other,
}

/// A field as a mathematical value.
pub struct FieldView {
    pub name: Seq<char>,
    pub value: ValueView,
}

/// A document as a mathematical value.
pub struct DocView {
    pub title: Seq<char>,
    pub body: Seq<char>,
    pub page_num: u64,
    pub chunk_num: u64,
    pub hash_body: Seq<char>,
    pub ulid: Seq<char>,
    pub score: u64,
}

/// A conversion error as a mathematical value.
pub enum ErrorView {
    MissingField(Seq<char>),
    InvalidType(Seq<char>),
}

impl View for FieldValue {
    type V = ValueView;

    open spec fn view(&self) -> ValueView {
        match self {
            FieldValue::Text(text) => ValueView::Text(text@),
            FieldValue::Integer(number) => ValueView::Integer(*number),
            FieldValue::Other => ValueView::Other,
        }
    }
}

impl View for Field {
    type V = FieldView;

    open spec fn view(&self) -> FieldView {
        FieldView { name: self.name@, value: self.value@ }
    }
}

impl View for MinervaDoc {
    type V = DocView;

    open spec fn view(&self) -> DocView {
        DocView {
            title: self.title@,
            body: self.body@,
            page_num: self.page_num,
            chunk_num: self.chunk_num,
            hash_body: self.hash_body@,
            ulid: self.ulid@,
            score: self.score,
        }
    }
}

impl View for ConversionError {
    type V = ErrorView;

    open spec fn view(&self) -> ErrorView {
        match self {
            ConversionError::MissingField(name) => ErrorView::MissingField(name@),
            ConversionError::InvalidType(name) => ErrorView::InvalidType(name@),
        }
    }
}

/// The views of a list of fields.
pub open spec fn field_views(fields: Seq<Field>) -> Seq<FieldView> {
    Seq::new(fields.len(), |i: int| fields[i]@)
}

/// The fields of an object, or nothing for any other metadata.
pub open spec fn object_fields(data: Metadata) -> Option<Seq<FieldView>> {
    match data {
        Metadata::Object(fields) => Some(field_views(fields@)),
        _ => None,
    }
}

/// The index at or after `i` of the first field called `name`, or the
/// number of fields where there is none.
pub open spec fn index_from(fields: Seq<FieldView>, name: Seq<char>, i: int) -> int
    decreases fields.len() - i,
{
    if i < 0 || i >= fields.len() {
        fields.len() as int
    } else if fields[i].name == name {
        i
    } else {
        index_from(fields, name, i + 1)
    }
}

/// The value of the first field called `name`.
pub open spec fn first_value(fields: Seq<FieldView>, name: Seq<char>) -> Option<ValueView> {
    let at = index_from(fields, name, 0);
    if at < fields.len() {
        Some(fields[at].value)
    } else {
        None
    }
}

/// The text of the first field called `name`, where it holds a text.
pub open spec fn text_of(fields: Seq<FieldView>, name: Seq<char>) -> Option<Seq<char>> {
    match first_value(fields, name) {
        Some(ValueView::Text(text)) => Some(text),
        _ => None,
    }
}

/// The number of the first field called `name`, where it holds a number.
pub open spec fn number_of(fields: Seq<FieldView>, name: Seq<char>) -> Option<u64> {
    match first_value(fields, name) {
        Some(ValueView::Integer(number)) => Some(number),
        _ => None,
    }
}

/// The value of the first field called `name`.
pub fn find_field<'a>(fields: &'a Vec<Field>, name: &str) -> (found: Option<&'a FieldValue>)
    ensures
        match found {
            Some(value) => first_value(field_views(fields@), name@) == Some(value@),
            None => first_value(field_views(fields@), name@) is None,
        },
{
    let ghost views = field_views(fields@);
    let wanted = String::from_str(name);
    let mut i: usize = 0;
    while i < fields.len()
        invariant
            i <= fields.len(),
            views == field_views(fields@),
            wanted@ == name@,
            index_from(views, name@, 0) == index_from(views, name@, i as int),
        decreases fields.len() - i,
    {
        assert(views[i as int] == fields@[i as int]@);
        if fields[i].name == wanted {
            return Some(&fields[i].value);
        }
        i += 1;
    }
    None
}

/// The text of the first field called `name`, where it holds a text.
pub fn find_text(fields: &Vec<Field>, name: &str) -> (found: Option<String>)
    ensures
        match found {
            Some(text) => text_of(field_views(fields@), name@) == Some(text@),
            None => text_of(field_views(fields@), name@) is None,
        },
{
    match find_field(fields, name) {
        Some(FieldValue::Text(text)) => Some(text.clone()),
        _ => None,
    }
}

/// The number of the first field called `name`, where it holds a number.
pub fn find_number(fields: &Vec<Field>, name: &str) -> (found: Option<u64>)
    ensures
        found == number_of(field_views(fields@), name@),
{
    match find_field(fields, name) {
        Some(FieldValue::Integer(number)) => Some(*number),
        _ => None,
    }
}

/// The outcome of a conversion as a mathematical value.
pub open spec fn outcome(converted: Result<MinervaDoc, ConversionError>) -> Result<
    DocView,
    ErrorView,
> {
    match converted {
        Ok(doc) => Ok(doc@),
        Err(error) => Err(error@),
    }
}

/// The document that the metadata fields of a vector hold: the file name,
/// the text, the chunk count and the identifier, each of its kind. The
/// first of these that is not there, or is of another kind, is reported.
/// The page is zero, the digest unknown and the score zero.
pub open spec fn doc_of_metadata(fields: Seq<FieldView>) -> Result<DocView, ErrorView> {
    if text_of(fields, "filename"@) is None {
        Err(ErrorView::InvalidType("filename"@))
    } else if text_of(fields, "text"@) is None {
        Err(ErrorView::InvalidType("text"@))
    } else if number_of(fields, "ccnt"@) is None {
        Err(ErrorView::InvalidType("ccnt"@))
    } else if text_of(fields, "ulid"@) is None {
        Err(ErrorView::InvalidType("ulid"@))
    } else {
        Ok(
            DocView {
                title: text_of(fields, "filename"@)->0,
                body: text_of(fields, "text"@)->0,
                page_num: 0,
                chunk_num: number_of(fields, "ccnt"@)->0,
                hash_body: "?"@,
                ulid: text_of(fields, "ulid"@)->0,
                score: 0,
            },
        )
    }
}

/// The document that a search result holds. Metadata that is no object is
/// reported under the name `data`.
pub open spec fn doc_of_result(data: Metadata) -> Result<DocView, ErrorView> {
    match object_fields(data) {
        Some(fields) => doc_of_metadata(fields),
        None => Err(ErrorView::InvalidType("data"@)),
    }
}

/// The document that the fields of the lexical index hold: title, body,
/// page number, chunk number, digest and identifier, each of its kind. The
/// first of these that is not there, or is of another kind, is reported as
/// missing. The score is zero.
pub open spec fn doc_of_fields(fields: Seq<FieldView>) -> Result<DocView, ErrorView> {
    if text_of(fields, "title"@) is None {
        Err(ErrorView::MissingField("title"@))
    } else if text_of(fields, "body"@) is None {
        Err(ErrorView::MissingField("body"@))
    } else if number_of(fields, "page_number"@) is None {
        Err(ErrorView::MissingField("page_number"@))
    } else if number_of(fields, "chunk_number"@) is None {
        Err(ErrorView::MissingField("chunk_number"@))
    } else if text_of(fields, "hash_body"@) is None {
        Err(ErrorView::MissingField("hash_body"@))
    } else if text_of(fields, "ulid"@) is None {
        Err(ErrorView::MissingField("ulid"@))
    } else {
        Ok(
            DocView {
                title: text_of(fields, "title"@)->0,
                body: text_of(fields, "body"@)->0,
                page_num: number_of(fields, "page_number"@)->0,
                chunk_num: number_of(fields, "chunk_number"@)->0,
                hash_body: text_of(fields, "hash_body"@)->0,
                ulid: text_of(fields, "ulid"@)->0,
                score: 0,
            },
        )
    }
}

/// The fields under which the lexical index keeps a document.
pub open spec fn fields_of_doc(doc: DocView) -> Seq<FieldView> {
    seq![
        FieldView { name: "title"@, value: ValueView::Text(doc.title) },
        FieldView { name: "body"@, value: ValueView::Text(doc.body) },
        FieldView { name: "page_number"@, value: ValueView::Integer(doc.page_num) },
        FieldView { name: "chunk_number"@, value: ValueView::Integer(doc.chunk_num) },
        FieldView { name: "hash_body"@, value: ValueView::Text(doc.hash_body) },
        FieldView { name: "ulid"@, value: ValueView::Text(doc.ulid) },
    ]
}

/// How a document is written out: title, page, chunk and identifier on one
/// line, the body on the next behind four spaces.
pub open spec fn display_of(doc: DocView) -> Seq<char> {
    doc.title + " "@ + decimal(doc.page_num as nat) + "/"@ + decimal(doc.chunk_num as nat) + " "@
        + doc.ulid + "\n    "@ + doc.body
}

impl MinervaDoc {
    /// Reads a nearest neighbour of the vector store as a document.
    pub fn from_search_result(result: &SearchResult) -> (converted: Result<
        MinervaDoc,
        ConversionError,
    >)
        ensures
            outcome(converted) == doc_of_result(result.data),
    {
        let fields = match &result.data {
            Metadata::Object(fields) => fields,
            _ => {
                return Err(ConversionError::InvalidType(String::from_str("data")));
            },
        };
        let title = match find_text(fields, "filename") {
            Some(text) => text,
            None => {
                return Err(ConversionError::InvalidType(String::from_str("filename")));
            },
        };
        let body = match find_text(fields, "text") {
            Some(text) => text,
            None => {
                return Err(ConversionError::InvalidType(String::from_str("text")));
            },
        };
        let chunk_num = match find_number(fields, "ccnt") {
            Some(number) => number,
            None => {
                return Err(ConversionError::InvalidType(String::from_str("ccnt")));
            },
        };
        let ulid = match find_text(fields, "ulid") {
            Some(text) => text,
            None => {
                return Err(ConversionError::InvalidType(String::from_str("ulid")));
            },
        };
        Ok(
            MinervaDoc {
                title,
                body,
                page_num: 0,
                chunk_num,
                hash_body: String::from_str("?"),
                ulid,
                score: 0,
            },
        )
    }

    /// Reads a document of the lexical index from its fields.
    pub fn from_fields(fields: &Vec<Field>) -> (converted: Result<MinervaDoc, ConversionError>)
        ensures
            outcome(converted) == doc_of_fields(field_views(fields@)),
    {
        let title = match find_text(fields, "title") {
            Some(text) => text,
            None => {
                return Err(ConversionError::MissingField(String::from_str("title")));
            },
        };
        let body = match find_text(fields, "body") {
            Some(text) => text,
            None => {
                return Err(ConversionError::MissingField(String::from_str("body")));
            },
        };
        let page_num = match find_number(fields, "page_number") {
            Some(number) => number,
            None => {
                return Err(ConversionError::MissingField(String::from_str("page_number")));
            },
        };
        let chunk_num = match find_number(fields, "chunk_number") {
            Some(number) => number,
            None => {
                return Err(ConversionError::MissingField(String::from_str("chunk_number")));
            },
        };
        let hash_body = match find_text(fields, "hash_body") {
            Some(text) => text,
            None => {
                return Err(ConversionError::MissingField(String::from_str("hash_body")));
            },
        };
        let ulid = match find_text(fields, "ulid") {
            Some(text) => text,
            None => {
                return Err(ConversionError::MissingField(String::from_str("ulid")));
            },
        };
        Ok(MinervaDoc { title, body, page_num, chunk_num, hash_body, ulid, score: 0 })
    }

    /// The fields under which the lexical index keeps this document.
    pub fn to_fields(&self) -> (fields: Vec<Field>)
        ensures
            field_views(fields@) == fields_of_doc(self@),
    {
        let mut fields: Vec<Field> = Vec::new();
        fields.push(
            Field { name: String::from_str("title"), value: FieldValue::Text(self.title.clone()) },
        );
        fields.push(
            Field { name: String::from_str("body"), value: FieldValue::Text(self.body.clone()) },
        );
        fields.push(
            Field {
                name: String::from_str("page_number"),
                value: FieldValue::Integer(self.page_num),
            },
        );
        fields.push(
            Field {
                name: String::from_str("chunk_number"),
                value: FieldValue::Integer(self.chunk_num),
            },
        );
        fields.push(
            Field {
                name: String::from_str("hash_body"),
                value: FieldValue::Text(self.hash_body.clone()),
            },
        );
        fields.push(
            Field { name: String::from_str("ulid"), value: FieldValue::Text(self.ulid.clone()) },
        );
        assert(field_views(fields@) =~= fields_of_doc(self@));
        fields
    }

    /// The document written out in full.
    pub fn display(&self) -> (text: String)
        ensures
            text@ == display_of(self@),
    {
        let mut out = self.title.clone();
        out.append(" ");
        push_decimal(&mut out, self.page_num);
        out.append("/");
        push_decimal(&mut out, self.chunk_num);
        out.append(" ");
        out.append(self.ulid.as_str());
        out.append("\n    ");
        out.append(self.body.as_str());
        out
    }

    /// The document as a hit of the index `origin` with the given score.
    pub fn to_hit(&self, origin: Origin, score: u64) -> (hit: CandidateHit)
        ensures
            hit@ == (HitView {
                record_id: self@.ulid,
                source_id: self@.title,
                ordinal: self@.chunk_num,
                text: self@.body,
                score: score as nat,
                origin,
            }),
    {
        CandidateHit {
            record_id: self.ulid.clone(),
            source_id: self.title.clone(),
            ordinal: self.chunk_num,
            text: self.body.clone(),
            score,
            origin,
        }
    }
}

/// The fields of an object, or nothing for any other metadata.
pub fn md_to_hashmap(metadata: &Metadata) -> (fields: Option<&Vec<Field>>)
    ensures
        match fields {
            Some(found) => object_fields(*metadata) == Some(field_views(found@)),
            None => object_fields(*metadata) is None,
        },
{
    match metadata {
        Metadata::Object(fields) => Some(fields),
        _ => None,
    }
}

/// How a plain value of the metadata reads: a text as it is, a number in
/// base ten.
pub open spec fn text_of_metadata(metadata: Metadata) -> Option<Seq<char>> {
    match metadata {
        Metadata::Text(text) => Some(text@),
        Metadata::Integer(number) => Some(decimal(number as nat)),
        _ => None,
    }
}

/// A text or a number of the metadata as a string, nothing for any other
/// value.
pub fn md_to_str(metadata: &Metadata) -> (text: Option<String>)
    ensures
        match text {
            Some(found) => text_of_metadata(*metadata) == Some(found@),
            None => text_of_metadata(*metadata) is None,
        },
{
    match metadata {
        Metadata::Text(text) => Some(text.clone()),
        Metadata::Integer(number) => {
            let mut out = String::new();
            push_decimal(&mut out, *number);
            assert(out@ =~= decimal(*number as nat));
            Some(out)
        },
        _ => None,
    }
}

/// The text of a text value.
pub fn extract_string(value: &FieldValue) -> (text: Option<String>)
    ensures
        match text {
            Some(found) => value@ == ValueView::Text(found@),
            None => !(value@ is Text),
        },
{
    match value {
        FieldValue::Text(text) => Some(text.clone()),
        _ => None,
    }
}

/// The number of a number value.
pub fn extract_u64(value: &FieldValue) -> (number: Option<u64>)
    ensures
        match number {
            Some(found) => value@ == ValueView::Integer(found),
            None => !(value@ is Integer),
        },
{
    match value {
        FieldValue::Integer(number) => Some(*number),
        _ => None,
    }
}

/// A document that was written out as fields reads back as itself, with a
/// score of zero.
pub proof fn lemma_fields_round_trip(doc: DocView)
    ensures
        doc_of_fields(fields_of_doc(doc)) == Ok::<DocView, ErrorView>(
            DocView { score: 0, ..doc },
        ),
{
    reveal_strlit("title");
    reveal_strlit("body");
    reveal_strlit("page_number");
    reveal_strlit("chunk_number");
    reveal_strlit("hash_body");
    reveal_strlit("ulid");
    let fields = fields_of_doc(doc);
    assert("title"@.len() == 5);
    assert("body"@.len() == 4);
    assert("page_number"@.len() == 11);
    assert("chunk_number"@.len() == 12);
    assert("hash_body"@.len() == 9);
    assert("ulid"@.len() == 4);
    assert("body"@[0] == 'b');
    assert("ulid"@[0] == 'u');
    assert("body"@ != "ulid"@);
    assert(index_from(fields, "ulid"@, 5) == 5);
    assert(index_from(fields, "ulid"@, 4) == 5);
    assert(index_from(fields, "ulid"@, 3) == 5);
    assert(index_from(fields, "ulid"@, 2) == 5);
    assert(index_from(fields, "ulid"@, 1) == 5);
    assert(index_from(fields, "ulid"@, 0) == 5);
    assert(index_from(fields, "hash_body"@, 4) == 4);
    assert(index_from(fields, "hash_body"@, 3) == 4);
    assert(index_from(fields, "hash_body"@, 2) == 4);
    assert(index_from(fields, "hash_body"@, 1) == 4);
    assert(index_from(fields, "hash_body"@, 0) == 4);
    assert(index_from(fields, "chunk_number"@, 3) == 3);
    assert(index_from(fields, "chunk_number"@, 2) == 3);
    assert(index_from(fields, "chunk_number"@, 1) == 3);
    assert(index_from(fields, "chunk_number"@, 0) == 3);
    assert(index_from(fields, "page_number"@, 2) == 2);
    assert(index_from(fields, "page_number"@, 1) == 2);
    assert(index_from(fields, "page_number"@, 0) == 2);
    assert(index_from(fields, "body"@, 1) == 1);
    assert(index_from(fields, "body"@, 0) == 1);
    assert(index_from(fields, "title"@, 0) == 0);
}

/// The characters of `body` on one line: each line feed becomes a space
/// and carriage returns are left out.
pub open spec fn on_one_line(body: Seq<char>) -> Seq<char>
    decreases body.len(),
{
    if body.len() == 0 {
        Seq::empty()
    } else {
        let front = on_one_line(body.drop_last());
        if body.last() == '\n' {
            front.push(' ')
        } else if body.last() == '\r' {
            front
        } else {
            front.push(body.last())
        }
    }
}

/// The number of characters of a body that a line of `width` columns
/// shows: eight columns are kept free.
pub open spec fn preview_len(width: u16) -> nat {
    if width >= 8 {
        (width - 8) as nat
    } else {
        0
    }
}

/// What a listing shows of a body on a terminal of `width` columns.
pub open spec fn preview_of(body: Seq<char>, width: u16) -> Seq<char> {
    let line = on_one_line(body);
    if line.len() <= preview_len(width) {
        line
    } else {
        line.take(preview_len(width) as int)
    }
}

/// What a listing shows of `body` on a terminal of `width` columns: the
/// body on one line, cut to the width less eight.
pub fn body_preview(body: &str, width: u16) -> (shown: String)
    ensures
        shown@ == preview_of(body@, width),
{
    let room: usize = if width >= 8 {
        (width - 8) as usize
    } else {
        0
    };
    let chars = to_chars(body);
    let mut out = String::new();
    let mut taken: usize = 0;
    let mut i: usize = 0;
    let ghost full = chars@;
    assert(full.take(0) =~= Seq::<char>::empty());
    while i < chars.len() && taken < room
        invariant
            i <= chars.len(),
            full == chars@,
            taken == out@.len(),
            taken <= room,
            room == preview_len(width),
            out@ == on_one_line(full.take(i as int)),
        decreases chars.len() - i,
    {
        let c = chars[i];
        proof {
            assert(full.take(i + 1).drop_last() =~= full.take(i as int));
            assert(full.take(i + 1).last() == c);
        }
        if c == '\n' {
            out.push(' ');
            taken += 1;
        } else if c != '\r' {
            out.push(c);
            taken += 1;
        }
        i += 1;
    }
    proof {
        lemma_on_one_line_prefix(full, i as int);
        if i == chars.len() {
            assert(full.take(i as int) =~= full);
        } else {
            assert(out@ =~= on_one_line(full).take(room as int));
        }
    }
    out
}

/// The one-line form of a prefix is a prefix of the one-line form.
pub proof fn lemma_on_one_line_prefix(body: Seq<char>, n: int)
    requires
        0 <= n <= body.len(),
    ensures
        on_one_line(body.take(n)).len() <= on_one_line(body).len(),
        on_one_line(body.take(n)) == on_one_line(body).take(on_one_line(body.take(n)).len() as int),
    decreases body.len(),
{
    if n == body.len() {
        assert(body.take(n) =~= body);
        assert(on_one_line(body).take(on_one_line(body).len() as int) =~= on_one_line(body));
    } else {
        lemma_on_one_line_prefix(body.drop_last(), n);
        assert(body.drop_last().take(n) =~= body.take(n));
        let front = on_one_line(body.drop_last());
        let part = on_one_line(body.take(n));
        assert(on_one_line(body).take(part.len() as int) =~= front.take(part.len() as int));
    }
}

/// The hit that a converted document makes, or the conversion's error.
pub open spec fn hit_of(converted: Result<DocView, ErrorView>, origin: Origin, score: u64) -> Result<
    HitView,
    ErrorView,
> {
    match converted {
        Ok(doc) => Ok(
            HitView {
                record_id: doc.ulid,
                source_id: doc.title,
                ordinal: doc.chunk_num,
                text: doc.body,
                score: score as nat,
                origin,
            },
        ),
        Err(error) => Err(error),
    }
}

/// The outcome of the conversion of a hit as a mathematical value.
pub open spec fn hit_outcome(converted: Result<CandidateHit, ConversionError>) -> Result<
    HitView,
    ErrorView,
> {
    match converted {
        Ok(hit) => Ok(hit@),
        Err(error) => Err(error@),
    }
}

/// A nearest neighbour of the vector store as a hit: its distance is the
/// score.
pub fn vector_hit(result: &SearchResult) -> (converted: Result<CandidateHit, ConversionError>)
    ensures
        hit_outcome(converted) == hit_of(
            doc_of_result(result.data),
            Origin::Vector,
            result.distance,
        ),
{
    match MinervaDoc::from_search_result(result) {
        Ok(doc) => Ok(doc.to_hit(Origin::Vector, result.distance)),
        Err(error) => Err(error),
    }
}

/// A document of the lexical index, found with the relevance `score`, as a
/// hit.
pub fn lexical_hit(fields: &Vec<Field>, score: u64) -> (converted: Result<
    CandidateHit,
    ConversionError,
>)
    ensures
        hit_outcome(converted) == hit_of(
            doc_of_fields(field_views(fields@)),
            Origin::Lexical,
            score,
        ),
{
    match MinervaDoc::from_fields(fields) {
        Ok(doc) => Ok(doc.to_hit(Origin::Lexical, score)),
        Err(error) => Err(error),
    }
}

/// Whether `ranges` are ranges of a text of `len` characters, in order and
/// apart from each other.
pub open spec fn ordered_ranges(ranges: Seq<(usize, usize)>, len: nat) -> bool {
    &&& forall|i: int| 0 <= i < ranges.len() ==> (#[trigger] ranges[i]).0 <= ranges[i].1 <= len
    &&& forall|i: int, j: int|
        0 <= i < j < ranges.len() ==> (#[trigger] ranges[i]).1 <= (#[trigger] ranges[j]).0
}

/// Where the `n`th range starts to be copied from: the end of the range
/// before it.
pub open spec fn resume_at(ranges: Seq<(usize, usize)>, n: int) -> int {
    if n <= 0 {
        0
    } else {
        ranges[n - 1].1 as int
    }
}

/// The fragment up to the end of its `n`th range, each range between the
/// marks ` --> ` and ` <-- `.
pub open spec fn marked_upto(fragment: Seq<char>, ranges: Seq<(usize, usize)>, n: int) -> Seq<char>
    decreases n,
{
    if n <= 0 {
        Seq::empty()
    } else {
        marked_upto(fragment, ranges, n - 1) + fragment.subrange(
            resume_at(ranges, n - 1),
            ranges[n - 1].0 as int,
        ) + " --> "@ + fragment.subrange(ranges[n - 1].0 as int, ranges[n - 1].1 as int) + " <-- "@
    }
}

/// The fragment with each of its ranges between marks.
pub open spec fn marked(fragment: Seq<char>, ranges: Seq<(usize, usize)>) -> Seq<char> {
    marked_upto(fragment, ranges, ranges.len() as int) + fragment.subrange(
        resume_at(ranges, ranges.len() as int),
        fragment.len() as int,
    )
}

/// The snippet `fragment` with the parts that matched the query, given as
/// ranges of characters, between the marks ` --> ` and ` <-- `.
pub fn highlight(fragment: &str, ranges: &Vec<(usize, usize)>) -> (text: String)
    requires
        ordered_ranges(ranges@, fragment@.len()),
    ensures
        text@ == marked(fragment@, ranges@),
{
    let chars = to_chars(fragment);
    let mut out = String::new();
    let mut start: usize = 0;
    let mut i: usize = 0;
    while i < ranges.len()
        invariant
            i <= ranges.len(),
            chars@ == fragment@,
            ordered_ranges(ranges@, fragment@.len()),
            start == resume_at(ranges@, i as int),
            start <= chars.len(),
            out@ == marked_upto(fragment@, ranges@, i as int),
        decreases ranges.len() - i,
    {
        let (from, upto) = ranges[i];
        proof {
            if i > 0 {
                assert(ranges@[i - 1].1 <= ranges@[i as int].0);
            }
        }
        let before = from_chars(&chars, start, from);
        out.append(before.as_str());
        out.append(" --> ");
        let inside = from_chars(&chars, from, upto);
        out.append(inside.as_str());
        out.append(" <-- ");
        start = upto;
        i += 1;
    }
    let rest = from_chars(&chars, start, chars.len());
    out.append(rest.as_str());
    out
}

} // verus!
