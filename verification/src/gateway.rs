//! The contract between the core and the two stores, and the decisions of
//! an ingestion.
//!
//! The stores themselves are outside: the caller performs each action on
//! the store and hands the outcome back as an event. An ingestion asks, for
//! each record in turn, whether its digest is stored already, and has the
//! record inserted only when it is not. A record whose digest occurred
//! earlier in the same batch is passed over without a question.

use crate::error::RetrievalError;
use crate::record::{copy_record, fresh_id, record_views, with_id, Record, RecordView, ID_LEN};
use crate::text::texts;
use vstd::prelude::*;
use vstd::string::StringExecFns;

verus! {

/// Where an ingestion stands.
#[derive(Debug, Clone, Copy, PartialEq, Eq)]
pub enum Phase {
    /// Waiting to learn whether the current record is stored already.
    Probing,
    /// Waiting for the current record to be inserted.
    Inserting,
    /// Every record was dealt with.
    Finished,
    /// The store failed; nothing more will be asked of it.
    Failed,
}

/// What the store answered.
#[derive(Debug, Clone, Copy, PartialEq, Eq)]
pub enum IngestEvent {
    /// Whether the digest asked for is stored.
    Exists(bool),
    /// The record was inserted.
    Inserted,
    /// The store could not be reached.
    Unavailable,
}

/// What the caller is to do next.
#[derive(Debug)]
pub enum IngestAction {
    /// Ask the store whether it holds a record with this digest.
    CheckExists(String),
    /// Insert this record.
    Insert(Record),
    /// Stop: these are the identifiers of the records inserted, in order.
    Finish(Vec<String>),
    /// Stop and report this failure.
    Fail(RetrievalError),
}

/// An action as a mathematical value.
pub enum ActionView {
    CheckExists(Seq<char>),
    Insert(RecordView),
    Finish(Seq<Seq<char>>),
    Fail(RetrievalError),
}

impl View for IngestAction {
    type V = ActionView;

    open spec fn view(&self) -> ActionView {
        match self {
            IngestAction::CheckExists(hash) => ActionView::CheckExists(hash@),
            IngestAction::Insert(record) => ActionView::Insert(record@),
            IngestAction::Finish(ids) => ActionView::Finish(texts(ids@)),
            IngestAction::Fail(error) => ActionView::Fail(*error),
        }
    }
}

/// The state of an ingestion.
pub struct Ingestion {
    records: Vec<Record>,
    cursor: usize,
    phase: Phase,
    ids: Vec<String>,
    pending: Option<String>,
}

/// The state of an ingestion as a mathematical value: the batch, the index
/// of the current record, the phase, the identifiers given so far, and the
/// identifier of the record that is being inserted.
pub struct IngestionView {
    pub records: Seq<RecordView>,
    pub cursor: int,
    pub phase: Phase,
    pub ids: Seq<Seq<char>>,
    pub pending: Option<Seq<char>>,
}

impl View for Ingestion {
    type V = IngestionView;

    closed spec fn view(&self) -> IngestionView {
        IngestionView {
            records: record_views(self.records@),
            cursor: self.cursor as int,
            phase: self.phase,
            ids: texts(self.ids@),
            pending: match self.pending {
                Some(id) => Some(id@),
                None => None,
            },
        }
    }
}

/// Whether the digest of record `i` occurs earlier in the batch.
pub open spec fn repeats(records: Seq<RecordView>, i: int) -> bool {
    exists|k: int| 0 <= k < i && (#[trigger] records[k]).content_hash == records[i].content_hash
}

/// The first index at or after `i` of a record whose digest does not occur
/// earlier in the batch, or the length of the batch.
pub open spec fn next_fresh(records: Seq<RecordView>, i: int) -> int
    decreases records.len() - i,
{
    if 0 <= i < records.len() && repeats(records, i) {
        next_fresh(records, i + 1)
    } else {
        i
    }
}

/// The state that turns to the first record at or after `from` that is to
/// be asked about, or is finished where there is none.
pub open spec fn settled(v: IngestionView, from: int) -> IngestionView {
    let cursor = next_fresh(v.records, from);
    IngestionView {
        records: v.records,
        cursor,
        phase: if cursor < v.records.len() {
            Phase::Probing
        } else {
            Phase::Finished
        },
        ids: v.ids,
        pending: None,
    }
}

/// The state in which an ingestion of `records` starts.
pub open spec fn started(records: Seq<RecordView>) -> IngestionView {
    settled(
        IngestionView {
            records,
            cursor: 0,
            phase: Phase::Probing,
            ids: Seq::empty(),
            pending: None,
        },
        0,
    )
}

/// The state after a failure of the store.
pub open spec fn failed(v: IngestionView) -> IngestionView {
    IngestionView {
        records: v.records,
        cursor: v.cursor,
        phase: Phase::Failed,
        ids: v.ids,
        pending: None,
    }
}

/// The state that follows `v` on `event`, where `fresh` is the identifier
/// for a record that is to be inserted. A stored digest passes the record
/// over; a digest that is not stored has the record inserted; an inserted
/// record adds its identifier; anything else is a failure. A finished or
/// failed ingestion stays as it is.
pub open spec fn step_spec(v: IngestionView, event: IngestEvent, fresh: Seq<char>) -> IngestionView {
    match v.phase {
        Phase::Probing => match event {
            IngestEvent::Exists(true) => settled(v, v.cursor + 1),
            IngestEvent::Exists(false) => IngestionView {
                records: v.records,
                cursor: v.cursor,
                phase: Phase::Inserting,
                ids: v.ids,
                pending: Some(fresh),
            },
            _ => failed(v),
        },
        Phase::Inserting => match event {
            IngestEvent::Inserted => settled(
                IngestionView {
                    records: v.records,
                    cursor: v.cursor,
                    phase: v.phase,
                    ids: v.ids.push(v.pending->0),
                    pending: None,
                },
                v.cursor + 1,
            ),
            _ => failed(v),
        },
        Phase::Finished => v,
        Phase::Failed => v,
    }
}

/// What the caller is to do in state `v`.
pub open spec fn action_of(v: IngestionView) -> ActionView {
    match v.phase {
        Phase::Probing => ActionView::CheckExists(v.records[v.cursor].content_hash),
        Phase::Inserting => ActionView::Insert(
            RecordView { id: v.pending, ..v.records[v.cursor] },
        ),
        Phase::Finished => ActionView::Finish(v.ids),
        Phase::Failed => ActionView::Fail(
            RetrievalError::BackendUnavailable { inserted: v.ids.len() as usize },
        ),
    }
}

/// Whether record `j` has the digest of an earlier record with another
/// text.
pub open spec fn collides_at(records: Seq<RecordView>, j: int) -> bool {
    exists|i: int|
        0 <= i < j && (#[trigger] records[i]).content_hash == records[j].content_hash
            && records[i].text != records[j].text
}

/// Whether two records of the batch have one digest and different texts.
pub open spec fn collides(records: Seq<RecordView>) -> bool {
    exists|j: int| 0 <= j < records.len() && #[trigger] collides_at(records, j)
}

/// Whether `v` is a state that an ingestion can be in.
pub open spec fn well_formed(v: IngestionView) -> bool {
    &&& 0 <= v.cursor <= v.records.len()
    &&& v.phase is Probing || v.phase is Inserting ==> v.cursor < v.records.len() && !repeats(
        v.records,
        v.cursor,
    )
    &&& v.phase is Finished ==> v.cursor == v.records.len()
    &&& v.phase is Inserting <==> v.pending is Some
    &&& v.ids.len() <= v.cursor
}

/// The next record to ask about lies at or after the index searched from,
/// within the batch, and repeats no earlier digest.
pub proof fn lemma_next_fresh(records: Seq<RecordView>, i: int)
    requires
        0 <= i <= records.len(),
    ensures
        i <= next_fresh(records, i) <= records.len(),
        next_fresh(records, i) < records.len() ==> !repeats(records, next_fresh(records, i)),
        forall|k: int| i <= k < next_fresh(records, i) ==> repeats(records, k),
    decreases records.len() - i,
{
    if i < records.len() && repeats(records, i) {
        lemma_next_fresh(records, i + 1);
    }
}

/// A step leads from a possible state to a possible state.
pub proof fn lemma_step_well_formed(v: IngestionView, event: IngestEvent, fresh: Seq<char>)
    requires
        well_formed(v),
    ensures
        well_formed(step_spec(v, event, fresh)),
{
    if v.cursor < v.records.len() {
        lemma_next_fresh(v.records, v.cursor + 1);
    }
}

/// Whether the digest of record `i` occurs earlier in the batch.
fn is_repeat(records: &Vec<Record>, i: usize) -> (found: bool)
    requires
        i < records.len(),
    ensures
        found == repeats(record_views(records@), i as int),
{
    let ghost views = record_views(records@);
    let mut k: usize = 0;
    while k < i
        invariant
            k <= i < records.len(),
            views == record_views(records@),
            forall|j: int| 0 <= j < k ==> (#[trigger] views[j]).content_hash
                != views[i as int].content_hash,
        decreases i - k,
    {
        assert(views[k as int] == records@[k as int]@);
        assert(views[i as int] == records@[i as int]@);
        if records[k].content_hash == records[i].content_hash {
            return true;
        }
        k += 1;
    }
    false
}

/// Whether record `j` has the digest of an earlier record with another
/// text.
fn is_collision(records: &Vec<Record>, j: usize) -> (found: bool)
    requires
        j < records.len(),
    ensures
        found == collides_at(record_views(records@), j as int),
{
    let ghost views = record_views(records@);
    let mut i: usize = 0;
    while i < j
        invariant
            i <= j < records.len(),
            views == record_views(records@),
            forall|k: int|
                0 <= k < i ==> !((#[trigger] views[k]).content_hash == views[j as int].content_hash
                    && views[k].text != views[j as int].text),
        decreases j - i,
    {
        assert(views[i as int] == records@[i as int]@);
        assert(views[j as int] == records@[j as int]@);
        if records[i].content_hash == records[j].content_hash && records[i].text
            != records[j].text {
            return true;
        }
        i += 1;
    }
    false
}

/// Whether two records of the batch have one digest and different texts.
pub fn has_collision(records: &Vec<Record>) -> (found: bool)
    ensures
        found == collides(record_views(records@)),
{
    let ghost views = record_views(records@);
    let mut j: usize = 0;
    while j < records.len()
        invariant
            j <= records.len(),
            views == record_views(records@),
            forall|k: int| 0 <= k < j ==> !#[trigger] collides_at(views, k),
        decreases records.len() - j,
    {
        if is_collision(records, j) {
            return true;
        }
        j += 1;
    }
    false
}

/// The first index at or after `from` of a record whose digest does not
/// occur earlier in the batch.
fn next_unseen(records: &Vec<Record>, from: usize) -> (cursor: usize)
    requires
        from <= records.len(),
    ensures
        cursor == next_fresh(record_views(records@), from as int),
        from <= cursor <= records.len(),
        cursor < records.len() ==> !repeats(record_views(records@), cursor as int),
{
    let ghost views = record_views(records@);
    let n = records.len();
    let mut cursor = from;
    while cursor < n && is_repeat(records, cursor)
        invariant
            from <= cursor <= n == records.len(),
            views == record_views(records@),
            next_fresh(views, from as int) == next_fresh(views, cursor as int),
        decreases n - cursor,
    {
        cursor += 1;
    }
    proof {
        lemma_next_fresh(views, from as int);
    }
    cursor
}

impl Ingestion {
    /// Every ingestion is in a possible state.
    #[verifier::type_invariant]
    spec fn possible(self) -> bool {
        well_formed(self@)
    }

    /// Starts the ingestion of `records`. A batch in which two different
    /// texts have the same digest is refused.
    pub fn begin(records: Vec<Record>) -> (machine: Result<Ingestion, RetrievalError>)
        ensures
            collides(record_views(records@)) ==> machine == Err::<Ingestion, RetrievalError>(
                RetrievalError::HashCollision,
            ),
            !collides(record_views(records@)) ==> machine is Ok && machine->Ok_0@ == started(
                record_views(records@),
            ) && well_formed(machine->Ok_0@),
    {
        if has_collision(&records) {
            return Err(RetrievalError::HashCollision);
        }
        let cursor = next_unseen(&records, 0);
        let phase = if cursor < records.len() {
            Phase::Probing
        } else {
            Phase::Finished
        };
        let machine = Ingestion { records, cursor, phase, ids: Vec::new(), pending: None };
        assert(texts(machine.ids@) =~= Seq::<Seq<char>>::empty());
        Ok(machine)
    }

    /// Where the ingestion stands.
    pub fn phase(&self) -> (phase: Phase)
        ensures
            phase == self@.phase,
    {
        self.phase
    }

    /// What the caller is to do next.
    pub fn action(&self) -> (next: IngestAction)
        ensures
            next@ == action_of(self@),
    {
        proof {
            use_type_invariant(self);
        }
        match self.phase {
            Phase::Probing => {
                assert(record_views(self.records@)[self.cursor as int]
                    == self.records@[self.cursor as int]@);
                IngestAction::CheckExists(self.records[self.cursor].content_hash.clone())
            },
            Phase::Inserting => {
                assert(record_views(self.records@)[self.cursor as int]
                    == self.records@[self.cursor as int]@);
                let record = copy_record(&self.records[self.cursor]);
                match &self.pending {
                    Some(id) => IngestAction::Insert(with_id(record, id.clone())),
                    None => IngestAction::Insert(record),
                }
            },
            Phase::Finished => {
                let mut ids: Vec<String> = Vec::new();
                let mut i: usize = 0;
                while i < self.ids.len()
                    invariant
                        i <= self.ids.len(),
                        ids.len() == i,
                        forall|k: int| 0 <= k < i ==> (#[trigger] ids[k])@ == self.ids[k]@,
                    decreases self.ids.len() - i,
                {
                    ids.push(self.ids[i].clone());
                    i += 1;
                }
                assert(texts(ids@) =~= texts(self.ids@));
                IngestAction::Finish(ids)
            },
            Phase::Failed => IngestAction::Fail(
                RetrievalError::BackendUnavailable { inserted: self.ids.len() },
            ),
        }
    }

    /// The state after the store's answer to the last action.
    pub fn step(self, event: IngestEvent) -> (next: Ingestion)
        ensures
            well_formed(next@),
            exists|fresh: Seq<char>|
                fresh.len() == ID_LEN && next@ == #[trigger] step_spec(self@, event, fresh),
    {
        proof {
            use_type_invariant(&self);
        }
        let ghost before = self@;
        let ghost filler = Seq::new(ID_LEN as nat, |i: int| '0');
        assert(before.records.len() == self.records.len());
        let Ingestion { records, cursor, phase, ids, pending } = self;
        match phase {
            Phase::Probing => match event {
                IngestEvent::Exists(true) => {
                    let cursor = next_unseen(&records, cursor + 1);
                    let phase = if cursor < records.len() {
                        Phase::Probing
                    } else {
                        Phase::Finished
                    };
                    let next = Ingestion { records, cursor, phase, ids, pending: None };
                    assert(next@ == step_spec(before, event, filler));
                    next
                },
                IngestEvent::Exists(false) => {
                    let id = fresh_id();
                    let ghost fresh = id@;
                    let next = Ingestion {
                        records,
                        cursor,
                        phase: Phase::Inserting,
                        ids,
                        pending: Some(id),
                    };
                    assert(next@ == step_spec(before, event, fresh));
                    next
                },
                _ => {
                    let next = Ingestion {
                        records,
                        cursor,
                        phase: Phase::Failed,
                        ids,
                        pending: None,
                    };
                    assert(next@ == step_spec(before, event, filler));
                    next
                },
            },
            Phase::Inserting => match event {
                IngestEvent::Inserted => {
                    let mut ids = ids;
                    match pending {
                        Some(id) => {
                            ids.push(id);
                        },
                        None => {},
                    }
                    assert(texts(ids@) =~= before.ids.push(before.pending->0));
                    let cursor = next_unseen(&records, cursor + 1);
                    let phase = if cursor < records.len() {
                        Phase::Probing
                    } else {
                        Phase::Finished
                    };
                    let next = Ingestion { records, cursor, phase, ids, pending: None };
                    assert(next@ == step_spec(before, event, filler));
                    next
                },
                _ => {
                    let next = Ingestion {
                        records,
                        cursor,
                        phase: Phase::Failed,
                        ids,
                        pending: None,
                    };
                    assert(next@ == step_spec(before, event, filler));
                    next
                },
            },
            Phase::Finished => {
                let next = Ingestion { records, cursor, phase, ids, pending };
                assert(next@ == step_spec(before, event, filler));
                next
            },
            Phase::Failed => {
                let next = Ingestion { records, cursor, phase, ids, pending };
                assert(next@ == step_spec(before, event, filler));
                next
            },
        }
    }
}

/// Whether a search is to be made, and for how many hits.
#[derive(Debug, Clone, Copy, PartialEq, Eq)]
pub enum SearchPlan {
    /// The result is empty; the store is not to be asked.
    Skip,
    /// Ask the store for `limit` hits.
    Ask { limit: usize },
}

/// The plan for a keyword search for `k` hits: with `k` zero the store is
/// not asked.
pub fn plan_keyword_search(k: usize) -> (plan: SearchPlan)
    ensures
        plan == (if k == 0 {
            SearchPlan::Skip
        } else {
            SearchPlan::Ask { limit: k }
        }),
{
    if k == 0 {
        SearchPlan::Skip
    } else {
        SearchPlan::Ask { limit: k }
    }
}

/// The plan for a search of the `k` nearest neighbours of a query vector
/// of `query_len` components in a collection of vectors of `dimension`
/// components. A query of another length is refused.
pub fn plan_vector_search(query_len: usize, dimension: usize, k: usize) -> (plan: Result<
    SearchPlan,
    RetrievalError,
>)
    ensures
        plan == (if query_len == dimension {
            Ok::<SearchPlan, RetrievalError>(SearchPlan::Ask { limit: k })
        } else {
            Err::<SearchPlan, RetrievalError>(
                RetrievalError::DimensionMismatch { expected: dimension, found: query_len },
            )
        }),
{
    if query_len == dimension {
        Ok(SearchPlan::Ask { limit: k })
    } else {
        Err(RetrievalError::DimensionMismatch { expected: dimension, found: query_len })
    }
}

/// Whether a file with this extension is read when a directory is
/// ingested.
pub open spec fn is_text_extension(extension: Seq<char>) -> bool {
    extension == "xml"@ || extension == "txt"@ || extension == "md"@
}

/// Whether a file with this extension is read when a directory is
/// ingested: XML, plain text and Markdown are.
pub fn accepts_extension(extension: &str) -> (accepted: bool)
    ensures
        accepted == is_text_extension(extension@),
{
    let given = String::from_str(extension);
    given == String::from_str("xml") || given == String::from_str("txt") || given
        == String::from_str("md")
}

/// The sum of the numbers of `counts`.
pub open spec fn total(counts: Seq<u32>) -> nat
    decreases counts.len(),
{
    if counts.len() == 0 {
        0
    } else {
        total(counts.drop_last()) + counts.last() as nat
    }
}

/// A sum of `n` numbers of thirty-two bits is below `n` times two to the
/// thirty-second.
pub proof fn lemma_total_bound(counts: Seq<u32>)
    ensures
        total(counts) <= counts.len() * 0xFFFF_FFFF,
    decreases counts.len(),
{
    if counts.len() > 0 {
        lemma_total_bound(counts.drop_last());
        assert((counts.len() - 1) * 0xFFFF_FFFF + 0xFFFF_FFFF == counts.len() * 0xFFFF_FFFF)
            by (nonlinear_arith);
    }
}

/// The number of documents in an index whose segments hold
/// `segment_counts` documents each.
pub fn get_num_documents(segment_counts: &Vec<u32>) -> (count: u64)
    requires
        segment_counts.len() <= 0xFFFF_FFFF,
    ensures
        count == total(segment_counts@),
{
    let mut count: u64 = 0;
    let mut i: usize = 0;
    assert(segment_counts@.take(0) =~= Seq::<u32>::empty());
    while i < segment_counts.len()
        invariant
            i <= segment_counts.len() <= 0xFFFF_FFFF,
            count == total(segment_counts@.take(i as int)),
        decreases segment_counts.len() - i,
    {
        proof {
            assert(segment_counts@.take(i + 1).drop_last() =~= segment_counts@.take(i as int));
            lemma_total_bound(segment_counts@.take(i + 1));
            assert((i + 1) * 0xFFFF_FFFF <= 0xFFFF_FFFF * 0xFFFF_FFFF) by (nonlinear_arith)
                requires
                    i + 1 <= 0xFFFF_FFFF,
            ;
        }
        count = count + segment_counts[i] as u64;
        i += 1;
    }
    assert(segment_counts@.take(segment_counts.len() as int) =~= segment_counts@);
    count
}

} // verus!
