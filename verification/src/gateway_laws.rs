//! What an ingestion does to a store that answers truthfully: it stores
//! every digest of the batch once, and a second ingestion of the same
//! batch inserts nothing.

use crate::gateway::{
    lemma_next_fresh, lemma_step_well_formed, repeats, started, step_spec, well_formed,
    IngestEvent, IngestionView, Phase,
};
use crate::record::RecordView;
use vstd::prelude::*;

verus! {

/// The digests of a batch.
pub open spec fn digests(records: Seq<RecordView>) -> Set<Seq<char>> {
    Set::new(
        |h: Seq<char>| exists|k: int| 0 <= k < records.len() && (#[trigger] records[k]).content_hash == h,
    )
}

/// What a store that holds the digests `store` answers in state `v`.
pub open spec fn reply(store: Set<Seq<char>>, v: IngestionView) -> IngestEvent {
    match v.phase {
        Phase::Probing => IngestEvent::Exists(store.contains(v.records[v.cursor].content_hash)),
        Phase::Inserting => IngestEvent::Inserted,
        _ => IngestEvent::Unavailable,
    }
}

/// The digests that the store holds once it has performed the action of
/// state `v`.
pub open spec fn store_after(store: Set<Seq<char>>, v: IngestionView) -> Set<Seq<char>> {
    if v.phase is Inserting {
        store.insert(v.records[v.cursor].content_hash)
    } else {
        store
    }
}

/// A bound on the number of steps that are left in state `v`.
pub open spec fn pending_steps(v: IngestionView) -> nat {
    match v.phase {
        Phase::Probing => (2 * (v.records.len() - v.cursor) + 1) as nat,
        Phase::Inserting => (2 * (v.records.len() - v.cursor)) as nat,
        _ => 0,
    }
}

/// The last state of an ingestion that starts in `v` against a store that
/// holds `store` and answers truthfully, and what the store holds then.
/// The record at index `i` is given the identifier `ids(i)`.
pub open spec fn run(v: IngestionView, store: Set<Seq<char>>, ids: spec_fn(int) -> Seq<char>) -> (
    IngestionView,
    Set<Seq<char>>,
)
    decreases pending_steps(v),
    when well_formed(v)
{
    if v.phase is Probing || v.phase is Inserting {
        proof {
            lemma_next_fresh(v.records, v.cursor + 1);
        }
        run(step_spec(v, reply(store, v), ids(v.cursor)), store_after(store, v), ids)
    } else {
        (v, store)
    }
}

/// Whether the store holds the digest of every record before the current
/// one.
pub open spec fn covered(v: IngestionView, store: Set<Seq<char>>) -> bool {
    forall|k: int| 0 <= k < v.cursor ==> store.contains((#[trigger] v.records[k]).content_hash)
}

/// A store that holds the digests before `from` holds those up to `upto` where
/// each record between repeats an earlier digest.
proof fn lemma_repeats_covered(records: Seq<RecordView>, store: Set<Seq<char>>, from: int, upto: int)
    requires
        0 <= from <= upto <= records.len(),
        forall|k: int| 0 <= k < from ==> store.contains((#[trigger] records[k]).content_hash),
        forall|k: int| from <= k < upto ==> repeats(records, k),
    ensures
        forall|k: int| 0 <= k < upto ==> store.contains((#[trigger] records[k]).content_hash),
    decreases upto - from,
{
    if from < upto {
        assert(repeats(records, from));
        let j = choose|j: int|
            0 <= j < from && (#[trigger] records[j]).content_hash == records[from].content_hash;
        assert(store.contains(records[j].content_hash));
        lemma_repeats_covered(records, store, from + 1, upto);
    }
}

/// Against a truthful store an ingestion that has not failed finishes. The
/// store then holds what it held and every digest of the batch, nothing
/// else; and where it held finitely many digests, it has gained as many as
/// identifiers were given.
pub proof fn lemma_run(v: IngestionView, store: Set<Seq<char>>, ids: spec_fn(int) -> Seq<char>)
    requires
        well_formed(v),
        !(v.phase is Failed),
        covered(v, store),
        v.phase is Inserting ==> !store.contains(v.records[v.cursor].content_hash),
    ensures
        run(v, store, ids).0.phase is Finished,
        run(v, store, ids).0.records == v.records,
        run(v, store, ids).0.ids.len() >= v.ids.len(),
        run(v, store, ids).1 == store.union(digests(v.records)),
        store.finite() ==> run(v, store, ids).1.finite() && run(v, store, ids).1.len() - store.len()
            == run(v, store, ids).0.ids.len() - v.ids.len(),
    decreases pending_steps(v),
{
    let all = digests(v.records);
    if v.phase is Probing || v.phase is Inserting {
        let hash = v.records[v.cursor].content_hash;
        let next = step_spec(v, reply(store, v), ids(v.cursor));
        let held = store_after(store, v);
        lemma_step_well_formed(v, reply(store, v), ids(v.cursor));
        lemma_next_fresh(v.records, v.cursor + 1);
        assert(all.contains(hash));
        if v.phase is Inserting || store.contains(hash) {
            assert forall|k: int| 0 <= k < v.cursor + 1 implies held.contains(
                (#[trigger] v.records[k]).content_hash,
            ) by {
                if k < v.cursor {
                    assert(store.contains(v.records[k].content_hash));
                }
            }
            lemma_repeats_covered(v.records, held, v.cursor + 1, next.cursor);
        }
        lemma_run(next, held, ids);
        assert(held.union(all) =~= store.union(all));
        if store.finite() && v.phase is Inserting {
            assert(held.len() == store.len() + 1);
        }
    } else {
        assert forall|h: Seq<char>| all.contains(h) implies store.contains(h) by {
            let k = choose|k: int|
                0 <= k < v.records.len() && (#[trigger] v.records[k]).content_hash == h;
            assert(store.contains(v.records[k].content_hash));
        }
        assert(store.union(all) =~= store);
    }
}

/// Against a truthful store that holds every digest of the batch already,
/// an ingestion finishes without an insertion: no identifier is given and
/// the store holds what it held.
pub proof fn lemma_run_nothing_new(
    v: IngestionView,
    store: Set<Seq<char>>,
    ids: spec_fn(int) -> Seq<char>,
)
    requires
        well_formed(v),
        v.phase is Probing || v.phase is Finished,
        digests(v.records).subset_of(store),
    ensures
        run(v, store, ids).0.phase is Finished,
        run(v, store, ids).0.ids == v.ids,
        run(v, store, ids).1 == store,
    decreases pending_steps(v),
{
    if v.phase is Probing {
        let hash = v.records[v.cursor].content_hash;
        assert(digests(v.records).contains(hash));
        assert(store.contains(hash));
        let next = step_spec(v, reply(store, v), ids(v.cursor));
        lemma_step_well_formed(v, reply(store, v), ids(v.cursor));
        lemma_next_fresh(v.records, v.cursor + 1);
        lemma_run_nothing_new(next, store, ids);
    }
}

/// Ingesting a batch twice into a truthful store: the first ingestion
/// leaves in the store what it held and every digest of the batch; the
/// second gives no identifier, which is to say that it inserts nothing,
/// and leaves the store as the first left it. Where the store was empty,
/// the first ingestion inserts as many records as the batch has distinct
/// digests.
pub proof fn lemma_idempotent_ingestion(
    records: Seq<RecordView>,
    store: Set<Seq<char>>,
    first_ids: spec_fn(int) -> Seq<char>,
    second_ids: spec_fn(int) -> Seq<char>,
)
    ensures
        ({
            let first = run(started(records), store, first_ids);
            let second = run(started(records), first.1, second_ids);
            &&& first.0.phase is Finished
            &&& first.1 == store.union(digests(records))
            &&& store.finite() ==> first.0.ids.len() == first.1.len() - store.len()
            &&& store == Set::<Seq<char>>::empty() ==> first.0.ids.len() == digests(records).len()
            &&& second.0.phase is Finished
            &&& second.0.ids.len() == 0
            &&& second.1 == first.1
        }),
{
    let v = started(records);
    lemma_next_fresh(records, 0);
    assert(v.cursor == 0) by {
        if records.len() > 0 {
            assert(!repeats(records, 0));
        }
    }
    lemma_run(v, store, first_ids);
    let first = run(v, store, first_ids);
    lemma_run_nothing_new(v, first.1, second_ids);
    if store == Set::<Seq<char>>::empty() {
        assert(store.union(digests(records)) =~= digests(records));
    }
}

} // verus!
