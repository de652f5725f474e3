//! Fusion of the hits of the vector index and of the lexical index into one
//! ranked list without duplicates.
//!
//! Scores are fixed-point numbers: an integer counts millionths. A distance
//! of 0.3 is 300000, a relevance of 1 is `SCORE_SCALE`.

use crate::error::RetrievalError;
use crate::fusion_laws::{
    all_backed, all_within_scale, distinct_chunks, is_ranked, lemma_fuse_nothing, lemma_fuse_sound,
    lemma_fuse_within_scale,
};
use crate::text::{lemma_lex_less_irreflexive, lex_less, str_less};
use vstd::prelude::*;

verus! {

/// The number that stands for a score of one.
pub const SCORE_SCALE: u64 = 1_000_000;

/// The index that gave a hit.
#[derive(Debug, Clone, Copy, PartialEq, Eq)]
pub enum Origin {
    Vector,
    Lexical,
}

/// A search result of one index. For the vector index `score` is a
/// distance, smaller for closer; for the lexical index it is a relevance,
/// larger for better.
#[derive(Debug)]
pub struct CandidateHit {
    pub record_id: String,
    pub source_id: String,
    pub ordinal: u64,
    pub text: String,
    pub score: u64,
    pub origin: Origin,
}

/// The indexes that surfaced a chunk.
#[derive(Debug, Clone, Copy, PartialEq, Eq)]
pub struct Origins {
    pub vector: bool,
    pub lexical: bool,
}

/// A chunk after fusion, with its relevance between zero and `SCORE_SCALE`.
#[derive(Debug)]
pub struct FusedCandidate {
    pub source_id: String,
    pub ordinal: u64,
    pub text: String,
    pub normalized_score: u64,
    pub origins: Origins,
}

/// A hit as the fusion reads it.
pub struct HitView {
    pub record_id: Seq<char>,
    pub source_id: Seq<char>,
    pub ordinal: u64,
    pub text: Seq<char>,
    pub score: nat,
    pub origin: Origin,
}

/// A fused candidate as a mathematical value.
pub struct FusedView {
    pub source_id: Seq<char>,
    pub ordinal: u64,
    pub text: Seq<char>,
    pub normalized_score: nat,
    pub origins: Origins,
}

impl View for CandidateHit {
    type V = HitView;

    open spec fn view(&self) -> HitView {
        HitView {
            record_id: self.record_id@,
            source_id: self.source_id@,
            ordinal: self.ordinal,
            text: self.text@,
            score: self.score as nat,
            origin: self.origin,
        }
    }
}

impl View for FusedCandidate {
    type V = FusedView;

    open spec fn view(&self) -> FusedView {
        FusedView {
            source_id: self.source_id@,
            ordinal: self.ordinal,
            text: self.text@,
            normalized_score: self.normalized_score as nat,
            origins: self.origins,
        }
    }
}

/// The views of a list of hits.
pub open spec fn hit_views(hits: Seq<CandidateHit>) -> Seq<HitView> {
    Seq::new(hits.len(), |i: int| hits[i]@)
}

/// The views of a list of fused candidates.
pub open spec fn fused_views(candidates: Seq<FusedCandidate>) -> Seq<FusedView> {
    Seq::new(candidates.len(), |i: int| candidates[i]@)
}

/// The relevance of a vector hit at `distance`, below `max_distance`: one
/// at distance zero, falling linearly towards zero at `max_distance`.
pub open spec fn vector_relevance(distance: nat, max_distance: nat) -> nat {
    (SCORE_SCALE - (distance * SCORE_SCALE) / (max_distance as int)) as nat
}

/// The largest score among the lexical hits that reach `min_score`, or zero
/// where there is none.
pub open spec fn top_score(hits: Seq<HitView>, min_score: nat) -> nat
    decreases hits.len(),
{
    if hits.len() == 0 {
        0
    } else {
        let rest = top_score(hits.drop_last(), min_score);
        let score = hits.last().score;
        if score >= min_score && score > rest {
            score
        } else {
            rest
        }
    }
}

/// The relevance of a lexical hit: its score as a share of the best score
/// of the batch, `top`. A batch whose best score is zero is measured
/// against the smallest positive score instead.
pub open spec fn lexical_relevance(score: nat, top: nat) -> nat {
    ((score * SCORE_SCALE) / (if top > 0 {
        top as int
    } else {
        1
    })) as nat
}

/// The candidate that a vector hit becomes.
pub open spec fn vector_entry(hit: HitView, max_distance: nat) -> FusedView {
    FusedView {
        source_id: hit.source_id,
        ordinal: hit.ordinal,
        text: hit.text,
        normalized_score: vector_relevance(hit.score, max_distance),
        origins: Origins { vector: true, lexical: false },
    }
}

/// The candidate that a lexical hit becomes.
pub open spec fn lexical_entry(hit: HitView, top: nat) -> FusedView {
    FusedView {
        source_id: hit.source_id,
        ordinal: hit.ordinal,
        text: hit.text,
        normalized_score: lexical_relevance(hit.score, top),
        origins: Origins { vector: false, lexical: true },
    }
}

/// Whether two candidates stand for the same chunk.
pub open spec fn same_chunk(a: FusedView, b: FusedView) -> bool {
    a.source_id == b.source_id && a.ordinal == b.ordinal
}

/// The first index at or after `i` of a candidate for the chunk of `entry`,
/// or the length of `held` where there is none.
pub open spec fn position_from(held: Seq<FusedView>, entry: FusedView, i: int) -> int
    decreases held.len() - i,
{
    if i < 0 || i >= held.len() {
        held.len() as int
    } else if same_chunk(held[i], entry) {
        i
    } else {
        position_from(held, entry, i + 1)
    }
}

/// A candidate that was found again: it keeps the better of the two
/// relevances and gains the origins of `entry`.
pub open spec fn reinforced(held: FusedView, entry: FusedView) -> FusedView {
    FusedView {
        source_id: held.source_id,
        ordinal: held.ordinal,
        text: held.text,
        normalized_score: if entry.normalized_score > held.normalized_score {
            entry.normalized_score
        } else {
            held.normalized_score
        },
        origins: Origins {
            vector: held.origins.vector || entry.origins.vector,
            lexical: held.origins.lexical || entry.origins.lexical,
        },
    }
}

/// `held` with `entry` merged in: into the candidate for the same chunk
/// where there is one, at the end otherwise.
pub open spec fn absorb(held: Seq<FusedView>, entry: FusedView) -> Seq<FusedView> {
    let at = position_from(held, entry, 0);
    if at < held.len() {
        held.update(at, reinforced(held[at], entry))
    } else {
        held.push(entry)
    }
}

/// `held` with the vector hits below `max_distance` merged in, in order.
pub open spec fn absorb_vector(held: Seq<FusedView>, hits: Seq<HitView>, max_distance: nat) -> Seq<
    FusedView,
>
    decreases hits.len(),
{
    if hits.len() == 0 {
        held
    } else {
        let before = absorb_vector(held, hits.drop_last(), max_distance);
        if hits.last().score < max_distance {
            absorb(before, vector_entry(hits.last(), max_distance))
        } else {
            before
        }
    }
}

/// `held` with the lexical hits that reach `min_score` merged in, in order,
/// each measured against `top`.
pub open spec fn absorb_lexical(
    held: Seq<FusedView>,
    hits: Seq<HitView>,
    min_score: nat,
    top: nat,
) -> Seq<FusedView>
    decreases hits.len(),
{
    if hits.len() == 0 {
        held
    } else {
        let before = absorb_lexical(held, hits.drop_last(), min_score, top);
        if hits.last().score >= min_score {
            absorb(before, lexical_entry(hits.last(), top))
        } else {
            before
        }
    }
}

/// One candidate for each chunk that a surviving hit names, in the order in
/// which the chunks first occur, vector hits first.
pub open spec fn merged(
    vector_hits: Seq<HitView>,
    lexical_hits: Seq<HitView>,
    max_distance: nat,
    min_score: nat,
) -> Seq<FusedView> {
    absorb_lexical(
        absorb_vector(Seq::empty(), vector_hits, max_distance),
        lexical_hits,
        min_score,
        top_score(lexical_hits, min_score),
    )
}

/// Whether the chunk of `a` is named before that of `b`: by source, then by
/// ordinal.
pub open spec fn chunk_before(a: FusedView, b: FusedView) -> bool {
    lex_less(a.source_id, b.source_id) || (a.source_id == b.source_id && a.ordinal < b.ordinal)
}

/// Whether `a` ranks before `b`: the higher relevance first, and for equal
/// relevance the chunk that is named first.
pub open spec fn precedes(a: FusedView, b: FusedView) -> bool {
    a.normalized_score > b.normalized_score || (a.normalized_score == b.normalized_score
        && chunk_before(a, b))
}

/// The first index at or after `i` of a candidate that `entry` ranks
/// before, or the length of `ranked` where there is none.
pub open spec fn slot_from(ranked: Seq<FusedView>, entry: FusedView, i: int) -> int
    decreases ranked.len() - i,
{
    if i < 0 || i >= ranked.len() {
        ranked.len() as int
    } else if precedes(entry, ranked[i]) {
        i
    } else {
        slot_from(ranked, entry, i + 1)
    }
}

/// The candidates in ranking order.
pub open spec fn rank(candidates: Seq<FusedView>) -> Seq<FusedView>
    decreases candidates.len(),
{
    if candidates.len() == 0 {
        Seq::empty()
    } else {
        let ranked = rank(candidates.drop_last());
        ranked.insert(slot_from(ranked, candidates.last(), 0), candidates.last())
    }
}

/// The fused result: the surviving hits merged by chunk, ranked, and cut to
/// the first `cap` candidates.
pub open spec fn fuse_spec(
    vector_hits: Seq<HitView>,
    lexical_hits: Seq<HitView>,
    max_distance: nat,
    min_score: nat,
    cap: nat,
) -> Seq<FusedView> {
    let all = rank(merged(vector_hits, lexical_hits, max_distance, min_score));
    if cap < all.len() {
        all.take(cap as int)
    } else {
        all
    }
}

/// A share of a smaller number in a larger one is below the whole.
proof fn lemma_quotient_below(x: int, m: int, s: int)
    requires
        0 <= x < m,
        0 < s,
    ensures
        0 <= (x * s) / m < s,
{
    assert(0 <= (x * s) / m < s) by (nonlinear_arith)
        requires
            0 <= x < m,
            0 < s,
    ;
}

/// A share of a number in one that is no smaller is at most the whole.
proof fn lemma_quotient_within(x: int, m: int, s: int)
    requires
        0 <= x <= m,
        0 < m,
        0 < s,
    ensures
        0 <= (x * s) / m <= s,
{
    assert(0 <= (x * s) / m <= s) by (nonlinear_arith)
        requires
            0 <= x <= m,
            0 < m,
            0 < s,
    ;
}

/// The relevance of a vector hit below the largest distance lies above
/// zero and at most at one.
pub proof fn lemma_vector_relevance_within(distance: nat, max_distance: nat)
    requires
        distance < max_distance,
    ensures
        1 <= vector_relevance(distance, max_distance) <= SCORE_SCALE,
{
    lemma_quotient_below(distance as int, max_distance as int, SCORE_SCALE as int);
}

/// The relevance of a lexical hit that scores no more than the best of
/// its batch is at most one.
pub proof fn lemma_lexical_relevance_within(score: nat, top: nat)
    requires
        score <= top,
    ensures
        lexical_relevance(score, top) <= SCORE_SCALE,
{
    let base: int = if top > 0 {
        top as int
    } else {
        1
    };
    lemma_quotient_within(score as int, base, SCORE_SCALE as int);
}

/// The relevance of a vector hit at `distance`.
pub fn vector_score(distance: u64, max_distance: u64) -> (relevance: u64)
    requires
        distance < max_distance,
    ensures
        relevance == vector_relevance(distance as nat, max_distance as nat),
        1 <= relevance <= SCORE_SCALE,
{
    proof {
        lemma_quotient_below(distance as int, max_distance as int, SCORE_SCALE as int);
    }
    let scaled: u128 = (distance as u128) * (SCORE_SCALE as u128);
    let lost: u128 = scaled / (max_distance as u128);
    SCORE_SCALE - (lost as u64)
}

/// The relevance of a lexical hit with `score`, in a batch whose best score
/// is `top`.
pub fn lexical_score(score: u64, top: u64) -> (relevance: u64)
    requires
        score <= top,
    ensures
        relevance == lexical_relevance(score as nat, top as nat),
        relevance <= SCORE_SCALE,
{
    let base: u64 = if top > 0 {
        top
    } else {
        1
    };
    proof {
        lemma_quotient_within(score as int, base as int, SCORE_SCALE as int);
    }
    let scaled: u128 = (score as u128) * (SCORE_SCALE as u128);
    let share: u128 = scaled / (base as u128);
    share as u64
}

/// Every lexical hit that reaches `min_score` scores at most `top_score`.
pub proof fn lemma_top_score_bounds(hits: Seq<HitView>, min_score: nat)
    ensures
        forall|j: int|
            0 <= j < hits.len() && (#[trigger] hits[j]).score >= min_score ==> hits[j].score
                <= top_score(hits, min_score),
    decreases hits.len(),
{
    if hits.len() > 0 {
        lemma_top_score_bounds(hits.drop_last(), min_score);
        assert forall|j: int|
            0 <= j < hits.len() && (#[trigger] hits[j]).score >= min_score implies hits[j].score
            <= top_score(hits, min_score) by {
            if j < hits.len() - 1 {
                assert(hits.drop_last()[j] == hits[j]);
            }
        }
    }
}

/// The best score among the lexical hits that reach `min_score`.
pub fn best_score(hits: &Vec<CandidateHit>, min_score: u64) -> (top: u64)
    ensures
        top == top_score(hit_views(hits@), min_score as nat),
{
    let mut top: u64 = 0;
    let mut i: usize = 0;
    assert(hit_views(hits@).take(0) =~= Seq::<HitView>::empty());
    while i < hits.len()
        invariant
            i <= hits.len(),
            top == top_score(hit_views(hits@).take(i as int), min_score as nat),
        decreases hits.len() - i,
    {
        proof {
            assert(hit_views(hits@).take(i + 1).drop_last() =~= hit_views(hits@).take(i as int));
            assert(hit_views(hits@).take(i + 1).last() == hits@[i as int]@);
        }
        let score = hits[i].score;
        if score >= min_score && score > top {
            top = score;
        }
        i += 1;
    }
    assert(hit_views(hits@).take(hits.len() as int) =~= hit_views(hits@));
    top
}

/// Merges `entry` into `held`: into the candidate for the same chunk where
/// there is one, at the end otherwise.
pub fn absorb_entry(held: &mut Vec<FusedCandidate>, entry: FusedCandidate)
    ensures
        fused_views(final(held)@) == absorb(fused_views(old(held)@), entry@),
{
    let ghost before = fused_views(held@);
    let n = held.len();
    let mut at: usize = 0;
    let mut found = false;
    while at < n && !found
        invariant
            at <= n == held.len(),
            before == fused_views(held@),
            position_from(before, entry@, 0) == position_from(before, entry@, at as int),
            found ==> at < n && same_chunk(before[at as int], entry@),
        decreases n - at + (if found { 0int } else { 1int }),
    {
        assert(before[at as int] == held@[at as int]@);
        if held[at].ordinal == entry.ordinal && held[at].source_id == entry.source_id {
            found = true;
        } else {
            at += 1;
        }
    }
    if at < n {
        assert(before[at as int] == held@[at as int]@);
        let score = if entry.normalized_score > held[at].normalized_score {
            entry.normalized_score
        } else {
            held[at].normalized_score
        };
        let origins = Origins {
            vector: held[at].origins.vector || entry.origins.vector,
            lexical: held[at].origins.lexical || entry.origins.lexical,
        };
        let merged = FusedCandidate {
            source_id: held[at].source_id.clone(),
            ordinal: held[at].ordinal,
            text: held[at].text.clone(),
            normalized_score: score,
            origins,
        };
        held[at] = merged;
        assert(fused_views(held@) =~= absorb(before, entry@));
    } else {
        held.push(entry);
        assert(fused_views(held@) =~= absorb(before, entry@));
    }
}

/// Whether `a` ranks before `b`.
pub fn ranks_before(a: &FusedCandidate, b: &FusedCandidate) -> (first: bool)
    ensures
        first == precedes(a@, b@),
{
    if a.normalized_score != b.normalized_score {
        a.normalized_score > b.normalized_score
    } else if a.source_id == b.source_id {
        proof {
            lemma_lex_less_irreflexive(a.source_id@);
        }
        a.ordinal < b.ordinal
    } else {
        str_less(a.source_id.as_str(), b.source_id.as_str())
    }
}

/// The candidates in ranking order.
pub fn rank_candidates(candidates: &Vec<FusedCandidate>) -> (ranked: Vec<FusedCandidate>)
    ensures
        fused_views(ranked@) == rank(fused_views(candidates@)),
{
    let mut ranked: Vec<FusedCandidate> = Vec::new();
    let mut i: usize = 0;
    assert(fused_views(candidates@).take(0) =~= Seq::<FusedView>::empty());
    assert(fused_views(ranked@) =~= Seq::<FusedView>::empty());
    while i < candidates.len()
        invariant
            i <= candidates.len(),
            fused_views(ranked@) == rank(fused_views(candidates@).take(i as int)),
        decreases candidates.len() - i,
    {
        let next = FusedCandidate {
            source_id: candidates[i].source_id.clone(),
            ordinal: candidates[i].ordinal,
            text: candidates[i].text.clone(),
            normalized_score: candidates[i].normalized_score,
            origins: candidates[i].origins,
        };
        let ghost so_far = fused_views(ranked@);
        let n = ranked.len();
        let mut slot: usize = 0;
        let mut found = false;
        while slot < n && !found
            invariant
                slot <= n == ranked.len(),
                so_far == fused_views(ranked@),
                slot_from(so_far, next@, 0) == slot_from(so_far, next@, slot as int),
                found ==> slot < n && precedes(next@, so_far[slot as int]),
            decreases n - slot + (if found { 0int } else { 1int }),
        {
            assert(so_far[slot as int] == ranked@[slot as int]@);
            if ranks_before(&next, &ranked[slot]) {
                found = true;
            } else {
                slot += 1;
            }
        }
        proof {
            assert(fused_views(candidates@).take(i + 1).drop_last() =~= fused_views(
                candidates@,
            ).take(i as int));
            assert(fused_views(candidates@).take(i + 1).last() == next@);
        }
        ranked.insert(slot, next);
        assert(fused_views(ranked@) =~= so_far.insert(slot as int, next@));
        i += 1;
    }
    assert(fused_views(candidates@).take(candidates.len() as int) =~= fused_views(candidates@));
    ranked
}

/// Whether every hit of `hits` comes from the index `origin`.
pub open spec fn all_from(hits: Seq<HitView>, origin: Origin) -> bool {
    forall|i: int| 0 <= i < hits.len() ==> (#[trigger] hits[i]).origin == origin
}

/// Whether every hit of `hits` comes from the index `origin`.
pub fn come_from(hits: &Vec<CandidateHit>, origin: Origin) -> (all: bool)
    ensures
        all == all_from(hit_views(hits@), origin),
{
    let ghost views = hit_views(hits@);
    let mut i: usize = 0;
    while i < hits.len()
        invariant
            i <= hits.len(),
            views == hit_views(hits@),
            forall|k: int| 0 <= k < i ==> (#[trigger] views[k]).origin == origin,
        decreases hits.len() - i,
    {
        assert(views[i as int] == hits@[i as int]@);
        let same = match (hits[i].origin, origin) {
            (Origin::Vector, Origin::Vector) => true,
            (Origin::Lexical, Origin::Lexical) => true,
            _ => false,
        };
        if !same {
            return false;
        }
        i += 1;
    }
    true
}

/// Fuses the hits of the two indexes. Vector hits at `vector_max_distance`
/// or beyond and lexical hits below `lexical_min_score` are dropped; the
/// others are merged by chunk, ranked by relevance and cut to
/// `max_candidates`. A largest distance of zero is refused, and so is a
/// hit in the list of the index that it does not come from.
pub fn fuse(
    vector_hits: &Vec<CandidateHit>,
    lexical_hits: &Vec<CandidateHit>,
    vector_max_distance: u64,
    lexical_min_score: u64,
    max_candidates: usize,
) -> (fused: Result<Vec<FusedCandidate>, RetrievalError>)
    ensures
        vector_max_distance == 0 ==> fused == Err::<Vec<FusedCandidate>, RetrievalError>(
            RetrievalError::InvalidThreshold,
        ),
        vector_max_distance > 0 && !(all_from(hit_views(vector_hits@), Origin::Vector) && all_from(
            hit_views(lexical_hits@),
            Origin::Lexical,
        )) ==> fused == Err::<Vec<FusedCandidate>, RetrievalError>(RetrievalError::OriginMismatch),
        vector_max_distance > 0 && all_from(hit_views(vector_hits@), Origin::Vector) && all_from(
            hit_views(lexical_hits@),
            Origin::Lexical,
        ) ==> fused is Ok && fused_views(fused->Ok_0@) == fuse_spec(
            hit_views(vector_hits@),
            hit_views(lexical_hits@),
            vector_max_distance as nat,
            lexical_min_score as nat,
            max_candidates as nat,
        ),
        fused is Ok ==> fused->Ok_0.len() <= max_candidates,
        fused is Ok ==> distinct_chunks(fused_views(fused->Ok_0@)),
        fused is Ok ==> is_ranked(fused_views(fused->Ok_0@)),
        fused is Ok ==> all_backed(
            fused_views(fused->Ok_0@),
            hit_views(vector_hits@),
            hit_views(lexical_hits@),
            vector_max_distance as nat,
            lexical_min_score as nat,
        ),
        fused is Ok ==> all_within_scale(fused_views(fused->Ok_0@)),
        fused is Ok && vector_hits.len() == 0 && lexical_hits.len() == 0 ==> fused->Ok_0.len() == 0,
{
    if vector_max_distance == 0 {
        return Err(RetrievalError::InvalidThreshold);
    }
    if !come_from(vector_hits, Origin::Vector) || !come_from(lexical_hits, Origin::Lexical) {
        return Err(RetrievalError::OriginMismatch);
    }
    let ghost vviews = hit_views(vector_hits@);
    let ghost lviews = hit_views(lexical_hits@);
    let ghost max_distance = vector_max_distance as nat;
    let ghost min_score = lexical_min_score as nat;
    let mut held: Vec<FusedCandidate> = Vec::new();
    let mut i: usize = 0;
    assert(vviews.take(0) =~= Seq::<HitView>::empty());
    assert(fused_views(held@) =~= Seq::<FusedView>::empty());
    while i < vector_hits.len()
        invariant
            i <= vector_hits.len(),
            vviews == hit_views(vector_hits@),
            max_distance == vector_max_distance as nat,
            fused_views(held@) == absorb_vector(Seq::empty(), vviews.take(i as int), max_distance),
        decreases vector_hits.len() - i,
    {
        let hit = &vector_hits[i];
        proof {
            assert(vviews.take(i + 1).drop_last() =~= vviews.take(i as int));
            assert(vviews.take(i + 1).last() == hit@);
        }
        if hit.score < vector_max_distance {
            let entry = FusedCandidate {
                source_id: hit.source_id.clone(),
                ordinal: hit.ordinal,
                text: hit.text.clone(),
                normalized_score: vector_score(hit.score, vector_max_distance),
                origins: Origins { vector: true, lexical: false },
            };
            assert(entry@ == vector_entry(hit@, max_distance));
            absorb_entry(&mut held, entry);
        }
        i += 1;
    }
    assert(vviews.take(vector_hits.len() as int) =~= vviews);
    let top = best_score(lexical_hits, lexical_min_score);
    let ghost base = fused_views(held@);
    let mut j: usize = 0;
    assert(lviews.take(0) =~= Seq::<HitView>::empty());
    while j < lexical_hits.len()
        invariant
            j <= lexical_hits.len(),
            lviews == hit_views(lexical_hits@),
            min_score == lexical_min_score as nat,
            top == top_score(lviews, min_score),
            fused_views(held@) == absorb_lexical(base, lviews.take(j as int), min_score, top as nat),
        decreases lexical_hits.len() - j,
    {
        let hit = &lexical_hits[j];
        proof {
            assert(lviews.take(j + 1).drop_last() =~= lviews.take(j as int));
            assert(lviews.take(j + 1).last() == hit@);
            lemma_top_score_bounds(lviews, min_score);
            assert(lviews[j as int] == hit@);
        }
        if hit.score >= lexical_min_score {
            let entry = FusedCandidate {
                source_id: hit.source_id.clone(),
                ordinal: hit.ordinal,
                text: hit.text.clone(),
                normalized_score: lexical_score(hit.score, top),
                origins: Origins { vector: false, lexical: true },
            };
            assert(entry@ == lexical_entry(hit@, top as nat));
            absorb_entry(&mut held, entry);
        }
        j += 1;
    }
    assert(lviews.take(lexical_hits.len() as int) =~= lviews);
    let mut ranked = rank_candidates(&held);
    let ghost all = fused_views(ranked@);
    ranked.truncate(max_candidates);
    proof {
        if max_candidates < all.len() {
            assert(fused_views(ranked@) =~= all.take(max_candidates as int));
        } else {
            assert(fused_views(ranked@) =~= all);
        }
        lemma_fuse_sound(vviews, lviews, max_distance, min_score, max_candidates as nat);
        lemma_fuse_within_scale(vviews, lviews, max_distance, min_score, max_candidates as nat);
        if vector_hits.len() == 0 && lexical_hits.len() == 0 {
            assert(vviews =~= Seq::<HitView>::empty());
            assert(lviews =~= Seq::<HitView>::empty());
            lemma_fuse_nothing(max_distance, min_score, max_candidates as nat);
        }
    }
    Ok(ranked)
}

} // verus!
