//! What holds of every fused result: no chunk occurs twice, every candidate
//! goes back to a hit that passed its threshold, and the order is the
//! ranking order.

use crate::fusion::{
    absorb, absorb_lexical, absorb_vector, fuse_spec, lemma_lexical_relevance_within,
    lemma_top_score_bounds, lemma_vector_relevance_within, lexical_entry, lexical_relevance,
    merged, position_from, precedes, rank, reinforced, same_chunk, slot_from, top_score,
    vector_entry, vector_relevance, FusedView, HitView, SCORE_SCALE,
};
use crate::text::{
    lemma_lex_less_asymmetric, lemma_lex_less_irreflexive, lemma_lex_less_total,
    lemma_lex_less_transitive, lex_less,
};
use vstd::prelude::*;

verus! {

/// Whether no two candidates stand for the same chunk.
pub open spec fn distinct_chunks(s: Seq<FusedView>) -> bool {
    forall|i: int, j: int| 0 <= i < j < s.len() ==> !same_chunk(#[trigger] s[i], #[trigger] s[j])
}

/// Whether each candidate ranks before all that follow it.
pub open spec fn is_ranked(s: Seq<FusedView>) -> bool {
    forall|i: int, j: int| 0 <= i < j < s.len() ==> precedes(#[trigger] s[i], #[trigger] s[j])
}

/// Whether some vector hit below `max_distance` names the chunk of `c`.
pub open spec fn vector_backed(c: FusedView, hits: Seq<HitView>, max_distance: nat) -> bool {
    exists|j: int|
        0 <= j < hits.len() && (#[trigger] hits[j]).source_id == c.source_id && hits[j].ordinal
            == c.ordinal && hits[j].score < max_distance
}

/// Whether some lexical hit that reaches `min_score` names the chunk of `c`.
pub open spec fn lexical_backed(c: FusedView, hits: Seq<HitView>, min_score: nat) -> bool {
    exists|j: int|
        0 <= j < hits.len() && (#[trigger] hits[j]).source_id == c.source_id && hits[j].ordinal
            == c.ordinal && hits[j].score >= min_score
}

/// Whether `c` has an origin, and for each of its origins a hit of that
/// index that passed its threshold.
pub open spec fn backed(
    c: FusedView,
    vector_hits: Seq<HitView>,
    lexical_hits: Seq<HitView>,
    max_distance: nat,
    min_score: nat,
) -> bool {
    &&& c.origins.vector || c.origins.lexical
    &&& c.origins.vector ==> vector_backed(c, vector_hits, max_distance)
    &&& c.origins.lexical ==> lexical_backed(c, lexical_hits, min_score)
}

/// Whether every candidate of `s` is backed.
pub open spec fn all_backed(
    s: Seq<FusedView>,
    vector_hits: Seq<HitView>,
    lexical_hits: Seq<HitView>,
    max_distance: nat,
    min_score: nat,
) -> bool {
    forall|i: int|
        0 <= i < s.len() ==> backed(#[trigger] s[i], vector_hits, lexical_hits, max_distance, min_score)
}

/// What `position_from` finds: the first candidate for the chunk.
proof fn lemma_position_from(held: Seq<FusedView>, entry: FusedView, i: int)
    requires
        0 <= i <= held.len(),
    ensures
        i <= position_from(held, entry, i) <= held.len(),
        position_from(held, entry, i) < held.len() ==> same_chunk(
            held[position_from(held, entry, i)],
            entry,
        ),
        forall|k: int|
            i <= k < position_from(held, entry, i) ==> !same_chunk(#[trigger] held[k], entry),
    decreases held.len() - i,
{
    if i < held.len() && !same_chunk(held[i], entry) {
        lemma_position_from(held, entry, i + 1);
    }
}

/// What `slot_from` finds: the first candidate that the entry ranks before.
proof fn lemma_slot_from(ranked: Seq<FusedView>, entry: FusedView, i: int)
    requires
        0 <= i <= ranked.len(),
    ensures
        i <= slot_from(ranked, entry, i) <= ranked.len(),
        slot_from(ranked, entry, i) < ranked.len() ==> precedes(
            entry,
            ranked[slot_from(ranked, entry, i)],
        ),
        forall|k: int| i <= k < slot_from(ranked, entry, i) ==> !precedes(entry, #[trigger] ranked[k]),
    decreases ranked.len() - i,
{
    if i < ranked.len() && !precedes(entry, ranked[i]) {
        lemma_slot_from(ranked, entry, i + 1);
    }
}

/// Merging an entry in leaves no chunk twice.
proof fn lemma_absorb_distinct(held: Seq<FusedView>, entry: FusedView)
    requires
        distinct_chunks(held),
    ensures
        distinct_chunks(absorb(held, entry)),
{
    lemma_position_from(held, entry, 0);
    let at = position_from(held, entry, 0);
    let out = absorb(held, entry);
    assert forall|i: int, j: int| 0 <= i < j < out.len() implies !same_chunk(
        #[trigger] out[i],
        #[trigger] out[j],
    ) by {
        if at < held.len() {
            assert(same_chunk(out[i], held[i]));
            assert(same_chunk(out[j], held[j]));
            assert(!same_chunk(held[i], held[j]));
        } else if j < held.len() {
            assert(!same_chunk(held[i], held[j]));
        } else {
            assert(!same_chunk(held[i], entry));
        }
    }
}

/// Merging a backed entry into backed candidates leaves them backed.
proof fn lemma_absorb_backed(
    held: Seq<FusedView>,
    entry: FusedView,
    vector_hits: Seq<HitView>,
    lexical_hits: Seq<HitView>,
    max_distance: nat,
    min_score: nat,
)
    requires
        all_backed(held, vector_hits, lexical_hits, max_distance, min_score),
        backed(entry, vector_hits, lexical_hits, max_distance, min_score),
    ensures
        all_backed(absorb(held, entry), vector_hits, lexical_hits, max_distance, min_score),
{
    lemma_position_from(held, entry, 0);
    let at = position_from(held, entry, 0);
    let out = absorb(held, entry);
    assert forall|i: int| 0 <= i < out.len() implies backed(
        #[trigger] out[i],
        vector_hits,
        lexical_hits,
        max_distance,
        min_score,
    ) by {
        if at < held.len() {
            if i == at {
                let c = reinforced(held[at], entry);
                assert(out[i] == c);
                assert(backed(held[at], vector_hits, lexical_hits, max_distance, min_score));
                if c.origins.vector {
                    if held[at].origins.vector {
                        let j = choose|j: int|
                            0 <= j < vector_hits.len() && (#[trigger] vector_hits[j]).source_id
                                == held[at].source_id && vector_hits[j].ordinal
                                == held[at].ordinal && vector_hits[j].score < max_distance;
                        assert(vector_hits[j].source_id == c.source_id);
                    } else {
                        let j = choose|j: int|
                            0 <= j < vector_hits.len() && (#[trigger] vector_hits[j]).source_id
                                == entry.source_id && vector_hits[j].ordinal == entry.ordinal
                                && vector_hits[j].score < max_distance;
                        assert(vector_hits[j].source_id == c.source_id);
                    }
                }
                if c.origins.lexical {
                    if held[at].origins.lexical {
                        let j = choose|j: int|
                            0 <= j < lexical_hits.len() && (#[trigger] lexical_hits[j]).source_id
                                == held[at].source_id && lexical_hits[j].ordinal
                                == held[at].ordinal && lexical_hits[j].score >= min_score;
                        assert(lexical_hits[j].source_id == c.source_id);
                    } else {
                        let j = choose|j: int|
                            0 <= j < lexical_hits.len() && (#[trigger] lexical_hits[j]).source_id
                                == entry.source_id && lexical_hits[j].ordinal == entry.ordinal
                                && lexical_hits[j].score >= min_score;
                        assert(lexical_hits[j].source_id == c.source_id);
                    }
                }
            } else {
                assert(out[i] == held[i]);
            }
        } else if i < held.len() {
            assert(out[i] == held[i]);
        }
    }
}

/// A candidate stays backed when hits are added at the end of the lists.
proof fn lemma_backed_widens(
    c: FusedView,
    vector_hits: Seq<HitView>,
    lexical_hits: Seq<HitView>,
    more_vector: Seq<HitView>,
    more_lexical: Seq<HitView>,
    max_distance: nat,
    min_score: nat,
)
    requires
        backed(c, vector_hits, lexical_hits, max_distance, min_score),
        vector_hits.len() <= more_vector.len(),
        lexical_hits.len() <= more_lexical.len(),
        forall|j: int| 0 <= j < vector_hits.len() ==> vector_hits[j] == more_vector[j],
        forall|j: int| 0 <= j < lexical_hits.len() ==> lexical_hits[j] == more_lexical[j],
    ensures
        backed(c, more_vector, more_lexical, max_distance, min_score),
{
    if c.origins.vector {
        let j = choose|j: int|
            0 <= j < vector_hits.len() && (#[trigger] vector_hits[j]).source_id == c.source_id
                && vector_hits[j].ordinal == c.ordinal && vector_hits[j].score < max_distance;
        assert(more_vector[j] == vector_hits[j]);
    }
    if c.origins.lexical {
        let j = choose|j: int|
            0 <= j < lexical_hits.len() && (#[trigger] lexical_hits[j]).source_id == c.source_id
                && lexical_hits[j].ordinal == c.ordinal && lexical_hits[j].score >= min_score;
        assert(more_lexical[j] == lexical_hits[j]);
    }
}

/// Candidates stay backed when hits are added at the end of the lists.
proof fn lemma_all_backed_widens(
    s: Seq<FusedView>,
    vector_hits: Seq<HitView>,
    lexical_hits: Seq<HitView>,
    more_vector: Seq<HitView>,
    more_lexical: Seq<HitView>,
    max_distance: nat,
    min_score: nat,
)
    requires
        all_backed(s, vector_hits, lexical_hits, max_distance, min_score),
        vector_hits.len() <= more_vector.len(),
        lexical_hits.len() <= more_lexical.len(),
        forall|j: int| 0 <= j < vector_hits.len() ==> vector_hits[j] == more_vector[j],
        forall|j: int| 0 <= j < lexical_hits.len() ==> lexical_hits[j] == more_lexical[j],
    ensures
        all_backed(s, more_vector, more_lexical, max_distance, min_score),
{
    assert forall|i: int| 0 <= i < s.len() implies backed(
        #[trigger] s[i],
        more_vector,
        more_lexical,
        max_distance,
        min_score,
    ) by {
        lemma_backed_widens(
            s[i],
            vector_hits,
            lexical_hits,
            more_vector,
            more_lexical,
            max_distance,
            min_score,
        );
    }
}

/// The vector hits alone give backed candidates, no chunk twice.
proof fn lemma_absorb_vector_sound(hits: Seq<HitView>, max_distance: nat, min_score: nat)
    ensures
        distinct_chunks(absorb_vector(Seq::empty(), hits, max_distance)),
        all_backed(
            absorb_vector(Seq::empty(), hits, max_distance),
            hits,
            Seq::empty(),
            max_distance,
            min_score,
        ),
    decreases hits.len(),
{
    if hits.len() > 0 {
        let before = absorb_vector(Seq::empty(), hits.drop_last(), max_distance);
        lemma_absorb_vector_sound(hits.drop_last(), max_distance, min_score);
        lemma_all_backed_widens(
            before,
            hits.drop_last(),
            Seq::empty(),
            hits,
            Seq::empty(),
            max_distance,
            min_score,
        );
        if hits.last().score < max_distance {
            let entry = vector_entry(hits.last(), max_distance);
            assert(hits[hits.len() - 1].source_id == entry.source_id);
            lemma_absorb_distinct(before, entry);
            lemma_absorb_backed(before, entry, hits, Seq::empty(), max_distance, min_score);
        }
    }
}

/// Merging the lexical hits in keeps the candidates backed, no chunk twice.
proof fn lemma_absorb_lexical_sound(
    held: Seq<FusedView>,
    vector_hits: Seq<HitView>,
    hits: Seq<HitView>,
    max_distance: nat,
    min_score: nat,
    top: nat,
)
    requires
        distinct_chunks(held),
        all_backed(held, vector_hits, Seq::empty(), max_distance, min_score),
    ensures
        distinct_chunks(absorb_lexical(held, hits, min_score, top)),
        all_backed(
            absorb_lexical(held, hits, min_score, top),
            vector_hits,
            hits,
            max_distance,
            min_score,
        ),
    decreases hits.len(),
{
    if hits.len() == 0 {
        lemma_all_backed_widens(
            held,
            vector_hits,
            Seq::empty(),
            vector_hits,
            hits,
            max_distance,
            min_score,
        );
    } else {
        let before = absorb_lexical(held, hits.drop_last(), min_score, top);
        lemma_absorb_lexical_sound(
            held,
            vector_hits,
            hits.drop_last(),
            max_distance,
            min_score,
            top,
        );
        lemma_all_backed_widens(
            before,
            vector_hits,
            hits.drop_last(),
            vector_hits,
            hits,
            max_distance,
            min_score,
        );
        if hits.last().score >= min_score {
            let entry = lexical_entry(hits.last(), top);
            assert(hits[hits.len() - 1].source_id == entry.source_id);
            lemma_absorb_distinct(before, entry);
            lemma_absorb_backed(before, entry, vector_hits, hits, max_distance, min_score);
        }
    }
}

/// Of two candidates for different chunks, one ranks before the other.
pub proof fn lemma_precedes_total(a: FusedView, b: FusedView)
    requires
        !same_chunk(a, b),
    ensures
        precedes(a, b) || precedes(b, a),
{
    lemma_lex_less_total(a.source_id, b.source_id);
}

/// Ranking before is transitive.
pub proof fn lemma_precedes_transitive(a: FusedView, b: FusedView, c: FusedView)
    requires
        precedes(a, b),
        precedes(b, c),
    ensures
        precedes(a, c),
{
    if a.normalized_score == b.normalized_score && b.normalized_score == c.normalized_score {
        if lex_less(a.source_id, b.source_id) && lex_less(b.source_id, c.source_id) {
            lemma_lex_less_transitive(a.source_id, b.source_id, c.source_id);
        }
    }
}

/// No candidate ranks before itself, and no two rank before each other.
pub proof fn lemma_precedes_asymmetric(a: FusedView, b: FusedView)
    requires
        precedes(a, b),
    ensures
        !precedes(b, a),
{
    lemma_lex_less_irreflexive(a.source_id);
    if lex_less(a.source_id, b.source_id) {
        lemma_lex_less_asymmetric(a.source_id, b.source_id);
    }
    if lex_less(b.source_id, a.source_id) {
        lemma_lex_less_asymmetric(b.source_id, a.source_id);
    }
}

/// Ranking keeps the candidates: the same number, and each candidate of
/// the result is one of the input and conversely.
pub proof fn lemma_rank_keeps(s: Seq<FusedView>)
    ensures
        rank(s).len() == s.len(),
        forall|i: int| 0 <= i < s.len() ==> s.contains(#[trigger] rank(s)[i]),
        forall|k: int| 0 <= k < s.len() ==> rank(s).contains(#[trigger] s[k]),
    decreases s.len(),
{
    if s.len() > 0 {
        let front = s.drop_last();
        let ranked = rank(front);
        lemma_rank_keeps(front);
        lemma_slot_from(ranked, s.last(), 0);
        let at = slot_from(ranked, s.last(), 0);
        let out = rank(s);
        assert(out == ranked.insert(at, s.last()));
        assert forall|i: int| 0 <= i < s.len() implies s.contains(#[trigger] out[i]) by {
            if i == at {
                assert(out[i] == s[s.len() - 1]);
            } else {
                let r = if i < at {
                    i
                } else {
                    i - 1
                };
                assert(out[i] == ranked[r]);
                assert(front.contains(ranked[r]));
                let k = choose|k: int| 0 <= k < front.len() && front[k] == ranked[r];
                assert(s[k] == ranked[r]);
            }
        }
        assert forall|k: int| 0 <= k < s.len() implies out.contains(#[trigger] s[k]) by {
            if k == s.len() - 1 {
                assert(out[at] == s[k]);
            } else {
                assert(front[k] == s[k]);
                assert(ranked.contains(front[k]));
                let r = choose|r: int| 0 <= r < ranked.len() && ranked[r] == front[k];
                if r < at {
                    assert(out[r] == s[k]);
                } else {
                    assert(out[r + 1] == s[k]);
                }
            }
        }
    }
}

/// Ranking candidates for different chunks gives, again, candidates for
/// different chunks, each before all that follow.
pub proof fn lemma_rank_orders(s: Seq<FusedView>)
    requires
        distinct_chunks(s),
    ensures
        distinct_chunks(rank(s)),
        is_ranked(rank(s)),
    decreases s.len(),
{
    if s.len() > 0 {
        let front = s.drop_last();
        let last = s.last();
        let ranked = rank(front);
        assert(distinct_chunks(front)) by {
            assert forall|i: int, j: int| 0 <= i < j < front.len() implies !same_chunk(
                #[trigger] front[i],
                #[trigger] front[j],
            ) by {
                assert(!same_chunk(s[i], s[j]));
            }
        }
        lemma_rank_orders(front);
        lemma_rank_keeps(front);
        lemma_slot_from(ranked, last, 0);
        let at = slot_from(ranked, last, 0);
        let out = rank(s);
        assert(out == ranked.insert(at, last));
        assert forall|r: int| 0 <= r < ranked.len() implies !same_chunk(
            #[trigger] ranked[r],
            last,
        ) by {
            assert(front.contains(ranked[r]));
            let k = choose|k: int| 0 <= k < front.len() && front[k] == ranked[r];
            assert(!same_chunk(s[k], s[s.len() - 1]));
        }
        assert forall|i: int, j: int| 0 <= i < j < out.len() implies !same_chunk(
            #[trigger] out[i],
            #[trigger] out[j],
        ) && precedes(out[i], out[j]) by {
            let ri = if i < at {
                i
            } else {
                i - 1
            };
            let rj = if j < at {
                j
            } else {
                j - 1
            };
            if i == at {
                assert(out[i] == last);
                assert(out[j] == ranked[rj]);
                assert(!same_chunk(ranked[rj], last));
                assert(precedes(last, ranked[at]));
                if rj > at {
                    assert(precedes(ranked[at], ranked[rj]));
                    lemma_precedes_transitive(last, ranked[at], ranked[rj]);
                }
            } else if j == at {
                assert(out[j] == last);
                assert(out[i] == ranked[ri]);
                assert(!same_chunk(ranked[ri], last));
                assert(!precedes(last, ranked[ri]));
                lemma_precedes_total(ranked[ri], last);
            } else {
                assert(out[i] == ranked[ri]);
                assert(out[j] == ranked[rj]);
                assert(!same_chunk(ranked[ri], ranked[rj]));
                assert(precedes(ranked[ri], ranked[rj]));
            }
        }
    }
}

/// No two candidates of a fused result stand for the same chunk, each
/// ranks before all that follow it, there are at most `cap` of them, and
/// each has an origin and, for each of its origins, a hit of that index
/// that passed its threshold: a vector hit below `max_distance`, a lexical
/// hit that reaches `min_score`.
pub proof fn lemma_fuse_sound(
    vector_hits: Seq<HitView>,
    lexical_hits: Seq<HitView>,
    max_distance: nat,
    min_score: nat,
    cap: nat,
)
    ensures
        fuse_spec(vector_hits, lexical_hits, max_distance, min_score, cap).len() <= cap,
        distinct_chunks(fuse_spec(vector_hits, lexical_hits, max_distance, min_score, cap)),
        is_ranked(fuse_spec(vector_hits, lexical_hits, max_distance, min_score, cap)),
        all_backed(
            fuse_spec(vector_hits, lexical_hits, max_distance, min_score, cap),
            vector_hits,
            lexical_hits,
            max_distance,
            min_score,
        ),
{
    let top = top_score(lexical_hits, min_score);
    let base = absorb_vector(Seq::empty(), vector_hits, max_distance);
    lemma_absorb_vector_sound(vector_hits, max_distance, min_score);
    lemma_absorb_lexical_sound(base, vector_hits, lexical_hits, max_distance, min_score, top);
    let all = merged(vector_hits, lexical_hits, max_distance, min_score);
    lemma_rank_keeps(all);
    lemma_rank_orders(all);
    let ranked = rank(all);
    let out = fuse_spec(vector_hits, lexical_hits, max_distance, min_score, cap);
    assert forall|i: int| 0 <= i < out.len() implies backed(
        #[trigger] out[i],
        vector_hits,
        lexical_hits,
        max_distance,
        min_score,
    ) by {
        assert(out[i] == ranked[i]);
        assert(all.contains(ranked[i]));
        let k = choose|k: int| 0 <= k < all.len() && all[k] == ranked[i];
        assert(backed(all[k], vector_hits, lexical_hits, max_distance, min_score));
    }
    assert forall|i: int, j: int| 0 <= i < j < out.len() implies !same_chunk(
        #[trigger] out[i],
        #[trigger] out[j],
    ) && precedes(out[i], out[j]) by {
        assert(out[i] == ranked[i]);
        assert(out[j] == ranked[j]);
    }
}

/// Without hits there are no candidates.
pub proof fn lemma_fuse_nothing(max_distance: nat, min_score: nat, cap: nat)
    ensures
        fuse_spec(Seq::empty(), Seq::empty(), max_distance, min_score, cap) == Seq::<
            FusedView,
        >::empty(),
{
    assert(fuse_spec(Seq::empty(), Seq::empty(), max_distance, min_score, cap) =~= Seq::<
        FusedView,
    >::empty());
}

/// Whether every relevance lies between zero and one.
pub open spec fn all_within_scale(s: Seq<FusedView>) -> bool {
    forall|i: int| 0 <= i < s.len() ==> (#[trigger] s[i]).normalized_score <= SCORE_SCALE
}

/// Merging an entry in keeps every relevance within the scale.
proof fn lemma_absorb_within_scale(held: Seq<FusedView>, entry: FusedView)
    requires
        all_within_scale(held),
        entry.normalized_score <= SCORE_SCALE,
    ensures
        all_within_scale(absorb(held, entry)),
{
    lemma_position_from(held, entry, 0);
    let at = position_from(held, entry, 0);
    let out = absorb(held, entry);
    assert forall|i: int| 0 <= i < out.len() implies (#[trigger] out[i]).normalized_score
        <= SCORE_SCALE by {
        if at < held.len() {
            if i != at {
                assert(out[i] == held[i]);
            } else {
                assert(held[at].normalized_score <= SCORE_SCALE);
            }
        } else if i < held.len() {
            assert(out[i] == held[i]);
        }
    }
}

/// The vector hits alone give relevances within the scale.
proof fn lemma_absorb_vector_within_scale(hits: Seq<HitView>, max_distance: nat)
    ensures
        all_within_scale(absorb_vector(Seq::empty(), hits, max_distance)),
    decreases hits.len(),
{
    if hits.len() > 0 {
        lemma_absorb_vector_within_scale(hits.drop_last(), max_distance);
        if hits.last().score < max_distance {
            lemma_vector_relevance_within(hits.last().score, max_distance);
            lemma_absorb_within_scale(
                absorb_vector(Seq::empty(), hits.drop_last(), max_distance),
                vector_entry(hits.last(), max_distance),
            );
        }
    }
}

/// Merging the lexical hits in keeps every relevance within the scale.
proof fn lemma_absorb_lexical_within_scale(
    held: Seq<FusedView>,
    hits: Seq<HitView>,
    min_score: nat,
    top: nat,
)
    requires
        all_within_scale(held),
        forall|j: int|
            0 <= j < hits.len() && (#[trigger] hits[j]).score >= min_score ==> hits[j].score <= top,
    ensures
        all_within_scale(absorb_lexical(held, hits, min_score, top)),
    decreases hits.len(),
{
    if hits.len() > 0 {
        assert forall|j: int|
            0 <= j < hits.drop_last().len() && (#[trigger] hits.drop_last()[j]).score
                >= min_score implies hits.drop_last()[j].score <= top by {
            assert(hits.drop_last()[j] == hits[j]);
        }
        lemma_absorb_lexical_within_scale(held, hits.drop_last(), min_score, top);
        if hits.last().score >= min_score {
            assert(hits[hits.len() - 1].score <= top);
            lemma_lexical_relevance_within(hits.last().score, top);
            lemma_absorb_within_scale(
                absorb_lexical(held, hits.drop_last(), min_score, top),
                lexical_entry(hits.last(), top),
            );
        }
    }
}

/// Every relevance of a fused result lies between zero and one.
pub proof fn lemma_fuse_within_scale(
    vector_hits: Seq<HitView>,
    lexical_hits: Seq<HitView>,
    max_distance: nat,
    min_score: nat,
    cap: nat,
)
    ensures
        all_within_scale(fuse_spec(vector_hits, lexical_hits, max_distance, min_score, cap)),
{
    let top = top_score(lexical_hits, min_score);
    let base = absorb_vector(Seq::empty(), vector_hits, max_distance);
    lemma_absorb_vector_within_scale(vector_hits, max_distance);
    lemma_top_score_bounds(lexical_hits, min_score);
    lemma_absorb_lexical_within_scale(base, lexical_hits, min_score, top);
    let all = merged(vector_hits, lexical_hits, max_distance, min_score);
    lemma_rank_keeps(all);
    let ranked = rank(all);
    let out = fuse_spec(vector_hits, lexical_hits, max_distance, min_score, cap);
    assert forall|i: int| 0 <= i < out.len() implies (#[trigger] out[i]).normalized_score
        <= SCORE_SCALE by {
        assert(out[i] == ranked[i]);
        assert(all.contains(ranked[i]));
        let k = choose|k: int| 0 <= k < all.len() && all[k] == ranked[i];
        assert(all[k].normalized_score <= SCORE_SCALE);
    }
}

/// Whether `s` holds a candidate for the chunk of `entry` that is at least
/// as relevant and has at least its origins.
pub open spec fn covered_by(s: Seq<FusedView>, entry: FusedView) -> bool {
    exists|i: int|
        0 <= i < s.len() && same_chunk(#[trigger] s[i], entry) && s[i].normalized_score
            >= entry.normalized_score && (entry.origins.vector ==> s[i].origins.vector) && (
        entry.origins.lexical ==> s[i].origins.lexical)
}

/// Whether the relevance of `c` is that of a hit for its chunk that passed
/// its threshold.
pub open spec fn attained(
    c: FusedView,
    vector_hits: Seq<HitView>,
    lexical_hits: Seq<HitView>,
    max_distance: nat,
    min_score: nat,
    top: nat,
) -> bool {
    ||| exists|j: int|
        0 <= j < vector_hits.len() && (#[trigger] vector_hits[j]).score < max_distance
            && same_chunk(c, vector_entry(vector_hits[j], max_distance)) && c.normalized_score
            == vector_relevance(vector_hits[j].score, max_distance)
    ||| exists|j: int|
        0 <= j < lexical_hits.len() && (#[trigger] lexical_hits[j]).score >= min_score
            && same_chunk(c, lexical_entry(lexical_hits[j], top)) && c.normalized_score
            == lexical_relevance(lexical_hits[j].score, top)
}

/// Whether the relevance of every candidate of `s` is attained.
pub open spec fn all_attained(
    s: Seq<FusedView>,
    vector_hits: Seq<HitView>,
    lexical_hits: Seq<HitView>,
    max_distance: nat,
    min_score: nat,
    top: nat,
) -> bool {
    forall|i: int|
        0 <= i < s.len() ==> attained(
            #[trigger] s[i],
            vector_hits,
            lexical_hits,
            max_distance,
            min_score,
            top,
        )
}

/// An entry that was covered stays covered when another is merged in.
proof fn lemma_absorb_keeps_cover(held: Seq<FusedView>, entry: FusedView, earlier: FusedView)
    requires
        covered_by(held, earlier),
    ensures
        covered_by(absorb(held, entry), earlier),
{
    lemma_position_from(held, entry, 0);
    let out = absorb(held, entry);
    let i = choose|i: int|
        0 <= i < held.len() && same_chunk(#[trigger] held[i], earlier) && held[i].normalized_score
            >= earlier.normalized_score && (earlier.origins.vector ==> held[i].origins.vector) && (
        earlier.origins.lexical ==> held[i].origins.lexical);
    assert(same_chunk(out[i], earlier));
}

/// An entry is covered once it is merged in.
proof fn lemma_absorb_covers(held: Seq<FusedView>, entry: FusedView)
    ensures
        covered_by(absorb(held, entry), entry),
{
    lemma_position_from(held, entry, 0);
    let at = position_from(held, entry, 0);
    let out = absorb(held, entry);
    assert(same_chunk(out[at], entry));
}

/// A relevance stays attained when hits are added at the end of the lists.
proof fn lemma_attained_widens(
    c: FusedView,
    vector_hits: Seq<HitView>,
    lexical_hits: Seq<HitView>,
    more_vector: Seq<HitView>,
    more_lexical: Seq<HitView>,
    max_distance: nat,
    min_score: nat,
    top: nat,
)
    requires
        attained(c, vector_hits, lexical_hits, max_distance, min_score, top),
        vector_hits.len() <= more_vector.len(),
        lexical_hits.len() <= more_lexical.len(),
        forall|j: int| 0 <= j < vector_hits.len() ==> vector_hits[j] == more_vector[j],
        forall|j: int| 0 <= j < lexical_hits.len() ==> lexical_hits[j] == more_lexical[j],
    ensures
        attained(c, more_vector, more_lexical, max_distance, min_score, top),
{
    if exists|j: int|
        0 <= j < vector_hits.len() && (#[trigger] vector_hits[j]).score < max_distance
            && same_chunk(c, vector_entry(vector_hits[j], max_distance)) && c.normalized_score
            == vector_relevance(vector_hits[j].score, max_distance) {
        let j = choose|j: int|
            0 <= j < vector_hits.len() && (#[trigger] vector_hits[j]).score < max_distance
                && same_chunk(c, vector_entry(vector_hits[j], max_distance)) && c.normalized_score
                == vector_relevance(vector_hits[j].score, max_distance);
        assert(more_vector[j] == vector_hits[j]);
    } else {
        let j = choose|j: int|
            0 <= j < lexical_hits.len() && (#[trigger] lexical_hits[j]).score >= min_score
                && same_chunk(c, lexical_entry(lexical_hits[j], top)) && c.normalized_score
                == lexical_relevance(lexical_hits[j].score, top);
        assert(more_lexical[j] == lexical_hits[j]);
    }
}

/// Merging an entry with an attained relevance in keeps every relevance attained.
proof fn lemma_absorb_attained(
    held: Seq<FusedView>,
    entry: FusedView,
    vector_hits: Seq<HitView>,
    lexical_hits: Seq<HitView>,
    max_distance: nat,
    min_score: nat,
    top: nat,
)
    requires
        all_attained(held, vector_hits, lexical_hits, max_distance, min_score, top),
        attained(entry, vector_hits, lexical_hits, max_distance, min_score, top),
    ensures
        all_attained(absorb(held, entry), vector_hits, lexical_hits, max_distance, min_score, top),
{
    lemma_position_from(held, entry, 0);
    let at = position_from(held, entry, 0);
    let out = absorb(held, entry);
    assert forall|i: int| 0 <= i < out.len() implies attained(
        #[trigger] out[i],
        vector_hits,
        lexical_hits,
        max_distance,
        min_score,
        top,
    ) by {
        if at < held.len() && i == at {
            let source = if entry.normalized_score > held[at].normalized_score {
                entry
            } else {
                held[at]
            };
            assert(attained(held[at], vector_hits, lexical_hits, max_distance, min_score, top));
            assert(attained(source, vector_hits, lexical_hits, max_distance, min_score, top));
            assert(out[i].normalized_score == source.normalized_score);
            assert(out[i].source_id == source.source_id && out[i].ordinal == source.ordinal);
            lemma_attained_same(out[i], source, vector_hits, lexical_hits, max_distance, min_score, top);
        } else if i < held.len() {
            assert(out[i] == held[i]);
        }
    }
}

/// A relevance attained by one candidate is attained by another for the same chunk.
proof fn lemma_attained_same(
    c: FusedView,
    source: FusedView,
    vector_hits: Seq<HitView>,
    lexical_hits: Seq<HitView>,
    max_distance: nat,
    min_score: nat,
    top: nat,
)
    requires
        attained(source, vector_hits, lexical_hits, max_distance, min_score, top),
        c.source_id == source.source_id,
        c.ordinal == source.ordinal,
        c.normalized_score == source.normalized_score,
    ensures
        attained(c, vector_hits, lexical_hits, max_distance, min_score, top),
{
    if exists|j: int|
        0 <= j < vector_hits.len() && (#[trigger] vector_hits[j]).score < max_distance
            && same_chunk(source, vector_entry(vector_hits[j], max_distance))
            && source.normalized_score == vector_relevance(vector_hits[j].score, max_distance) {
        let j = choose|j: int|
            0 <= j < vector_hits.len() && (#[trigger] vector_hits[j]).score < max_distance
                && same_chunk(source, vector_entry(vector_hits[j], max_distance))
                && source.normalized_score == vector_relevance(vector_hits[j].score, max_distance);
        assert(same_chunk(c, vector_entry(vector_hits[j], max_distance)));
    } else {
        let j = choose|j: int|
            0 <= j < lexical_hits.len() && (#[trigger] lexical_hits[j]).score >= min_score
                && same_chunk(source, lexical_entry(lexical_hits[j], top))
                && source.normalized_score == lexical_relevance(lexical_hits[j].score, top);
        assert(same_chunk(c, lexical_entry(lexical_hits[j], top)));
    }
}

/// Relevances stay attained when hits are added at the end of the lists.
proof fn lemma_all_attained_widens(
    s: Seq<FusedView>,
    vector_hits: Seq<HitView>,
    lexical_hits: Seq<HitView>,
    more_vector: Seq<HitView>,
    more_lexical: Seq<HitView>,
    max_distance: nat,
    min_score: nat,
    top: nat,
)
    requires
        all_attained(s, vector_hits, lexical_hits, max_distance, min_score, top),
        vector_hits.len() <= more_vector.len(),
        lexical_hits.len() <= more_lexical.len(),
        forall|j: int| 0 <= j < vector_hits.len() ==> vector_hits[j] == more_vector[j],
        forall|j: int| 0 <= j < lexical_hits.len() ==> lexical_hits[j] == more_lexical[j],
    ensures
        all_attained(s, more_vector, more_lexical, max_distance, min_score, top),
{
    assert forall|i: int| 0 <= i < s.len() implies attained(
        #[trigger] s[i],
        more_vector,
        more_lexical,
        max_distance,
        min_score,
        top,
    ) by {
        lemma_attained_widens(
            s[i],
            vector_hits,
            lexical_hits,
            more_vector,
            more_lexical,
            max_distance,
            min_score,
            top,
        );
    }
}

/// The vector hits alone: each surviving hit is covered, each relevance attained.
proof fn lemma_absorb_vector_complete(hits: Seq<HitView>, max_distance: nat, min_score: nat, top: nat)
    ensures
        forall|j: int|
            0 <= j < hits.len() && (#[trigger] hits[j]).score < max_distance ==> covered_by(
                absorb_vector(Seq::empty(), hits, max_distance),
                vector_entry(hits[j], max_distance),
            ),
        all_attained(
            absorb_vector(Seq::empty(), hits, max_distance),
            hits,
            Seq::empty(),
            max_distance,
            min_score,
            top,
        ),
    decreases hits.len(),
{
    if hits.len() > 0 {
        let front = hits.drop_last();
        let before = absorb_vector(Seq::empty(), front, max_distance);
        let out = absorb_vector(Seq::empty(), hits, max_distance);
        lemma_absorb_vector_complete(front, max_distance, min_score, top);
        lemma_all_attained_widens(
            before,
            front,
            Seq::empty(),
            hits,
            Seq::empty(),
            max_distance,
            min_score,
            top,
        );
        let last = hits.last();
        if last.score < max_distance {
            let entry = vector_entry(last, max_distance);
            assert(hits[hits.len() - 1] == last);
            assert(attained(entry, hits, Seq::empty(), max_distance, min_score, top));
            lemma_absorb_attained(before, entry, hits, Seq::empty(), max_distance, min_score, top);
            lemma_absorb_covers(before, entry);
        }
        assert forall|j: int|
            0 <= j < hits.len() && (#[trigger] hits[j]).score < max_distance implies covered_by(
            out,
            vector_entry(hits[j], max_distance),
        ) by {
            if j < hits.len() - 1 {
                assert(front[j] == hits[j]);
                if last.score < max_distance {
                    lemma_absorb_keeps_cover(
                        before,
                        vector_entry(last, max_distance),
                        vector_entry(hits[j], max_distance),
                    );
                }
            }
        }
    }
}

/// Merging the lexical hits in keeps what was covered, covers each surviving
/// lexical hit and keeps every relevance attained.
proof fn lemma_absorb_lexical_complete(
    held: Seq<FusedView>,
    vector_hits: Seq<HitView>,
    hits: Seq<HitView>,
    max_distance: nat,
    min_score: nat,
    top: nat,
)
    requires
        all_attained(held, vector_hits, Seq::empty(), max_distance, min_score, top),
    ensures
        forall|e: FusedView|
            covered_by(held, e) ==> covered_by(absorb_lexical(held, hits, min_score, top), e),
        forall|j: int|
            0 <= j < hits.len() && (#[trigger] hits[j]).score >= min_score ==> covered_by(
                absorb_lexical(held, hits, min_score, top),
                lexical_entry(hits[j], top),
            ),
        all_attained(
            absorb_lexical(held, hits, min_score, top),
            vector_hits,
            hits,
            max_distance,
            min_score,
            top,
        ),
    decreases hits.len(),
{
    if hits.len() == 0 {
        lemma_all_attained_widens(
            held,
            vector_hits,
            Seq::empty(),
            vector_hits,
            hits,
            max_distance,
            min_score,
            top,
        );
    } else {
        let front = hits.drop_last();
        let before = absorb_lexical(held, front, min_score, top);
        let out = absorb_lexical(held, hits, min_score, top);
        lemma_absorb_lexical_complete(held, vector_hits, front, max_distance, min_score, top);
        lemma_all_attained_widens(
            before,
            vector_hits,
            front,
            vector_hits,
            hits,
            max_distance,
            min_score,
            top,
        );
        let last = hits.last();
        if last.score >= min_score {
            let entry = lexical_entry(last, top);
            assert(hits[hits.len() - 1] == last);
            assert(attained(entry, vector_hits, hits, max_distance, min_score, top));
            lemma_absorb_attained(before, entry, vector_hits, hits, max_distance, min_score, top);
            lemma_absorb_covers(before, entry);
        }
        assert forall|e: FusedView| covered_by(held, e) implies covered_by(out, e) by {
            if last.score >= min_score {
                lemma_absorb_keeps_cover(before, lexical_entry(last, top), e);
            }
        }
        assert forall|j: int|
            0 <= j < hits.len() && (#[trigger] hits[j]).score >= min_score implies covered_by(
            out,
            lexical_entry(hits[j], top),
        ) by {
            if j < hits.len() - 1 {
                assert(front[j] == hits[j]);
                if last.score >= min_score {
                    lemma_absorb_keeps_cover(
                        before,
                        lexical_entry(last, top),
                        lexical_entry(hits[j], top),
                    );
                }
            }
        }
    }
}

/// Ranking keeps an entry covered.
proof fn lemma_rank_keeps_cover(s: Seq<FusedView>, entry: FusedView)
    requires
        covered_by(s, entry),
    ensures
        covered_by(rank(s), entry),
{
    lemma_rank_keeps(s);
    let i = choose|i: int|
        0 <= i < s.len() && same_chunk(#[trigger] s[i], entry) && s[i].normalized_score
            >= entry.normalized_score && (entry.origins.vector ==> s[i].origins.vector) && (
        entry.origins.lexical ==> s[i].origins.lexical);
    assert(rank(s).contains(s[i]));
    let r = choose|r: int| 0 <= r < rank(s).len() && rank(s)[r] == s[i];
    assert(same_chunk(rank(s)[r], entry));
}

/// Before the cut to the cap, nothing is lost and nothing is made up:
/// every hit that passed its threshold has a candidate for its chunk, with
/// the origin of the hit and at least its relevance; and the relevance of
/// every candidate is that of such a hit for its chunk. With no chunk
/// twice, the relevance of a candidate is the largest among its hits.
pub proof fn lemma_fuse_complete(
    vector_hits: Seq<HitView>,
    lexical_hits: Seq<HitView>,
    max_distance: nat,
    min_score: nat,
)
    ensures
        ({
            let all = rank(merged(vector_hits, lexical_hits, max_distance, min_score));
            let top = top_score(lexical_hits, min_score);
            &&& forall|j: int|
                0 <= j < vector_hits.len() && (#[trigger] vector_hits[j]).score < max_distance
                    ==> covered_by(all, vector_entry(vector_hits[j], max_distance))
            &&& forall|j: int|
                0 <= j < lexical_hits.len() && (#[trigger] lexical_hits[j]).score >= min_score
                    ==> covered_by(all, lexical_entry(lexical_hits[j], top))
            &&& all_attained(all, vector_hits, lexical_hits, max_distance, min_score, top)
            &&& distinct_chunks(all)
        }),
{
    let top = top_score(lexical_hits, min_score);
    let base = absorb_vector(Seq::empty(), vector_hits, max_distance);
    let both = merged(vector_hits, lexical_hits, max_distance, min_score);
    let all = rank(both);
    lemma_absorb_vector_complete(vector_hits, max_distance, min_score, top);
    lemma_absorb_lexical_complete(base, vector_hits, lexical_hits, max_distance, min_score, top);
    lemma_absorb_vector_sound(vector_hits, max_distance, min_score);
    lemma_absorb_lexical_sound(base, vector_hits, lexical_hits, max_distance, min_score, top);
    lemma_rank_keeps(both);
    lemma_rank_orders(both);
    assert forall|j: int|
        0 <= j < vector_hits.len() && (#[trigger] vector_hits[j]).score
            < max_distance implies covered_by(all, vector_entry(vector_hits[j], max_distance)) by {
        let e = vector_entry(vector_hits[j], max_distance);
        assert(covered_by(base, e));
        assert(covered_by(both, e));
        lemma_rank_keeps_cover(both, e);
    }
    assert forall|j: int|
        0 <= j < lexical_hits.len() && (#[trigger] lexical_hits[j]).score
            >= min_score implies covered_by(all, lexical_entry(lexical_hits[j], top)) by {
        lemma_rank_keeps_cover(both, lexical_entry(lexical_hits[j], top));
    }
    assert forall|i: int| 0 <= i < all.len() implies attained(
        #[trigger] all[i],
        vector_hits,
        lexical_hits,
        max_distance,
        min_score,
        top,
    ) by {
        assert(both.contains(all[i]));
        let k = choose|k: int| 0 <= k < both.len() && both[k] == all[i];
        assert(attained(both[k], vector_hits, lexical_hits, max_distance, min_score, top));
    }
}

} // verus!
