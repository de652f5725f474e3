//! The decisions of one query: what is asked of the embedding model and of
//! the two stores, in which order, and what becomes of their answers.
//!
//! The caller performs each action and hands the outcome back as an event.
//! The query vector is made first and held against the dimension of the
//! collection; then the vector store is searched; then, where a keyword was
//! given and hits are wanted, the lexical store; at last the hits are fused
//! and assembled into the context.

use crate::context::{assemble_spec, build_context, fallback, lemma_context_budget};
use crate::error::RetrievalError;
use crate::fusion::{all_from, fuse_spec, hit_views, CandidateHit, HitView, Origin};
use crate::fusion_laws::lemma_fuse_nothing;
use crate::gateway::{plan_keyword_search, plan_vector_search, SearchPlan};
use vstd::prelude::*;

verus! {

/// What a query is run with.
#[derive(Debug, Clone, Copy, PartialEq, Eq)]
pub struct QuerySettings {
    /// The number of components of the vectors of the collection.
    pub dimension: usize,
    /// The number of nearest neighbours asked of the vector store.
    pub nearest: usize,
    /// The number of hits asked of the lexical store.
    pub keyword_limit: usize,
    /// The distance, in millionths, that a vector hit must stay below.
    pub vector_max_distance: u64,
    /// The score, in millionths, that a lexical hit must reach.
    pub lexical_min_score: u64,
    /// The largest number of candidates in the context.
    pub max_candidates: usize,
    /// The largest number of characters of the context.
    pub max_chars: usize,
}

/// Where a query stands.
#[derive(Debug, Clone, Copy, PartialEq, Eq)]
pub enum QueryPhase {
    /// Waiting for the query vector.
    Embedding,
    /// Waiting for the hits of the vector store.
    VectorSearch,
    /// Waiting for the hits of the lexical store.
    KeywordSearch,
    /// The context is assembled.
    Done,
    /// The query was given up.
    Failed,
}

/// What came back from outside.
#[derive(Debug)]
pub enum QueryEvent {
    /// The query vector was made and has this many components.
    Embedded(usize),
    /// The nearest neighbours of the query vector.
    VectorHits(Vec<CandidateHit>),
    /// The hits for the keyword.
    KeywordHits(Vec<CandidateHit>),
    /// The model or a store could not be reached.
    Unavailable,
}

/// What the caller is to do next.
#[derive(Debug)]
pub enum QueryAction {
    /// Make the vector of the query.
    Embed,
    /// Ask the vector store for this many nearest neighbours.
    SearchVector { limit: usize },
    /// Ask the lexical store for this many hits.
    SearchKeyword { limit: usize },
    /// Stop: this is the context for the prompt.
    Answer(String),
    /// Stop and report this failure.
    Fail(RetrievalError),
}

/// An event as a mathematical value.
pub enum QueryEventView {
    Embedded(usize),
    VectorHits(Seq<HitView>),
    KeywordHits(Seq<HitView>),
    Unavailable,
}

/// An action as a mathematical value.
pub enum QueryActionView {
    Embed,
    SearchVector { limit: usize },
    SearchKeyword { limit: usize },
    Answer(Seq<char>),
    Fail(RetrievalError),
}

impl View for QueryEvent {
    type V = QueryEventView;

    open spec fn view(&self) -> QueryEventView {
        match self {
            QueryEvent::Embedded(len) => QueryEventView::Embedded(*len),
            QueryEvent::VectorHits(hits) => QueryEventView::VectorHits(hit_views(hits@)),
            QueryEvent::KeywordHits(hits) => QueryEventView::KeywordHits(hit_views(hits@)),
            QueryEvent::Unavailable => QueryEventView::Unavailable,
        }
    }
}

impl View for QueryAction {
    type V = QueryActionView;

    open spec fn view(&self) -> QueryActionView {
        match self {
            QueryAction::Embed => QueryActionView::Embed,
            QueryAction::SearchVector { limit } => QueryActionView::SearchVector { limit: *limit },
            QueryAction::SearchKeyword { limit } => QueryActionView::SearchKeyword {
                limit: *limit,
            },
            QueryAction::Answer(context) => QueryActionView::Answer(context@),
            QueryAction::Fail(error) => QueryActionView::Fail(*error),
        }
    }
}

/// The state of a query.
pub struct Query {
    settings: QuerySettings,
    keyword: bool,
    phase: QueryPhase,
    vector_hits: Vec<CandidateHit>,
    context: String,
    error: RetrievalError,
}

/// The state of a query as a mathematical value: the settings, whether a
/// keyword was given, the phase, the vector hits received, and the context
/// or the failure that the query ended with.
pub struct QueryView {
    pub settings: QuerySettings,
    pub keyword: bool,
    pub phase: QueryPhase,
    pub vector_hits: Seq<HitView>,
    pub context: Seq<char>,
    pub error: RetrievalError,
}

impl View for Query {
    type V = QueryView;

    closed spec fn view(&self) -> QueryView {
        QueryView {
            settings: self.settings,
            keyword: self.keyword,
            phase: self.phase,
            vector_hits: hit_views(self.vector_hits@),
            context: self.context@,
            error: self.error,
        }
    }
}

/// What is reported when the model or a store fails a query, or answers
/// out of turn.
pub open spec fn unavailable() -> RetrievalError {
    RetrievalError::BackendUnavailable { inserted: 0 }
}

/// The state in which a query starts: given up at once where the largest
/// distance is zero, waiting for the query vector otherwise.
pub open spec fn query_started(settings: QuerySettings, keyword: bool) -> QueryView {
    QueryView {
        settings,
        keyword,
        phase: if settings.vector_max_distance == 0 {
            QueryPhase::Failed
        } else {
            QueryPhase::Embedding
        },
        vector_hits: Seq::empty(),
        context: Seq::empty(),
        error: if settings.vector_max_distance == 0 {
            RetrievalError::InvalidThreshold
        } else {
            unavailable()
        },
    }
}

/// The state of a query that is given up with `error`.
pub open spec fn given_up(v: QueryView, error: RetrievalError) -> QueryView {
    QueryView {
        settings: v.settings,
        keyword: v.keyword,
        phase: QueryPhase::Failed,
        vector_hits: v.vector_hits,
        context: v.context,
        error,
    }
}

/// The state of a query that has all its hits: the context is assembled
/// from the fused hits, unless a hit stands in the wrong list.
pub open spec fn concluded(v: QueryView, lexical_hits: Seq<HitView>) -> QueryView {
    if all_from(v.vector_hits, Origin::Vector) && all_from(lexical_hits, Origin::Lexical) {
        QueryView {
            settings: v.settings,
            keyword: v.keyword,
            phase: QueryPhase::Done,
            vector_hits: v.vector_hits,
            context: assemble_spec(
                fuse_spec(
                    v.vector_hits,
                    lexical_hits,
                    v.settings.vector_max_distance as nat,
                    v.settings.lexical_min_score as nat,
                    v.settings.max_candidates as nat,
                ),
                v.settings.max_chars as nat,
            ),
            error: v.error,
        }
    } else {
        given_up(v, RetrievalError::OriginMismatch)
    }
}

/// `v` with the hits of the vector store.
pub open spec fn with_vector_hits(v: QueryView, hits: Seq<HitView>) -> QueryView {
    QueryView {
        settings: v.settings,
        keyword: v.keyword,
        phase: v.phase,
        vector_hits: hits,
        context: v.context,
        error: v.error,
    }
}

/// Whether the lexical store is searched at all: a keyword was given and
/// at least one hit is wanted.
pub open spec fn wants_keyword_search(v: QueryView) -> bool {
    v.keyword && v.settings.keyword_limit > 0
}

/// The state that follows `v` on `event`. A query vector of another
/// dimension than the collection's gives the query up, and so does an
/// answer that is not the one waited for. A query that is done or given up
/// stays as it is.
pub open spec fn query_step(v: QueryView, event: QueryEventView) -> QueryView {
    match v.phase {
        QueryPhase::Embedding => match event {
            QueryEventView::Embedded(found) => if found == v.settings.dimension {
                QueryView {
                    settings: v.settings,
                    keyword: v.keyword,
                    phase: QueryPhase::VectorSearch,
                    vector_hits: v.vector_hits,
                    context: v.context,
                    error: v.error,
                }
            } else {
                given_up(
                    v,
                    RetrievalError::DimensionMismatch { expected: v.settings.dimension, found },
                )
            },
            _ => given_up(v, unavailable()),
        },
        QueryPhase::VectorSearch => match event {
            QueryEventView::VectorHits(hits) => if wants_keyword_search(v) {
                QueryView {
                    settings: v.settings,
                    keyword: v.keyword,
                    phase: QueryPhase::KeywordSearch,
                    vector_hits: hits,
                    context: v.context,
                    error: v.error,
                }
            } else {
                concluded(with_vector_hits(v, hits), Seq::empty())
            },
            _ => given_up(v, unavailable()),
        },
        QueryPhase::KeywordSearch => match event {
            QueryEventView::KeywordHits(hits) => concluded(v, hits),
            _ => given_up(v, unavailable()),
        },
        QueryPhase::Done => v,
        QueryPhase::Failed => v,
    }
}

/// What the caller is to do in state `v`.
pub open spec fn query_action(v: QueryView) -> QueryActionView {
    match v.phase {
        QueryPhase::Embedding => QueryActionView::Embed,
        QueryPhase::VectorSearch => QueryActionView::SearchVector { limit: v.settings.nearest },
        QueryPhase::KeywordSearch => QueryActionView::SearchKeyword {
            limit: v.settings.keyword_limit,
        },
        QueryPhase::Done => QueryActionView::Answer(v.context),
        QueryPhase::Failed => QueryActionView::Fail(v.error),
    }
}

/// A query that finds nothing in either store ends with the fallback as
/// its context; and whatever a query finds, its context is the fallback or
/// keeps to the budget of characters, and is never empty.
pub proof fn lemma_query_context(v: QueryView, lexical_hits: Seq<HitView>)
    requires
        all_from(v.vector_hits, Origin::Vector),
        all_from(lexical_hits, Origin::Lexical),
    ensures
        concluded(v, lexical_hits).phase is Done,
        v.vector_hits.len() == 0 && lexical_hits.len() == 0 ==> concluded(v, lexical_hits).context
            == fallback(),
        concluded(v, lexical_hits).context == fallback() || concluded(v, lexical_hits).context.len()
            <= v.settings.max_chars,
        concluded(v, lexical_hits).context.len() > 0,
{
    let fused = fuse_spec(
        v.vector_hits,
        lexical_hits,
        v.settings.vector_max_distance as nat,
        v.settings.lexical_min_score as nat,
        v.settings.max_candidates as nat,
    );
    lemma_context_budget(fused, v.settings.max_chars as nat);
    if v.vector_hits.len() == 0 && lexical_hits.len() == 0 {
        assert(v.vector_hits =~= Seq::<HitView>::empty());
        assert(lexical_hits =~= Seq::<HitView>::empty());
        lemma_fuse_nothing(
            v.settings.vector_max_distance as nat,
            v.settings.lexical_min_score as nat,
            v.settings.max_candidates as nat,
        );
    }
}

impl Query {
    /// A query that has not been given up has a positive largest distance.
    #[verifier::type_invariant]
    spec fn possible(self) -> bool {
        !(self.phase is Failed) ==> self.settings.vector_max_distance > 0
    }

    /// Starts a query; `keyword` tells whether a keyword was given.
    pub fn begin(settings: QuerySettings, keyword: bool) -> (query: Query)
        ensures
            query@ == query_started(settings, keyword),
    {
        let query = if settings.vector_max_distance == 0 {
            Query {
                settings,
                keyword,
                phase: QueryPhase::Failed,
                vector_hits: Vec::new(),
                context: String::new(),
                error: RetrievalError::InvalidThreshold,
            }
        } else {
            Query {
                settings,
                keyword,
                phase: QueryPhase::Embedding,
                vector_hits: Vec::new(),
                context: String::new(),
                error: RetrievalError::BackendUnavailable { inserted: 0 },
            }
        };
        assert(hit_views(query.vector_hits@) =~= Seq::<HitView>::empty());
        query
    }

    /// Where the query stands.
    pub fn phase(&self) -> (phase: QueryPhase)
        ensures
            phase == self@.phase,
    {
        self.phase
    }

    /// What the caller is to do next.
    pub fn action(&self) -> (next: QueryAction)
        ensures
            next@ == query_action(self@),
    {
        match self.phase {
            QueryPhase::Embedding => QueryAction::Embed,
            QueryPhase::VectorSearch => QueryAction::SearchVector { limit: self.settings.nearest },
            QueryPhase::KeywordSearch => QueryAction::SearchKeyword {
                limit: self.settings.keyword_limit,
            },
            QueryPhase::Done => QueryAction::Answer(self.context.clone()),
            QueryPhase::Failed => QueryAction::Fail(self.error),
        }
    }

    /// The query given up with `error`.
    fn give_up(self, error: RetrievalError) -> (next: Query)
        ensures
            next@ == given_up(self@, error),
    {
        Query {
            settings: self.settings,
            keyword: self.keyword,
            phase: QueryPhase::Failed,
            vector_hits: self.vector_hits,
            context: self.context,
            error,
        }
    }

    /// The query with all its hits.
    fn conclude(self, lexical_hits: Vec<CandidateHit>) -> (next: Query)
        requires
            !(self@.phase is Failed),
        ensures
            next@ == concluded(self@, hit_views(lexical_hits@)),
    {
        proof {
            use_type_invariant(&self);
        }
        match build_context(
            &self.vector_hits,
            &lexical_hits,
            self.settings.vector_max_distance,
            self.settings.lexical_min_score,
            self.settings.max_candidates,
            self.settings.max_chars,
        ) {
            Ok(context) => Query {
                settings: self.settings,
                keyword: self.keyword,
                phase: QueryPhase::Done,
                vector_hits: self.vector_hits,
                context,
                error: self.error,
            },
            Err(error) => self.give_up(error),
        }
    }

    /// The state after what came back for the last action.
    pub fn step(self, event: QueryEvent) -> (next: Query)
        ensures
            next@ == query_step(self@, event@),
    {
        proof {
            use_type_invariant(&self);
        }
        match self.phase {
            QueryPhase::Embedding => match event {
                QueryEvent::Embedded(found) => {
                    match plan_vector_search(found, self.settings.dimension, self.settings.nearest) {
                        Ok(_) => Query {
                            settings: self.settings,
                            keyword: self.keyword,
                            phase: QueryPhase::VectorSearch,
                            vector_hits: self.vector_hits,
                            context: self.context,
                            error: self.error,
                        },
                        Err(error) => self.give_up(error),
                    }
                },
                _ => self.give_up(RetrievalError::BackendUnavailable { inserted: 0 }),
            },
            QueryPhase::VectorSearch => match event {
                QueryEvent::VectorHits(hits) => {
                    let wanted = self.keyword && match plan_keyword_search(
                        self.settings.keyword_limit,
                    ) {
                        SearchPlan::Ask { .. } => true,
                        SearchPlan::Skip => false,
                    };
                    let held = Query {
                        settings: self.settings,
                        keyword: self.keyword,
                        phase: if wanted {
                            QueryPhase::KeywordSearch
                        } else {
                            QueryPhase::VectorSearch
                        },
                        vector_hits: hits,
                        context: self.context,
                        error: self.error,
                    };
                    if wanted {
                        held
                    } else {
                        let none: Vec<CandidateHit> = Vec::new();
                        assert(hit_views(none@) =~= Seq::<HitView>::empty());
                        held.conclude(none)
                    }
                },
                _ => self.give_up(RetrievalError::BackendUnavailable { inserted: 0 }),
            },
            QueryPhase::KeywordSearch => match event {
                QueryEvent::KeywordHits(hits) => self.conclude(hits),
                _ => self.give_up(RetrievalError::BackendUnavailable { inserted: 0 }),
            },
            QueryPhase::Done => self,
            QueryPhase::Failed => self,
        }
    }
}

} // verus!
