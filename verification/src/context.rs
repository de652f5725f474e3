//! Assembly of the fused candidates into the context string of a prompt,
//! within a budget of characters.

use crate::error::RetrievalError;
use crate::fusion::{
    all_from, fuse, fuse_spec, fused_views, hit_views, CandidateHit, FusedCandidate, FusedView,
    Origin,
};
use crate::text::{decimal, push_decimal};
use vstd::prelude::*;
use vstd::string::{StrSliceExecFns, StringExecFns};

verus! {

/// How a chunk is named: its source, a slash and its ordinal.
pub open spec fn label(source_id: Seq<char>, ordinal: u64) -> Seq<char> {
    source_id + "/"@ + decimal(ordinal as nat)
}

/// One candidate as it stands in the context.
pub open spec fn rendered(c: FusedView) -> Seq<char> {
    "(document:\""@ + label(c.source_id, c.ordinal) + "\", with contents:"@ + c.text + ")"@
}

/// All candidates as they would stand in the context.
pub open spec fn rendered_all(candidates: Seq<FusedView>) -> Seq<Seq<char>> {
    Seq::new(candidates.len(), |i: int| rendered(candidates[i]))
}

/// The context where there is no evidence to show.
pub open spec fn fallback() -> Seq<char> {
    "Use any knowledge you have."@
}

/// What stands between two candidates.
pub open spec fn joint() -> Seq<char> {
    ", "@
}

/// The lengths of `parts`.
pub open spec fn lengths_of(parts: Seq<Seq<char>>) -> Seq<nat> {
    Seq::new(parts.len(), |i: int| parts[i].len())
}

/// The numbers of `sizes` as natural numbers.
pub open spec fn sizes_of(sizes: Seq<usize>) -> Seq<nat> {
    Seq::new(sizes.len(), |i: int| sizes[i] as nat)
}

/// The length of the first `n` parts joined, two characters between each
/// two of them.
pub open spec fn joined_len(lengths: Seq<nat>, n: int) -> nat
    decreases n,
{
    if n <= 0 {
        0
    } else if n == 1 {
        lengths[0]
    } else {
        joined_len(lengths, n - 1) + 2 + lengths[n - 1]
    }
}

/// The number of leading parts taken when the first `n` are known to fit:
/// parts are taken until one would take the joined length past `budget`.
pub open spec fn fitting_from(lengths: Seq<nat>, budget: nat, n: int) -> int
    decreases lengths.len() - n,
{
    if 0 <= n < lengths.len() && joined_len(lengths, n + 1) <= budget {
        fitting_from(lengths, budget, n + 1)
    } else {
        n
    }
}

/// The number of leading parts that the budget admits.
pub open spec fn fitting(lengths: Seq<nat>, budget: nat) -> int {
    fitting_from(lengths, budget, 0)
}

/// The first `n` parts joined.
pub open spec fn joined(parts: Seq<Seq<char>>, n: int) -> Seq<char>
    decreases n,
{
    if n <= 0 {
        Seq::empty()
    } else if n == 1 {
        parts[0]
    } else {
        joined(parts, n - 1) + joint() + parts[n - 1]
    }
}

/// The context for `candidates` within `max_chars` characters: the leading
/// candidates that fit, each whole, or the fallback where none does.
pub open spec fn assemble_spec(candidates: Seq<FusedView>, max_chars: nat) -> Seq<char> {
    let parts = rendered_all(candidates);
    let n = fitting(lengths_of(parts), max_chars);
    if n == 0 {
        fallback()
    } else {
        joined(parts, n)
    }
}

/// The admitted parts are a prefix, the prefix fits the budget, and the
/// part after it would not.
pub proof fn lemma_fitting(lengths: Seq<nat>, budget: nat, n: int)
    requires
        0 <= n <= lengths.len(),
        joined_len(lengths, n) <= budget,
    ensures
        n <= fitting_from(lengths, budget, n) <= lengths.len(),
        joined_len(lengths, fitting_from(lengths, budget, n)) <= budget,
        fitting_from(lengths, budget, n) < lengths.len() ==> joined_len(
            lengths,
            fitting_from(lengths, budget, n) + 1,
        ) > budget,
    decreases lengths.len() - n,
{
    if n < lengths.len() && joined_len(lengths, n + 1) <= budget {
        lemma_fitting(lengths, budget, n + 1);
    }
}

/// The joined parts are as long as `joined_len` says.
pub proof fn lemma_joined_len(parts: Seq<Seq<char>>, n: int)
    requires
        0 <= n <= parts.len(),
    ensures
        joined(parts, n).len() == joined_len(lengths_of(parts), n),
    decreases n,
{
    if n > 1 {
        lemma_joined_len(parts, n - 1);
        reveal_strlit(", ");
    }
}

/// A rendered candidate is never empty, and neither is a joined prefix.
pub proof fn lemma_joined_not_empty(candidates: Seq<FusedView>, n: int)
    requires
        1 <= n <= candidates.len(),
    ensures
        joined(rendered_all(candidates), n).len() > 0,
    decreases n,
{
    reveal_strlit("(document:\"");
    let parts = rendered_all(candidates);
    if n == 1 {
        assert(parts[0] == rendered(candidates[0]));
        assert(rendered(candidates[0]).len() >= "(document:\""@.len());
    } else {
        lemma_joined_not_empty(candidates, n - 1);
    }
}

/// The context keeps to its budget whenever it shows a candidate; the
/// fallback is what it is whatever the budget; and the context is never
/// empty.
pub proof fn lemma_context_budget(candidates: Seq<FusedView>, max_chars: nat)
    ensures
        fitting(lengths_of(rendered_all(candidates)), max_chars) > 0 ==> assemble_spec(
            candidates,
            max_chars,
        ).len() <= max_chars,
        fitting(lengths_of(rendered_all(candidates)), max_chars) == 0 ==> assemble_spec(
            candidates,
            max_chars,
        ) == fallback(),
        candidates.len() == 0 ==> assemble_spec(candidates, max_chars) == fallback(),
        assemble_spec(candidates, max_chars).len() > 0,
{
    let parts = rendered_all(candidates);
    lemma_fitting(lengths_of(parts), max_chars, 0);
    lemma_joined_len(parts, fitting(lengths_of(parts), max_chars));
    if fitting(lengths_of(parts), max_chars) > 0 {
        lemma_joined_not_empty(candidates, fitting(lengths_of(parts), max_chars));
    } else {
        reveal_strlit("Use any knowledge you have.");
    }
}

/// The name of a chunk: its source, a slash and its ordinal.
pub fn chunk_label(source_id: &str, ordinal: u64) -> (name: String)
    ensures
        name@ == label(source_id@, ordinal),
{
    let mut out = String::from_str(source_id);
    out.append("/");
    push_decimal(&mut out, ordinal);
    out
}

/// One candidate as it stands in the context.
pub fn render_candidate(candidate: &FusedCandidate) -> (text: String)
    ensures
        text@ == rendered(candidate@),
{
    let mut out = String::from_str("(document:\"");
    let name = chunk_label(candidate.source_id.as_str(), candidate.ordinal);
    out.append(name.as_str());
    out.append("\", with contents:");
    out.append(candidate.text.as_str());
    out.append(")");
    out
}

/// The number of leading parts, of the given lengths, that fit in
/// `max_chars` characters when two characters stand between each two of
/// them. Counting stops at the first part that does not fit.
pub fn budget_prefix(lengths: &Vec<usize>, max_chars: usize) -> (count: usize)
    ensures
        count == fitting(sizes_of(lengths@), max_chars as nat),
        count <= lengths.len(),
        joined_len(sizes_of(lengths@), count as int) <= max_chars,
        count < lengths.len() ==> joined_len(sizes_of(lengths@), count + 1) > max_chars,
{
    let ghost sizes = sizes_of(lengths@);
    let ghost budget = max_chars as nat;
    let mut count: usize = 0;
    let mut total: usize = 0;
    let mut open = true;
    while count < lengths.len() && open
        invariant
            count <= lengths.len(),
            sizes == sizes_of(lengths@),
            budget == max_chars as nat,
            total == joined_len(sizes, count as int),
            total <= max_chars,
            fitting(sizes, budget) == fitting_from(sizes, budget, count as int),
            !open ==> count < lengths.len() && joined_len(sizes, count + 1) > budget,
        decreases lengths.len() - count + (if open { 1int } else { 0int }),
    {
        let size = lengths[count];
        assert(sizes[count as int] == size as nat);
        let room = max_chars - total;
        if count == 0 {
            if size <= room {
                total = size;
                count += 1;
            } else {
                open = false;
            }
        } else if room >= 2 && size <= room - 2 {
            total = total + 2 + size;
            count += 1;
        } else {
            open = false;
        }
    }
    proof {
        lemma_fitting(sizes, budget, count as int);
    }
    count
}

/// The context for `candidates`, in their order: each as a document with
/// its name and contents, joined by a comma and a space. Candidates are
/// taken whole, up to the first that would take the context past
/// `max_chars` characters; where not even the first fits, or there is
/// none, the context tells the model to use what it knows.
pub fn assemble(candidates: &Vec<FusedCandidate>, max_chars: usize) -> (context: String)
    ensures
        context@ == assemble_spec(fused_views(candidates@), max_chars as nat),
        candidates.len() == 0 ==> context@ == fallback(),
        context@ == fallback() || context@.len() <= max_chars,
        context@.len() > 0,
{
    let ghost views = fused_views(candidates@);
    let ghost parts = rendered_all(views);
    let mut pieces: Vec<String> = Vec::new();
    let mut lengths: Vec<usize> = Vec::new();
    let mut i: usize = 0;
    while i < candidates.len()
        invariant
            i <= candidates.len(),
            views == fused_views(candidates@),
            parts == rendered_all(views),
            pieces.len() == i,
            lengths.len() == i,
            forall|k: int| 0 <= k < i ==> (#[trigger] pieces[k])@ == parts[k],
            forall|k: int| 0 <= k < i ==> (#[trigger] lengths[k]) as nat == parts[k].len(),
        decreases candidates.len() - i,
    {
        let piece = render_candidate(&candidates[i]);
        assert(piece@ == parts[i as int]);
        let size = piece.as_str().unicode_len();
        pieces.push(piece);
        lengths.push(size);
        i += 1;
    }
    assert(sizes_of(lengths@) =~= lengths_of(parts));
    let count = budget_prefix(&lengths, max_chars);
    proof {
        lemma_context_budget(views, max_chars as nat);
    }
    if count == 0 {
        return String::from_str("Use any knowledge you have.");
    }
    let mut out = String::new();
    let mut n: usize = 0;
    while n < count
        invariant
            n <= count <= pieces.len(),
            pieces.len() == parts.len(),
            forall|k: int| 0 <= k < pieces.len() ==> (#[trigger] pieces[k])@ == parts[k],
            out@ == joined(parts, n as int),
        decreases count - n,
    {
        if n > 0 {
            out.append(", ");
        }
        out.append(pieces[n].as_str());
        assert(out@ =~= joined(parts, n + 1));
        n += 1;
    }
    out
}

/// The context for the hits of one query: the hits fused, and the fused
/// candidates assembled within `max_chars` characters. A largest distance
/// of zero is refused, and so is a hit in the list of the index that it
/// does not come from. Without hits the context is the fallback.
pub fn build_context(
    vector_hits: &Vec<CandidateHit>,
    lexical_hits: &Vec<CandidateHit>,
    vector_max_distance: u64,
    lexical_min_score: u64,
    max_candidates: usize,
    max_chars: usize,
) -> (context: Result<String, RetrievalError>)
    ensures
        vector_max_distance == 0 ==> context == Err::<String, RetrievalError>(
            RetrievalError::InvalidThreshold,
        ),
        vector_max_distance > 0 && !(all_from(hit_views(vector_hits@), Origin::Vector) && all_from(
            hit_views(lexical_hits@),
            Origin::Lexical,
        )) ==> context == Err::<String, RetrievalError>(RetrievalError::OriginMismatch),
        vector_max_distance > 0 && all_from(hit_views(vector_hits@), Origin::Vector) && all_from(
            hit_views(lexical_hits@),
            Origin::Lexical,
        ) ==> context is Ok && context->Ok_0@ == assemble_spec(
            fuse_spec(
                hit_views(vector_hits@),
                hit_views(lexical_hits@),
                vector_max_distance as nat,
                lexical_min_score as nat,
                max_candidates as nat,
            ),
            max_chars as nat,
        ),
        context is Ok ==> context->Ok_0@ == fallback() || context->Ok_0@.len() <= max_chars,
        context is Ok ==> context->Ok_0@.len() > 0,
        context is Ok && vector_hits.len() == 0 && lexical_hits.len() == 0 ==> context->Ok_0@
            == fallback(),
{
    match fuse(vector_hits, lexical_hits, vector_max_distance, lexical_min_score, max_candidates) {
        Ok(fused) => Ok(assemble(&fused, max_chars)),
        Err(error) => Err(error),
    }
}

/// The instructions to the model, with the date and the context.
pub open spec fn system_prompt_of(date: Seq<char>, context: Seq<char>) -> Seq<char> {
    "You are a friendly and helpful AI assistant. Your answer should be to the point and use the context if possible. Do not make up facts. Print the name of document used from the context. Do not repeat the question or references. Do not invent answers or references. Today is "@
        + date + ". Context: "@ + context
}

/// The instructions to the model: what is asked of it, the date and the
/// context.
pub fn system_prompt(date: &str, context: &str) -> (prompt: String)
    ensures
        prompt@ == system_prompt_of(date@, context@),
{
    let mut out = String::from_str(
        "You are a friendly and helpful AI assistant. Your answer should be to the point and use the context if possible. Do not make up facts. Print the name of document used from the context. Do not repeat the question or references. Do not invent answers or references. Today is ",
    );
    out.append(date);
    out.append(". Context: ");
    out.append(context);
    out
}

/// The user's part of the prompt.
pub fn question_prompt(question: &str) -> (prompt: String)
    ensures
        prompt@ == "Question: "@ + question@,
{
    let mut out = String::from_str("Question: ");
    out.append(question);
    out
}

/// The whole prompt for a model that takes one text: the instructions, a
/// line break and the question.
pub fn full_prompt(date: &str, context: &str, question: &str) -> (prompt: String)
    ensures
        prompt@ == system_prompt_of(date@, context@) + " \n"@ + ("Question: "@ + question@),
{
    let mut out = system_prompt(date, context);
    out.append(" \n");
    let asked = question_prompt(question);
    out.append(asked.as_str());
    out
}

} // verus!
