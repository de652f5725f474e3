//! Splitting of raw text into size-bounded chunks: sentences first, comma
//! clauses where a sentence is too long.

use crate::text::{
    copy_span, from_chars, is_space, is_space_char, skip_spaces, skip_spaces_back, spans, texts,
    to_chars, trim, trim_chars,
};
use vstd::prelude::*;
use vstd::string::StringExecFns;
use vstd::utf8::encode_utf8;

verus! {

/// Whether `c` ends a sentence.
pub open spec fn is_terminal(c: char) -> bool {
    c == '.' || c == '?' || c == '!'
}

/// The sentence units of `text[start..]`, where `text[start..i]` holds no
/// terminal punctuation. A unit runs up to and including its terminal
/// character; text after the last terminal character forms a last unit.
pub open spec fn units_from(text: Seq<char>, start: int, i: int) -> Seq<Seq<char>>
    decreases text.len() - i,
{
    if i < 0 || i >= text.len() {
        if 0 <= start < text.len() {
            seq![text.subrange(start, text.len() as int)]
        } else {
            Seq::empty()
        }
    } else if is_terminal(text[i]) {
        seq![text.subrange(start, i + 1)] + units_from(text, i + 1, i + 1)
    } else {
        units_from(text, start, i + 1)
    }
}

/// The sentence units of `text`, untrimmed, in reading order.
pub open spec fn sentence_units(text: Seq<char>) -> Seq<Seq<char>> {
    units_from(text, 0, 0)
}

/// `raw` trimmed, as a list of one fragment, or no fragment when nothing
/// but whitespace is left.
pub open spec fn piece(raw: Seq<char>) -> Seq<Seq<char>> {
    let t = trim(raw);
    if t.len() > 0 {
        seq![t]
    } else {
        Seq::empty()
    }
}

/// The comma fragments of `unit[start..]`, where `unit[start..i]` holds no
/// comma.
pub open spec fn fragments_from(unit: Seq<char>, start: int, i: int) -> Seq<Seq<char>>
    decreases unit.len() - i,
{
    if i < 0 || i >= unit.len() {
        piece(unit.subrange(start, unit.len() as int))
    } else if unit[i] == ',' {
        piece(unit.subrange(start, i)) + fragments_from(unit, i + 1, i + 1)
    } else {
        fragments_from(unit, start, i + 1)
    }
}

/// The parts of `unit` between commas, trimmed, without the empty ones.
pub open spec fn comma_fragments(unit: Seq<char>) -> Seq<Seq<char>> {
    fragments_from(unit, 0, 0)
}

/// What joins two fragments in one chunk.
pub open spec fn separator() -> Seq<char> {
    seq![',', ' ']
}

/// The chunks made of `frags[i..]` when `buffer` holds the fragments
/// gathered so far.
pub open spec fn pack_from(frags: Seq<Seq<char>>, i: int, buffer: Seq<char>, limit: nat) -> Seq<
    Seq<char>,
>
    decreases frags.len() - i,
{
    if i < 0 || i >= frags.len() {
        if buffer.len() > 0 {
            seq![buffer]
        } else {
            Seq::empty()
        }
    } else if buffer.len() == 0 {
        pack_from(frags, i + 1, frags[i], limit)
    } else if buffer.len() + 2 + frags[i].len() > limit {
        seq![buffer] + pack_from(frags, i + 1, frags[i], limit)
    } else {
        pack_from(frags, i + 1, buffer + separator() + frags[i], limit)
    }
}

/// Fragments gathered greedily into chunks of at most `limit` characters;
/// a fragment longer than that stands alone.
pub open spec fn pack(frags: Seq<Seq<char>>, limit: nat) -> Seq<Seq<char>> {
    pack_from(frags, 0, Seq::empty(), limit)
}

/// The chunks of one sentence unit.
pub open spec fn unit_chunks(unit: Seq<char>, limit: nat) -> Seq<Seq<char>> {
    let t = trim(unit);
    if t.len() == 0 {
        Seq::empty()
    } else if t.len() <= limit {
        seq![t]
    } else {
        pack(comma_fragments(t), limit)
    }
}

/// The chunks of a list of sentence units, in order.
pub open spec fn units_chunks(units: Seq<Seq<char>>, limit: nat) -> Seq<Seq<char>>
    decreases units.len(),
{
    if units.len() == 0 {
        Seq::empty()
    } else {
        units_chunks(units.drop_last(), limit) + unit_chunks(units.last(), limit)
    }
}

/// The chunks of `text` for a target length of `limit` characters.
pub open spec fn segment_spec(text: Seq<char>, limit: nat) -> Seq<Seq<char>> {
    units_chunks(sentence_units(text), limit)
}

/// Whether `s` holds no comma.
pub open spec fn comma_free(s: Seq<char>) -> bool {
    forall|j: int| 0 <= j < s.len() ==> s[j] != ','
}

/// Whether `chunk` keeps to `limit`, or could not be split any further.
pub open spec fn bounded_chunk(chunk: Seq<char>, limit: nat) -> bool {
    chunk.len() <= limit || comma_free(chunk)
}

/// Whether every chunk of `chunks` is a bounded chunk.
pub open spec fn all_bounded(chunks: Seq<Seq<char>>, limit: nat) -> bool {
    forall|k: int| 0 <= k < chunks.len() ==> bounded_chunk(#[trigger] chunks[k], limit)
}

/// The views of a list with one more vector.
proof fn lemma_spans_push(v: Seq<Vec<char>>, x: Vec<char>)
    ensures
        spans(v.push(x)) == spans(v).push(x@),
{
    assert(spans(v.push(x)) =~= spans(v).push(x@));
}

/// The views of a list with one more string.
proof fn lemma_texts_push(v: Seq<String>, x: String)
    ensures
        texts(v.push(x)) == texts(v).push(x@),
{
    assert(texts(v.push(x)) =~= texts(v).push(x@));
}

/// Whether `c` ends a sentence.
pub fn is_terminal_char(c: char) -> (b: bool)
    ensures
        b == is_terminal(c),
{
    c == '.' || c == '?' || c == '!'
}

/// The sentence units of `chars`, untrimmed.
pub fn split_units(chars: &Vec<char>) -> (units: Vec<Vec<char>>)
    ensures
        spans(units@) == sentence_units(chars@),
{
    let n = chars.len();
    let mut out: Vec<Vec<char>> = Vec::new();
    let mut start: usize = 0;
    let mut i: usize = 0;
    assert(spans(out@) + units_from(chars@, 0, 0) =~= sentence_units(chars@));
    while i < n
        invariant
            n == chars.len(),
            start <= i <= n,
            sentence_units(chars@) == spans(out@) + units_from(chars@, start as int, i as int),
        decreases n - i,
    {
        if is_terminal_char(chars[i]) {
            let unit = copy_span(chars, start, i + 1);
            proof {
                lemma_spans_push(out@, unit);
                assert(spans(out@).push(unit@) + units_from(chars@, i + 1, i + 1) =~= spans(out@)
                    + units_from(chars@, start as int, i as int));
            }
            out.push(unit);
            start = i + 1;
        }
        i += 1;
    }
    if start < n {
        let unit = copy_span(chars, start, n);
        proof {
            lemma_spans_push(out@, unit);
            assert(spans(out@).push(unit@) =~= spans(out@) + units_from(
                chars@,
                start as int,
                i as int,
            ));
        }
        out.push(unit);
    } else {
        assert(spans(out@) =~= spans(out@) + units_from(chars@, start as int, i as int));
    }
    out
}

/// Appends the trimmed `unit[start..upto]` to `out` unless it is empty.
fn push_piece(out: &mut Vec<Vec<char>>, unit: &Vec<char>, start: usize, upto: usize)
    requires
        start <= upto <= unit.len(),
    ensures
        spans(final(out)@) == spans(old(out)@) + piece(
            unit@.subrange(start as int, upto as int),
        ),
{
    let raw = copy_span(unit, start, upto);
    let t = trim_chars(&raw);
    if t.len() > 0 {
        proof {
            lemma_spans_push(out@, t);
            assert(spans(out@).push(t@) =~= spans(out@) + piece(raw@));
        }
        out.push(t);
    } else {
        assert(spans(out@) =~= spans(out@) + piece(raw@));
    }
}

/// The parts of `unit` between commas, trimmed, without the empty ones.
pub fn split_fragments(unit: &Vec<char>) -> (frags: Vec<Vec<char>>)
    ensures
        spans(frags@) == comma_fragments(unit@),
{
    let n = unit.len();
    let mut out: Vec<Vec<char>> = Vec::new();
    let mut start: usize = 0;
    let mut i: usize = 0;
    assert(spans(out@) + fragments_from(unit@, 0, 0) =~= comma_fragments(unit@));
    while i < n
        invariant
            n == unit.len(),
            start <= i <= n,
            comma_fragments(unit@) == spans(out@) + fragments_from(unit@, start as int, i as int),
        decreases n - i,
    {
        if unit[i] == ',' {
            let ghost before = spans(out@);
            push_piece(&mut out, unit, start, i);
            proof {
                assert(spans(out@) + fragments_from(unit@, i + 1, i + 1) =~= before
                    + fragments_from(unit@, start as int, i as int));
            }
            start = i + 1;
        }
        i += 1;
    }
    push_piece(&mut out, unit, start, n);
    out
}

/// Appends the characters of `src` to `buffer`.
fn extend_chars(buffer: &mut Vec<char>, src: &Vec<char>)
    ensures
        final(buffer)@ == old(buffer)@ + src@,
{
    let n = src.len();
    let mut i: usize = 0;
    assert(buffer@ =~= old(buffer)@ + src@.take(0));
    while i < n
        invariant
            n == src.len(),
            i <= n,
            buffer@ == old(buffer)@ + src@.take(i as int),
        decreases n - i,
    {
        assert(old(buffer)@ + src@.take(i + 1) =~= (old(buffer)@ + src@.take(i as int)).push(
            src@[i as int],
        ));
        buffer.push(src[i]);
        i += 1;
    }
    assert(src@.take(n as int) =~= src@);
}

/// Fragments gathered greedily into chunks of at most `limit` characters.
pub fn pack_fragments(frags: &Vec<Vec<char>>, limit: usize) -> (chunks: Vec<Vec<char>>)
    ensures
        spans(chunks@) == pack(spans(frags@), limit as nat),
{
    let n = frags.len();
    let mut out: Vec<Vec<char>> = Vec::new();
    let mut buffer: Vec<char> = Vec::new();
    let mut i: usize = 0;
    assert(spans(out@) + pack_from(spans(frags@), 0, buffer@, limit as nat) =~= pack(
        spans(frags@),
        limit as nat,
    ));
    while i < n
        invariant
            n == frags.len(),
            i <= n,
            pack(spans(frags@), limit as nat) == spans(out@) + pack_from(
                spans(frags@),
                i as int,
                buffer@,
                limit as nat,
            ),
        decreases n - i,
    {
        let frag = &frags[i];
        assert(spans(frags@)[i as int] == frag@);
        let held = buffer.len();
        let size = frag.len();
        if held == 0 {
            buffer = copy_span(frag, 0, size);
            assert(buffer@ =~= frag@);
        } else if size >= limit || held >= limit - size || limit - size - held < 2 {
            let ghost before = spans(out@);
            proof {
                lemma_spans_push(out@, buffer);
                assert(before.push(buffer@) + pack_from(spans(frags@), i + 1, frag@, limit as nat)
                    =~= before + pack_from(spans(frags@), i as int, buffer@, limit as nat));
            }
            out.push(buffer);
            buffer = copy_span(frag, 0, size);
            assert(buffer@ =~= frag@);
        } else {
            let ghost gathered = buffer@;
            buffer.push(',');
            buffer.push(' ');
            assert(buffer@ =~= gathered + separator());
            extend_chars(&mut buffer, frag);
        }
        i += 1;
    }
    if buffer.len() > 0 {
        proof {
            lemma_spans_push(out@, buffer);
            assert(spans(out@).push(buffer@) =~= spans(out@) + pack_from(
                spans(frags@),
                i as int,
                buffer@,
                limit as nat,
            ));
        }
        out.push(buffer);
    } else {
        assert(spans(out@) =~= spans(out@) + pack_from(
            spans(frags@),
            i as int,
            buffer@,
            limit as nat,
        ));
    }
    out
}

/// The chunks of one sentence unit.
pub fn chunk_unit(unit: &Vec<char>, limit: usize) -> (chunks: Vec<Vec<char>>)
    ensures
        spans(chunks@) == unit_chunks(unit@, limit as nat),
{
    let t = trim_chars(unit);
    if t.len() == 0 {
        let out: Vec<Vec<char>> = Vec::new();
        assert(spans(out@) =~= unit_chunks(unit@, limit as nat));
        out
    } else if t.len() <= limit {
        let mut out: Vec<Vec<char>> = Vec::new();
        proof {
            lemma_spans_push(out@, t);
            assert(spans(out@).push(t@) =~= unit_chunks(unit@, limit as nat));
        }
        out.push(t);
        out
    } else {
        let frags = split_fragments(&t);
        pack_fragments(&frags, limit)
    }
}

/// Skipping whitespace stays within the text.
proof fn lemma_skip_spaces_bounds(s: Seq<char>, i: int)
    requires
        0 <= i <= s.len(),
    ensures
        i <= skip_spaces(s, i) <= s.len(),
    decreases s.len() - i,
{
    if i < s.len() && is_space(s[i]) {
        lemma_skip_spaces_bounds(s, i + 1);
    }
}

/// Skipping whitespace backwards stays within the range.
proof fn lemma_skip_spaces_back_bounds(s: Seq<char>, from: int, upto: int)
    requires
        0 <= from <= upto <= s.len(),
    ensures
        from <= skip_spaces_back(s, from, upto) <= upto,
    decreases upto,
{
    if from < upto && is_space(s[upto - 1]) {
        lemma_skip_spaces_back_bounds(s, from, upto - 1);
    }
}

/// Trimming takes nothing but whitespace away: what is left is a part of
/// the input, so it holds no comma where the input holds none, and it is
/// no longer than the input.
pub proof fn lemma_trim_keeps_comma_free(s: Seq<char>)
    ensures
        trim(s).len() <= s.len(),
        comma_free(s) ==> comma_free(trim(s)),
{
    lemma_skip_spaces_bounds(s, 0);
    lemma_skip_spaces_back_bounds(s, skip_spaces(s, 0), s.len() as int);
}

/// No fragment holds a comma.
proof fn lemma_fragments_comma_free(unit: Seq<char>, start: int, i: int)
    requires
        0 <= start <= i <= unit.len(),
        comma_free(unit.subrange(start, i)),
    ensures
        forall|k: int|
            0 <= k < fragments_from(unit, start, i).len() ==> comma_free(
                #[trigger] fragments_from(unit, start, i)[k],
            ),
    decreases unit.len() - i,
{
    let all = fragments_from(unit, start, i);
    if i >= unit.len() {
        assert(unit.subrange(start, unit.len() as int) == unit.subrange(start, i));
        lemma_trim_keeps_comma_free(unit.subrange(start, i));
        assert forall|k: int| 0 <= k < all.len() implies comma_free(#[trigger] all[k]) by {
            assert(all[k] == trim(unit.subrange(start, i)));
        }
    } else if unit[i] == ',' {
        lemma_trim_keeps_comma_free(unit.subrange(start, i));
        assert(comma_free(unit.subrange(i + 1, i + 1)));
        lemma_fragments_comma_free(unit, i + 1, i + 1);
        let head = piece(unit.subrange(start, i));
        let rest = fragments_from(unit, i + 1, i + 1);
        assert forall|k: int| 0 <= k < all.len() implies comma_free(#[trigger] all[k]) by {
            if k < head.len() {
                assert(all[k] == head[k]);
            } else {
                assert(all[k] == rest[k - head.len()]);
            }
        }
    } else {
        let wider = unit.subrange(start, i + 1);
        assert forall|j: int| 0 <= j < wider.len() implies #[trigger] wider[j] != ',' by {
            if j < i - start {
                assert(unit.subrange(start, i)[j] == wider[j]);
            }
        }
        lemma_fragments_comma_free(unit, start, i + 1);
        assert(all == fragments_from(unit, start, i + 1));
    }
}

/// Packing fragments without commas gives bounded chunks.
proof fn lemma_pack_bounded(frags: Seq<Seq<char>>, i: int, buffer: Seq<char>, limit: nat)
    requires
        0 <= i <= frags.len(),
        forall|k: int| 0 <= k < frags.len() ==> comma_free(#[trigger] frags[k]),
        bounded_chunk(buffer, limit),
    ensures
        all_bounded(pack_from(frags, i, buffer, limit), limit),
    decreases frags.len() - i,
{
    if i >= frags.len() {
    } else if buffer.len() == 0 {
        lemma_pack_bounded(frags, i + 1, frags[i], limit);
    } else if buffer.len() + 2 + frags[i].len() > limit {
        lemma_pack_bounded(frags, i + 1, frags[i], limit);
    } else {
        lemma_pack_bounded(frags, i + 1, buffer + separator() + frags[i], limit);
    }
}

/// The chunks of one unit are bounded.
proof fn lemma_unit_chunks_bounded(unit: Seq<char>, limit: nat)
    ensures
        all_bounded(unit_chunks(unit, limit), limit),
{
    let t = trim(unit);
    if t.len() > limit {
        assert(comma_free(t.subrange(0, 0)));
        lemma_fragments_comma_free(t, 0, 0);
        assert(comma_free(Seq::<char>::empty()));
        lemma_pack_bounded(comma_fragments(t), 0, Seq::empty(), limit);
    }
}

/// The chunks of a list of units are bounded.
proof fn lemma_units_chunks_bounded(units: Seq<Seq<char>>, limit: nat)
    ensures
        all_bounded(units_chunks(units, limit), limit),
    decreases units.len(),
{
    if units.len() > 0 {
        lemma_units_chunks_bounded(units.drop_last(), limit);
        lemma_unit_chunks_bounded(units.last(), limit);
    }
}

/// Every chunk of a text keeps to the target length, unless it holds no
/// comma at which it could have been split further.
pub proof fn lemma_chunk_length_bound(text: Seq<char>, limit: nat)
    ensures
        all_bounded(segment_spec(text, limit), limit),
{
    lemma_units_chunks_bounded(sentence_units(text), limit);
}

/// Whether no chunk of `chunks` is empty.
pub open spec fn none_empty(chunks: Seq<Seq<char>>) -> bool {
    forall|k: int| 0 <= k < chunks.len() ==> (#[trigger] chunks[k]).len() > 0
}

/// No fragment is empty.
proof fn lemma_fragments_none_empty(unit: Seq<char>, start: int, i: int)
    ensures
        none_empty(fragments_from(unit, start, i)),
    decreases unit.len() - i,
{
    let all = fragments_from(unit, start, i);
    if i < 0 || i >= unit.len() {
    } else if unit[i] == ',' {
        lemma_fragments_none_empty(unit, i + 1, i + 1);
        let head = piece(unit.subrange(start, i));
        let rest = fragments_from(unit, i + 1, i + 1);
        assert forall|k: int| 0 <= k < all.len() implies (#[trigger] all[k]).len() > 0 by {
            if k < head.len() {
                assert(all[k] == head[k]);
            } else {
                assert(all[k] == rest[k - head.len()]);
            }
        }
    } else {
        lemma_fragments_none_empty(unit, start, i + 1);
    }
}

/// Packing fragments that are not empty gives chunks that are not empty.
proof fn lemma_pack_none_empty(frags: Seq<Seq<char>>, i: int, buffer: Seq<char>, limit: nat)
    requires
        none_empty(frags),
    ensures
        none_empty(pack_from(frags, i, buffer, limit)),
    decreases frags.len() - i,
{
    if i < 0 || i >= frags.len() {
    } else if buffer.len() == 0 {
        lemma_pack_none_empty(frags, i + 1, frags[i], limit);
    } else if buffer.len() + 2 + frags[i].len() > limit {
        lemma_pack_none_empty(frags, i + 1, frags[i], limit);
    } else {
        lemma_pack_none_empty(frags, i + 1, buffer + separator() + frags[i], limit);
    }
}

/// No chunk of a list of units is empty.
proof fn lemma_units_chunks_none_empty(units: Seq<Seq<char>>, limit: nat)
    ensures
        none_empty(units_chunks(units, limit)),
    decreases units.len(),
{
    if units.len() > 0 {
        lemma_units_chunks_none_empty(units.drop_last(), limit);
        let t = trim(units.last());
        if t.len() > limit {
            lemma_fragments_none_empty(t, 0, 0);
            lemma_pack_none_empty(comma_fragments(t), 0, Seq::empty(), limit);
        }
    }
}

/// No chunk of a text is empty.
pub proof fn lemma_chunks_none_empty(text: Seq<char>, limit: nat)
    ensures
        none_empty(segment_spec(text, limit)),
{
    lemma_units_chunks_none_empty(sentence_units(text), limit);
}

/// Splits `text` into chunks of at most `target_len` characters: one chunk
/// per sentence, and a sentence that is too long is cut at its commas.
pub fn segment(text: &str, target_len: usize) -> (chunks: Vec<String>)
    ensures
        texts(chunks@) == segment_spec(text@, target_len as nat),
        all_bounded(texts(chunks@), target_len as nat),
        none_empty(texts(chunks@)),
{
    let chars = to_chars(text);
    let units = split_units(&chars);
    let mut out: Vec<String> = Vec::new();
    let mut i: usize = 0;
    assert(texts(out@) =~= units_chunks(spans(units@).take(0), target_len as nat));
    while i < units.len()
        invariant
            i <= units.len(),
            texts(out@) == units_chunks(spans(units@).take(i as int), target_len as nat),
        decreases units.len() - i,
    {
        let parts = chunk_unit(&units[i], target_len);
        let ghost before = texts(out@);
        let mut j: usize = 0;
        assert(texts(out@) =~= before + spans(parts@).take(0));
        while j < parts.len()
            invariant
                j <= parts.len(),
                texts(out@) == before + spans(parts@).take(j as int),
            decreases parts.len() - j,
        {
            let part = &parts[j];
            let chunk = from_chars(part, 0, part.len());
            proof {
                assert(chunk@ =~= part@);
                lemma_texts_push(out@, chunk);
                assert(before + spans(parts@).take(j + 1) =~= (before + spans(parts@).take(
                    j as int,
                )).push(part@));
            }
            out.push(chunk);
            j += 1;
        }
        proof {
            assert(spans(parts@).take(parts.len() as int) =~= spans(parts@));
            assert(spans(units@).take(i + 1).drop_last() =~= spans(units@).take(i as int));
            assert(spans(units@).take(i + 1).last() == units@[i as int]@);
        }
        i += 1;
    }
    proof {
        assert(spans(units@).take(units.len() as int) =~= spans(units@));
        lemma_chunk_length_bound(text@, target_len as nat);
        lemma_chunks_none_empty(text@, target_len as nat);
    }
    out
}

/// The whitespace-separated words of `text[start..]`, where `text[start..i]`
/// holds no whitespace.
pub open spec fn words_from(text: Seq<char>, start: int, i: int) -> Seq<Seq<char>>
    decreases text.len() - i,
{
    if i < 0 || i >= text.len() {
        if 0 <= start < text.len() {
            seq![text.subrange(start, text.len() as int)]
        } else {
            Seq::empty()
        }
    } else if is_space(text[i]) {
        if start < i {
            seq![text.subrange(start, i)] + words_from(text, i + 1, i + 1)
        } else {
            words_from(text, i + 1, i + 1)
        }
    } else {
        words_from(text, start, i + 1)
    }
}

/// The maximal runs of `text` that hold no whitespace, in order.
pub open spec fn words(text: Seq<char>) -> Seq<Seq<char>> {
    words_from(text, 0, 0)
}

/// The length of `s` in bytes of UTF-8, as `str::len` gives it.
pub open spec fn byte_len(s: Seq<char>) -> usize {
    encode_utf8(s).len() as usize
}

/// The chunks made of `words[i..]` when `current` holds the words gathered
/// so far, joined by single spaces.
pub open spec fn word_chunks_from(
    words: Seq<Seq<char>>,
    i: int,
    current: Seq<char>,
    chunk_size: usize,
) -> Seq<Seq<char>>
    decreases words.len() - i,
{
    if i < 0 || i >= words.len() {
        if current.len() > 0 {
            seq![current]
        } else {
            Seq::empty()
        }
    } else if current.len() == 0 {
        word_chunks_from(words, i + 1, words[i], chunk_size)
    } else if byte_len(current) + byte_len(words[i]) + 1 > chunk_size {
        seq![current] + word_chunks_from(words, i + 1, words[i], chunk_size)
    } else {
        word_chunks_from(words, i + 1, current + seq![' '] + words[i], chunk_size)
    }
}

/// The words of `text` gathered greedily into chunks: a word is added to
/// the running chunk unless the chunk, a space and the word together would
/// be longer than `chunk_size` bytes.
pub open spec fn word_chunks(text: Seq<char>, chunk_size: usize) -> Seq<Seq<char>> {
    word_chunks_from(words(text), 0, Seq::empty(), chunk_size)
}

/// The whitespace-separated words of `chars`.
pub fn split_words(chars: &Vec<char>) -> (found: Vec<String>)
    ensures
        texts(found@) == words(chars@),
        forall|k: int| 0 <= k < found.len() ==> (#[trigger] found[k])@.len() > 0,
{
    let n = chars.len();
    let mut out: Vec<String> = Vec::new();
    let mut start: usize = 0;
    let mut i: usize = 0;
    assert(texts(out@) + words_from(chars@, 0, 0) =~= words(chars@));
    while i < n
        invariant
            n == chars.len(),
            start <= i <= n,
            words(chars@) == texts(out@) + words_from(chars@, start as int, i as int),
            forall|k: int| 0 <= k < out.len() ==> (#[trigger] out[k])@.len() > 0,
        decreases n - i,
    {
        if is_space_char(chars[i]) {
            if start < i {
                let word = from_chars(chars, start, i);
                proof {
                    lemma_texts_push(out@, word);
                    assert(texts(out@).push(word@) + words_from(chars@, i + 1, i + 1) =~= texts(
                        out@,
                    ) + words_from(chars@, start as int, i as int));
                }
                out.push(word);
            }
            start = i + 1;
        }
        i += 1;
    }
    if start < n {
        let word = from_chars(chars, start, n);
        proof {
            lemma_texts_push(out@, word);
            assert(texts(out@).push(word@) =~= texts(out@) + words_from(
                chars@,
                start as int,
                i as int,
            ));
        }
        out.push(word);
    } else {
        assert(texts(out@) =~= texts(out@) + words_from(chars@, start as int, i as int));
    }
    out
}

/// Chunks `input` around whitespace: words are joined by single spaces and
/// a chunk is closed before the word that would take it past `chunk_size`
/// bytes. A single word longer than that forms a chunk of its own.
pub fn _chunk_string_2(input: &str, chunk_size: usize) -> (chunks: Vec<String>)
    ensures
        texts(chunks@) == word_chunks(input@, chunk_size),
{
    let chars = to_chars(input);
    let found = split_words(&chars);
    let n = found.len();
    let mut out: Vec<String> = Vec::new();
    let mut current = String::new();
    let mut i: usize = 0;
    assert(texts(out@) + word_chunks_from(texts(found@), 0, current@, chunk_size) =~= word_chunks(
        input@,
        chunk_size,
    ));
    while i < n
        invariant
            n == found.len(),
            i <= n,
            texts(found@) == words(input@),
            word_chunks(input@, chunk_size) == texts(out@) + word_chunks_from(
                texts(found@),
                i as int,
                current@,
                chunk_size,
            ),
        decreases n - i,
    {
        let word = &found[i];
        assert(texts(found@)[i as int] == word@);
        let held = current.as_str().len();
        let size = word.as_str().len();
        if current.as_str().is_empty() {
            current = word.clone();
        } else if size >= chunk_size || held >= chunk_size - size || chunk_size - size - held < 1 {
            let ghost before = texts(out@);
            proof {
                lemma_texts_push(out@, current);
                assert(before.push(current@) + word_chunks_from(
                    texts(found@),
                    i + 1,
                    word@,
                    chunk_size,
                ) =~= before + word_chunks_from(texts(found@), i as int, current@, chunk_size));
            }
            out.push(current);
            current = word.clone();
        } else {
            let ghost gathered = current@;
            current.push(' ');
            current.append(word.as_str());
            assert(current@ =~= gathered + seq![' '] + word@);
        }
        i += 1;
    }
    if !current.as_str().is_empty() {
        proof {
            lemma_texts_push(out@, current);
            assert(texts(out@).push(current@) =~= texts(out@) + word_chunks_from(
                texts(found@),
                i as int,
                current@,
                chunk_size,
            ));
        }
        out.push(current);
    } else {
        assert(texts(out@) =~= texts(out@) + word_chunks_from(
            texts(found@),
            i as int,
            current@,
            chunk_size,
        ));
    }
    out
}

/// The chunks that `text_splitter::TextSplitter::chunks` yields for `text`
/// when the splitter measures chunks in characters, trims them, overlaps
/// nothing and was made from the capacity range `desired..limit`.
pub uninterp spec fn splitter_chunks(text: Seq<char>, desired: usize, limit: usize) -> Seq<Seq<char>>;

/// Whether every chunk has fewer than `limit` characters.
pub open spec fn all_below(chunks: Seq<Seq<char>>, limit: usize) -> bool {
    forall|k: int| 0 <= k < chunks.len() ==> (#[trigger] chunks[k]).len() < limit
}

/// Calls `text_splitter::TextSplitter::new` on the range `desired..limit`
/// and collects what `TextSplitter::chunks` yields for `text`. The result
/// is a function of the three arguments alone. Of what it holds only the
/// splitter's documented maximum is claimed: no chunk is larger than the
/// largest size of the range, `limit - 1`. The range is kept non-empty and
/// its upper end above one, outside of which the splitter's arithmetic on
/// its capacity is not defined.
#[verifier::external_body]
fn split_by_capacity(text: &str, desired: usize, limit: usize) -> (chunks: Vec<String>)
    requires
        desired < limit,
        2 <= limit,
    ensures
        texts(chunks@) == splitter_chunks(text@, desired, limit),
        all_below(texts(chunks@), limit),
{
    let splitter: text_splitter::TextSplitter<text_splitter::Characters> =
        text_splitter::TextSplitter::new(desired..limit);
    splitter.chunks(text).map(|chunk| chunk.to_string()).collect()
}

/// Chunks `text` semantically, aiming at chunks of `max_len` characters
/// give or take `tolerance`: a chunk is closed once it holds at least
/// `max_len - tolerance` characters and never reaches `max_len + tolerance`.
pub fn chunk_string_within(text: &str, max_len: usize, tolerance: usize) -> (chunks: Vec<String>)
    requires
        1 <= tolerance <= max_len,
        max_len + tolerance <= usize::MAX,
    ensures
        texts(chunks@) == splitter_chunks(
            text@,
            (max_len - tolerance) as usize,
            (max_len + tolerance) as usize,
        ),
        all_below(texts(chunks@), (max_len + tolerance) as usize),
{
    split_by_capacity(text, max_len - tolerance, max_len + tolerance)
}

/// The tolerance that `chunk_string` allows round its target length.
pub const CHUNK_TOLERANCE: usize = 25;

/// Chunks `text` semantically, aiming at chunks of `max_len` characters
/// give or take twenty-five.
pub fn chunk_string(text: &str, max_len: usize) -> (chunks: Vec<String>)
    requires
        CHUNK_TOLERANCE <= max_len,
        max_len + CHUNK_TOLERANCE <= usize::MAX,
    ensures
        texts(chunks@) == splitter_chunks(
            text@,
            (max_len - CHUNK_TOLERANCE) as usize,
            (max_len + CHUNK_TOLERANCE) as usize,
        ),
        all_below(texts(chunks@), (max_len + CHUNK_TOLERANCE) as usize),
{
    chunk_string_within(text, max_len, CHUNK_TOLERANCE)
}

} // verus!
