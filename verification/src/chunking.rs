//! Sentence-boundary chunking with overlap.
//!
//! Text is split into sentences, sentences are grouped into chunks that stay
//! under a token budget, and each new chunk starts with the last words of the
//! previous one. Tokens are estimated from the whitespace word count at 1.3
//! tokens per word, rounded up.

use vstd::prelude::*;

use crate::text::{
    append_chars, char_is_uppercase, from_chars, is_whitespace, is_upper, join, join_words, split_words, to_chars,
    has_non_ws, is_ws, lead_ws, lemma_lead_ws_props, lemma_trail_ws_props, lemma_trim_props,
    law_words_of_join, lemma_join_well_spaced, lemma_trail_ws, lemma_words_append, lemma_words_blank,
    lemma_words_clean, lemma_words_trim, trail_ws, trim, trim_chars, trim_range, words,
};

verus! {

/// Configuration for text chunking.
#[derive(Debug)]
pub struct ChunkingConfig {
    /// Target minimum tokens per chunk (default: 500).
    pub min_tokens: usize,
    /// Target maximum tokens per chunk (default: 1000).
    pub max_tokens: usize,
    /// Overlap tokens between chunks (default: 100).
    pub overlap_tokens: usize,
}

impl Clone for ChunkingConfig {
    fn clone(&self) -> (r: Self)
        ensures
            r == *self,
    {
        ChunkingConfig {
            min_tokens: self.min_tokens,
            max_tokens: self.max_tokens,
            overlap_tokens: self.overlap_tokens,
        }
    }
}

impl Default for ChunkingConfig {
    fn default() -> (r: Self)
        ensures
            r.min_tokens == 500,
            r.max_tokens == 1000,
            r.overlap_tokens == 100,
    {
        ChunkingConfig { min_tokens: 500, max_tokens: 1000, overlap_tokens: 100 }
    }
}

/// A chunk of text with its estimated token count.
#[derive(Debug, Clone)]
pub struct TextChunk {
    pub text: String,
    pub token_count: usize,
}

/// The mathematical content of a [`TextChunk`].
pub struct ChunkModel {
    pub text: Seq<char>,
    pub token_count: nat,
}

impl View for TextChunk {
    type V = ChunkModel;

    open spec fn view(&self) -> ChunkModel {
        ChunkModel { text: self.text@, token_count: self.token_count as nat }
    }
}

/// The models of a sequence of chunks.
pub open spec fn chunk_models(cs: Seq<TextChunk>) -> Seq<ChunkModel> {
    cs.map_values(|c: TextChunk| c@)
}

// ─── Token estimate ─────────────────────────────────────────────────────────

/// `ceil(1.3 * words)`, saturating at `usize::MAX` as a float-to-integer cast does.
pub open spec fn tokens_for_words(words: nat) -> nat {
    let t = (13 * words + 9) / 10;
    if t > usize::MAX {
        usize::MAX as nat
    } else {
        t as nat
    }
}

/// Estimated tokens of a text: its whitespace word count at 1.3 tokens per word.
pub open spec fn token_estimate(s: Seq<char>) -> nat {
    tokens_for_words(words(s).len())
}

/// `ceil(tokens / 1.3)`: the number of words that carry `tokens` tokens.
pub open spec fn words_for_tokens(tokens: nat) -> nat {
    (10 * tokens + 12) / 13
}

fn tokens_for_word_count(w: usize) -> (t: usize)
    ensures
        t == tokens_for_words(w as nat),
{
    let t: u128 = (13 * (w as u128) + 9) / 10;
    if t > usize::MAX as u128 {
        usize::MAX
    } else {
        t as usize
    }
}

fn estimate_chars(v: &Vec<char>) -> (t: usize)
    ensures
        t == token_estimate(v@),
{
    let ws = split_words(v);
    assert(ws.deep_view().len() == ws.len());
    tokens_for_word_count(ws.len())
}

/// Estimate token count using whitespace word count (1 word ≈ 1.3 tokens).
pub fn estimate_tokens(text: &str) -> (t: usize)
    ensures
        t == token_estimate(text@),
{
    let v = to_chars(text);
    estimate_chars(&v)
}

// ─── Overlap ────────────────────────────────────────────────────────────────

/// The tail of a chunk carried into the next one: the last
/// `ceil(overlap_tokens / 1.3)` words joined by single spaces, or the whole
/// text unchanged when it has no more words than that.
pub open spec fn overlap_of(s: Seq<char>, overlap_tokens: nat) -> Seq<char> {
    let ow = words_for_tokens(overlap_tokens);
    let w = words(s);
    if w.len() <= ow {
        s
    } else {
        join(w.skip(w.len() - ow), seq![' '])
    }
}

fn overlap_chars(v: &Vec<char>, overlap_tokens: usize) -> (r: Vec<char>)
    ensures
        r@ == overlap_of(v@, overlap_tokens as nat),
{
    let ow: u128 = (10 * (overlap_tokens as u128) + 12) / 13;
    let ws = split_words(v);
    assert(ws.deep_view().len() == ws.len());
    if (ws.len() as u128) <= ow {
        let mut r: Vec<char> = Vec::new();
        append_chars(&mut r, v);
        assert(r@ =~= v@);
        r
    } else {
        let start = ws.len() - (ow as usize);
        join_words(&ws, start)
    }
}

/// Get the last N tokens of text for overlap.
pub fn get_overlap_text(text: &str, overlap_tokens: usize) -> (r: String)
    ensures
        r@ == overlap_of(text@, overlap_tokens as nat),
{
    let v = to_chars(text);
    let r = overlap_chars(&v, overlap_tokens);
    from_chars(&r)
}

// ─── Sentences ──────────────────────────────────────────────────────────────

/// Sentence-ending punctuation.
pub open spec fn is_terminator(c: char) -> bool {
    c == '.' || c == '!' || c == '?'
}

/// A sentence ends at position `i`: a terminator that is the last character,
/// or that is followed by whitespace and then an uppercase letter or a
/// newline. The whitespace after the terminator starts the next piece and is
/// trimmed away with it.
pub open spec fn ends_sentence(s: Seq<char>, i: int) -> bool {
    &&& is_terminator(s[i])
    &&& (i + 1 == s.len() || (is_ws(s[i + 1]) && i + 2 < s.len() && (is_upper(s[i + 2]) || s[i
        + 2] == '\n')))
}

/// Appends a trimmed piece when it is not empty.
pub open spec fn push_nonempty(done: Seq<Seq<char>>, piece: Seq<char>) -> Seq<Seq<char>> {
    if piece.len() > 0 {
        done.push(piece)
    } else {
        done
    }
}

/// The sentences completed within the first `n` characters, and where the
/// sentence in progress starts.
pub open spec fn sentence_scan(s: Seq<char>, n: int) -> (Seq<Seq<char>>, int)
    decreases n,
{
    if n <= 0 {
        (Seq::empty(), 0)
    } else {
        let (done, start) = sentence_scan(s, n - 1);
        if ends_sentence(s, n - 1) {
            (push_nonempty(done, trim(s.subrange(start, n))), n)
        } else {
            (done, start)
        }
    }
}

/// The sentences of a text: the pieces between sentence ends, trimmed, with
/// the empty ones left out.
pub open spec fn sentences(s: Seq<char>) -> Seq<Seq<char>> {
    let (done, start) = sentence_scan(s, s.len() as int);
    push_nonempty(done, trim(s.subrange(start, s.len() as int)))
}

pub proof fn lemma_sentence_scan_bounds(s: Seq<char>, n: int)
    requires
        0 <= n <= s.len(),
    ensures
        0 <= sentence_scan(s, n).1 <= n,
    decreases n,
{
    if n > 0 {
        lemma_sentence_scan_bounds(s, n - 1);
    }
}

fn ends_sentence_at(v: &Vec<char>, i: usize) -> (r: bool)
    requires
        i < v.len(),
    ensures
        r == ends_sentence(v@, i as int),
{
    let c = v[i];
    if !(c == '.' || c == '!' || c == '?') {
        return false;
    }
    if i + 1 == v.len() {
        return true;
    }
    if is_whitespace(v[i + 1]) && i + 2 < v.len() {
        let next = v[i + 2];
        char_is_uppercase(next) || next == '\n'
    } else {
        false
    }
}

fn sentences_of(v: &Vec<char>) -> (r: Vec<Vec<char>>)
    ensures
        r.deep_view() == sentences(v@),
{
    let mut done: Vec<Vec<char>> = Vec::new();
    let mut start: usize = 0;
    let mut i: usize = 0;
    while i < v.len()
        invariant
            i <= v.len(),
            start <= i,
            (done.deep_view(), start as int) == sentence_scan(v@, i as int),
        decreases v.len() - i,
    {
        if ends_sentence_at(v, i) {
            let piece = trim_range(v, start, i + 1);
            if piece.len() > 0 {
                let ghost old_dv = done.deep_view();
                let ghost pv = piece@;
                assert(piece.deep_view() =~= piece@);
                done.push(piece);
                assert(done.deep_view() =~= old_dv.push(pv));
            }
            start = i + 1;
        }
        i = i + 1;
    }
    let piece = trim_range(v, start, v.len());
    if piece.len() > 0 {
        let ghost old_dv = done.deep_view();
        let ghost pv = piece@;
        assert(piece.deep_view() =~= piece@);
        done.push(piece);
        assert(done.deep_view() =~= old_dv.push(pv));
    }
    done
}

/// The strings holding the given character sequences.
fn strings_of(vs: &Vec<Vec<char>>) -> (r: Vec<String>)
    ensures
        r.len() == vs.len(),
        forall|k: int| 0 <= k < r.len() ==> (#[trigger] r[k])@ == vs.deep_view()[k],
{
    let mut r: Vec<String> = Vec::new();
    let mut k: usize = 0;
    while k < vs.len()
        invariant
            k <= vs.len(),
            r.len() == k,
            forall|j: int| 0 <= j < k ==> (#[trigger] r[j])@ == vs.deep_view()[j],
        decreases vs.len() - k,
    {
        let s = from_chars(&vs[k]);
        assert(vs[k as int].deep_view() =~= vs[k as int]@);
        r.push(s);
        k = k + 1;
    }
    r
}

/// Split text into sentences: a sentence ends at `.`, `!` or `?` that ends
/// the text or is followed by whitespace and then an uppercase letter or a newline.
/// Each sentence is trimmed, and empty ones are dropped.
pub fn split_into_sentences(text: &str) -> (r: Vec<String>)
    ensures
        r.len() == sentences(text@).len(),
        forall|k: int| 0 <= k < r.len() ==> (#[trigger] r[k])@ == sentences(text@)[k],
{
    let v = to_chars(text);
    let ss = sentences_of(&v);
    strings_of(&ss)
}

// ─── Chunks ─────────────────────────────────────────────────────────────────

/// The chunker's state: chunks emitted so far, the chunk in progress and its
/// token estimate.
pub struct ChunkState {
    pub chunks: Seq<ChunkModel>,
    pub current: Seq<char>,
    pub current_tokens: nat,
}

pub open spec fn initial_chunk_state() -> ChunkState {
    ChunkState { chunks: Seq::empty(), current: Seq::empty(), current_tokens: 0 }
}

/// Adds one sentence: when it would push the chunk in progress over
/// `max_tokens`, that chunk is emitted and the next one starts from its
/// overlap; the sentence is then appended, separated by a space.
pub open spec fn chunk_step(
    st: ChunkState,
    sentence: Seq<char>,
    max_tokens: nat,
    overlap_tokens: nat,
) -> ChunkState {
    let split = st.current_tokens + token_estimate(sentence) > max_tokens && st.current.len() > 0;
    let chunks = if split {
        st.chunks.push(ChunkModel { text: st.current, token_count: st.current_tokens })
    } else {
        st.chunks
    };
    let base = if split {
        overlap_of(st.current, overlap_tokens)
    } else {
        st.current
    };
    let current = if base.len() > 0 {
        base + seq![' '] + sentence
    } else {
        sentence
    };
    ChunkState { chunks, current, current_tokens: token_estimate(current) }
}

/// The chunker's state after the given sentences.
pub open spec fn chunk_fold(ss: Seq<Seq<char>>, max_tokens: nat, overlap_tokens: nat) -> ChunkState
    decreases ss.len(),
{
    if ss.len() == 0 {
        initial_chunk_state()
    } else {
        chunk_step(
            chunk_fold(ss.drop_last(), max_tokens, overlap_tokens),
            ss.last(),
            max_tokens,
            overlap_tokens,
        )
    }
}

/// The chunks of a text: none for blank text; otherwise the chunks emitted
/// while folding its sentences, then the chunk in progress if non-empty.
pub open spec fn chunks_of(text: Seq<char>, max_tokens: nat, overlap_tokens: nat) -> Seq<
    ChunkModel,
> {
    if trim(text).len() == 0 {
        Seq::empty()
    } else {
        let st = chunk_fold(sentences(text), max_tokens, overlap_tokens);
        if st.current.len() > 0 {
            st.chunks.push(ChunkModel { text: st.current, token_count: st.current_tokens })
        } else {
            st.chunks
        }
    }
}

/// Chunk text at sentence boundaries with overlap.
///
/// Sentences are added to the chunk in progress; when the next sentence would
/// take it past `max_tokens`, the chunk is emitted and the next one starts
/// with the last `overlap_tokens` worth of its words.
pub fn chunk_text(text: &str, config: ChunkingConfig) -> (chunks: Vec<TextChunk>)
    ensures
        chunk_models(chunks@) == chunks_of(
            text@,
            config.max_tokens as nat,
            config.overlap_tokens as nat,
        ),
{
    let v = to_chars(text);
    let t = trim_chars(&v);
    if t.len() == 0 {
        let r: Vec<TextChunk> = Vec::new();
        assert(chunk_models(r@) =~= Seq::<ChunkModel>::empty());
        return r;
    }
    let ss = sentences_of(&v);
    let ghost sv = ss.deep_view();
    let ghost max = config.max_tokens as nat;
    let ghost ovl = config.overlap_tokens as nat;
    let mut chunks: Vec<TextChunk> = Vec::new();
    let mut current: Vec<char> = Vec::new();
    let mut current_tokens: usize = 0;
    let mut k: usize = 0;
    assert(chunk_models(chunks@) =~= Seq::<ChunkModel>::empty());
    assert(current@ =~= Seq::<char>::empty());
    assert(sv.take(0) =~= Seq::<Seq<char>>::empty());
    while k < ss.len()
        invariant
            k <= ss.len(),
            sv == ss.deep_view(),
            max == config.max_tokens,
            ovl == config.overlap_tokens,
            chunk_fold(sv.take(k as int), max, ovl) == (ChunkState {
                chunks: chunk_models(chunks@),
                current: current@,
                current_tokens: current_tokens as nat,
            }),
        decreases ss.len() - k,
    {
        let sentence = &ss[k];
        proof {
            assert(sentence.deep_view() =~= sentence@);
            assert(sv.take(k + 1).drop_last() =~= sv.take(k as int));
            assert(sv.take(k + 1).last() == sentence@);
        }
        let ghost st = chunk_fold(sv.take(k as int), max, ovl);
        let ghost next = chunk_step(st, sentence@, max, ovl);
        let sentence_tokens = estimate_chars(sentence);
        if (current_tokens as u128) + (sentence_tokens as u128) > (config.max_tokens as u128)
            && current.len() > 0 {
            let chunk_text = from_chars(&current);
            let ghost old_models = chunk_models(chunks@);
            chunks.push(TextChunk { text: chunk_text, token_count: current_tokens });
            assert(chunk_models(chunks@) =~= old_models.push(
                ChunkModel { text: current@, token_count: current_tokens as nat },
            ));
            current = overlap_chars(&current, config.overlap_tokens);
        }
        if current.len() > 0 {
            current.push(' ');
        }
        append_chars(&mut current, sentence);
        current_tokens = estimate_chars(&current);
        assert(current@ =~= next.current);
        assert(chunk_models(chunks@) =~= next.chunks);
        k = k + 1;
    }
    assert(sv.take(ss.len() as int) == sv);
    if current.len() > 0 {
        let chunk_text = from_chars(&current);
        let ghost old_models = chunk_models(chunks@);
        chunks.push(TextChunk { text: chunk_text, token_count: current_tokens });
        assert(chunk_models(chunks@) =~= old_models.push(
            ChunkModel { text: current@, token_count: current_tokens as nat },
        ));
    }
    chunks
}

// ─── Laws ───────────────────────────────────────────────────────────────────

/// `p` is a prefix of `s`.
pub open spec fn starts_with(s: Seq<char>, p: Seq<char>) -> bool {
    p.len() <= s.len() && s.subrange(0, p.len() as int) == p
}

/// Every sentence is non-empty and begins and ends with a non-whitespace character.
pub open spec fn sentences_clean(ss: Seq<Seq<char>>) -> bool {
    forall|k: int|
        0 <= k < ss.len() ==> (#[trigger] ss[k]).len() > 0 && !is_ws(ss[k][0]) && !is_ws(
            ss[k].last(),
        )
}

proof fn lemma_push_nonempty_clean(done: Seq<Seq<char>>, piece: Seq<char>)
    requires
        sentences_clean(done),
    ensures
        sentences_clean(push_nonempty(done, trim(piece))),
        has_non_ws(piece) ==> push_nonempty(done, trim(piece)).len() > 0,
        push_nonempty(done, trim(piece)).len() >= done.len(),
{
    lemma_trim_props(piece);
    let r = push_nonempty(done, trim(piece));
    assert forall|k: int| 0 <= k < r.len() implies (#[trigger] r[k]).len() > 0 && !is_ws(r[k][0])
        && !is_ws(r[k].last()) by {
        if k < done.len() {
            assert(r[k] == done[k]);
        }
    }
}

proof fn lemma_sentence_scan_clean(s: Seq<char>, n: int)
    requires
        0 <= n <= s.len(),
    ensures
        sentences_clean(sentence_scan(s, n).0),
        0 <= sentence_scan(s, n).1 <= n,
        has_non_ws(s.subrange(0, sentence_scan(s, n).1)) ==> sentence_scan(s, n).0.len() > 0,
    decreases n,
{
    if n > 0 {
        lemma_sentence_scan_clean(s, n - 1);
        let (done, start) = sentence_scan(s, n - 1);
        if ends_sentence(s, n - 1) {
            let piece = s.subrange(start, n);
            lemma_push_nonempty_clean(done, piece);
            if has_non_ws(s.subrange(0, n)) {
                let i = choose|i: int| 0 <= i < n && !is_ws(#[trigger] s.subrange(0, n)[i]);
                if i < start {
                    assert(s.subrange(0, start)[i] == s.subrange(0, n)[i]);
                } else {
                    assert(piece[i - start] == s.subrange(0, n)[i]);
                }
            }
        }
    }
}

/// The sentences of any text are non-empty and trimmed, and a text with a
/// non-whitespace character has at least one sentence.
pub proof fn law_sentences_trimmed(text: Seq<char>)
    ensures
        sentences_clean(sentences(text)),
        has_non_ws(text) ==> sentences(text).len() > 0,
{
    let n = text.len() as int;
    lemma_sentence_scan_clean(text, n);
    let (done, start) = sentence_scan(text, n);
    let piece = text.subrange(start, n);
    lemma_push_nonempty_clean(done, piece);
    if has_non_ws(text) {
        let i = choose|i: int| 0 <= i < n && !is_ws(#[trigger] text[i]);
        if i < start {
            assert(text.subrange(0, start)[i] == text[i]);
        } else {
            assert(piece[i - start] == text[i]);
        }
    }
}

/// What the chunker keeps true of its state: emitted chunks are non-empty,
/// carry their own token estimate and each starts with the overlap of the
/// one before; the chunk in progress carries its estimate and, once a chunk
/// has been emitted, is non-empty and starts with the last chunk's overlap.
pub open spec fn chunk_state_inv(st: ChunkState, overlap_tokens: nat) -> bool {
    &&& forall|k: int|
        0 <= k < st.chunks.len() ==> (#[trigger] st.chunks[k]).text.len() > 0
            && st.chunks[k].token_count == token_estimate(st.chunks[k].text)
    &&& forall|k: int|
        0 <= k < st.chunks.len() - 1 ==> starts_with(
            #[trigger] st.chunks[k + 1].text,
            overlap_of(st.chunks[k].text, overlap_tokens),
        )
    &&& st.current_tokens == token_estimate(st.current)
    &&& st.chunks.len() > 0 ==> st.current.len() > 0 && starts_with(
        st.current,
        overlap_of(st.chunks.last().text, overlap_tokens),
    )
}

proof fn lemma_starts_with_extend(s: Seq<char>, p: Seq<char>, q: Seq<char>)
    requires
        starts_with(s, p),
    ensures
        starts_with(s + q, p),
{
    assert((s + q).subrange(0, p.len() as int) =~= s.subrange(0, p.len() as int));
}

proof fn lemma_starts_with_self(s: Seq<char>)
    ensures
        starts_with(s, s),
{
    assert(s.subrange(0, s.len() as int) =~= s);
}

proof fn lemma_starts_with_empty(s: Seq<char>, p: Seq<char>)
    requires
        p.len() == 0,
    ensures
        starts_with(s, p),
{
    assert(s.subrange(0, 0) =~= p);
}

proof fn lemma_chunk_fold_inv(ss: Seq<Seq<char>>, max_tokens: nat, overlap_tokens: nat)
    requires
        forall|k: int| 0 <= k < ss.len() ==> (#[trigger] ss[k]).len() > 0,
    ensures
        chunk_state_inv(chunk_fold(ss, max_tokens, overlap_tokens), overlap_tokens),
        ss.len() > 0 ==> chunk_fold(ss, max_tokens, overlap_tokens).current.len() > 0,
    decreases ss.len(),
{
    if ss.len() == 0 {
        assert(words(Seq::<char>::empty()) =~= Seq::<Seq<char>>::empty());
    } else {
        let prev = ss.drop_last();
        assert forall|k: int| 0 <= k < prev.len() implies (#[trigger] prev[k]).len() > 0 by {
            assert(prev[k] == ss[k]);
        }
        lemma_chunk_fold_inv(prev, max_tokens, overlap_tokens);
        let st = chunk_fold(prev, max_tokens, overlap_tokens);
        let sentence = ss.last();
        assert(sentence.len() > 0);
        let next = chunk_step(st, sentence, max_tokens, overlap_tokens);
        let split = st.current_tokens + token_estimate(sentence) > max_tokens && st.current.len()
            > 0;
        let base = if split {
            overlap_of(st.current, overlap_tokens)
        } else {
            st.current
        };
        // the chunk in progress starts with its base
        if base.len() > 0 {
            lemma_starts_with_self(base);
            lemma_starts_with_extend(base, base, seq![' ']);
            lemma_starts_with_extend(base + seq![' '], base, sentence);
        } else {
            lemma_starts_with_empty(next.current, base);
        }
        assert(starts_with(next.current, base));
        if split {
            let last = ChunkModel { text: st.current, token_count: st.current_tokens };
            assert(next.chunks.last() == last);
            assert forall|k: int| 0 <= k < next.chunks.len() - 1 implies starts_with(
                #[trigger] next.chunks[k + 1].text,
                overlap_of(next.chunks[k].text, overlap_tokens),
            ) by {
                assert(next.chunks[k] == st.chunks[k]);
                if k + 1 < st.chunks.len() {
                    assert(next.chunks[k + 1] == st.chunks[k + 1]);
                }
            }
            assert forall|k: int| 0 <= k < next.chunks.len() implies (
            #[trigger] next.chunks[k]).text.len() > 0 && next.chunks[k].token_count
                == token_estimate(next.chunks[k].text) by {
                if k < st.chunks.len() {
                    assert(next.chunks[k] == st.chunks[k]);
                }
            }
        } else if st.chunks.len() > 0 {
            // base is the chunk in progress, which already starts with the overlap
            let o = overlap_of(st.chunks.last().text, overlap_tokens);
            assert(starts_with(st.current, o));
            assert(next.current.subrange(0, o.len() as int) =~= st.current.subrange(
                0,
                o.len() as int,
            ));
        }
    }
}

/// Every chunk is non-empty and its `token_count` is the token estimate of
/// its own text.
pub proof fn law_chunks_nonempty_and_counted(text: Seq<char>, max_tokens: nat, overlap_tokens: nat)
    ensures
        forall|k: int|
            0 <= k < chunks_of(text, max_tokens, overlap_tokens).len() ==> (#[trigger] chunks_of(
                text,
                max_tokens,
                overlap_tokens,
            )[k]).text.len() > 0 && chunks_of(text, max_tokens, overlap_tokens)[k].token_count
                == token_estimate(chunks_of(text, max_tokens, overlap_tokens)[k].text),
{
    law_chunk_overlap(text, max_tokens, overlap_tokens);
}

/// Blank text yields no chunks; text with any non-whitespace character
/// yields at least one.
pub proof fn law_chunks_exist_iff_content(text: Seq<char>, max_tokens: nat, overlap_tokens: nat)
    ensures
        chunks_of(text, max_tokens, overlap_tokens).len() > 0 <==> has_non_ws(text),
{
    lemma_trim_props(text);
    law_sentences_trimmed(text);
    if has_non_ws(text) {
        let ss = sentences(text);
        lemma_chunk_fold_inv(ss, max_tokens, overlap_tokens);
    }
}

/// Each chunk after the first begins with the overlap of the chunk before it:
/// the last `ceil(overlap_tokens / 1.3)` words of that chunk.
pub proof fn law_chunk_overlap(text: Seq<char>, max_tokens: nat, overlap_tokens: nat)
    ensures
        forall|k: int|
            0 <= k < chunks_of(text, max_tokens, overlap_tokens).len() - 1 ==> starts_with(
                #[trigger] chunks_of(text, max_tokens, overlap_tokens)[k + 1].text,
                overlap_of(chunks_of(text, max_tokens, overlap_tokens)[k].text, overlap_tokens),
            ),
        forall|k: int|
            0 <= k < chunks_of(text, max_tokens, overlap_tokens).len() ==> (#[trigger] chunks_of(
                text,
                max_tokens,
                overlap_tokens,
            )[k]).text.len() > 0 && chunks_of(text, max_tokens, overlap_tokens)[k].token_count
                == token_estimate(chunks_of(text, max_tokens, overlap_tokens)[k].text),
{
    if trim(text).len() > 0 {
        let ss = sentences(text);
        law_sentences_trimmed(text);
        assert forall|k: int| 0 <= k < ss.len() implies (#[trigger] ss[k]).len() > 0 by {}
        lemma_chunk_fold_inv(ss, max_tokens, overlap_tokens);
        let st = chunk_fold(ss, max_tokens, overlap_tokens);
        let cs = chunks_of(text, max_tokens, overlap_tokens);
        if st.current.len() > 0 {
            assert forall|k: int| 0 <= k < cs.len() - 1 implies starts_with(
                #[trigger] cs[k + 1].text,
                overlap_of(cs[k].text, overlap_tokens),
            ) by {
                assert(cs[k] == st.chunks[k]);
                if k + 1 < st.chunks.len() {
                    assert(cs[k + 1] == st.chunks[k + 1]);
                }
            }
            assert forall|k: int| 0 <= k < cs.len() implies (#[trigger] cs[k]).text.len() > 0
                && cs[k].token_count == token_estimate(cs[k].text) by {
                if k < st.chunks.len() {
                    assert(cs[k] == st.chunks[k]);
                }
            }
        }
    }
}

/// The overlap carried into the next chunk is the last
/// `ceil(overlap_tokens / 1.3)` words of the chunk (all of them when it has
/// no more).
pub proof fn law_overlap_is_last_words(s: Seq<char>, overlap_tokens: nat)
    ensures
        words(overlap_of(s, overlap_tokens)) == if words(s).len() <= words_for_tokens(
            overlap_tokens,
        ) {
            words(s)
        } else {
            words(s).skip(words(s).len() - words_for_tokens(overlap_tokens))
        },
{
    let w = words(s);
    let ow = words_for_tokens(overlap_tokens);
    if w.len() > ow {
        lemma_words_clean(s);
        let tail = w.skip(w.len() - ow);
        assert forall|k: int| 0 <= k < tail.len() implies (#[trigger] tail[k]).len() > 0 && (forall|
            j: int,
        | 0 <= j < tail[k].len() ==> !is_ws(#[trigger] tail[k][j])) by {
            assert(tail[k] == w[k + w.len() - ow]);
        }
        law_words_of_join(tail);
    }
}

/// Every piece ends with a sentence terminator.
pub open spec fn ends_with_terminator(ss: Seq<Seq<char>>) -> bool {
    forall|k: int| 0 <= k < ss.len() ==> is_terminator((#[trigger] ss[k]).last())
}

proof fn lemma_trim_keeps_last(p: Seq<char>)
    requires
        p.len() > 0,
        !is_ws(p.last()),
    ensures
        trim(p).len() > 0,
        trim(p).last() == p.last(),
{
    lemma_trail_ws(p, 0);
    lemma_lead_ws_props(p);
    if lead_ws(p) == p.len() {
        assert(is_ws(p[p.len() - 1]));
    }
}

proof fn lemma_sentence_scan_terminated(s: Seq<char>, n: int)
    requires
        0 <= n <= s.len(),
    ensures
        ends_with_terminator(sentence_scan(s, n).0),
    decreases n,
{
    if n > 0 {
        lemma_sentence_scan_terminated(s, n - 1);
        lemma_sentence_scan_bounds(s, n - 1);
        let (done, start) = sentence_scan(s, n - 1);
        if ends_sentence(s, n - 1) {
            let piece = s.subrange(start, n);
            assert(piece.last() == s[n - 1]);
            lemma_trim_keeps_last(piece);
            let r = push_nonempty(done, trim(piece));
            assert forall|k: int| 0 <= k < r.len() implies is_terminator((#[trigger] r[k]).last()) by {
                if k < done.len() {
                    assert(r[k] == done[k]);
                }
            }
        }
    }
}

/// Sentences end at terminators: every sentence except the last ends with
/// `.`, `!` or `?`.
pub proof fn law_sentences_end_at_terminators(text: Seq<char>)
    ensures
        forall|k: int|
            0 <= k < sentences(text).len() - 1 ==> is_terminator(
                (#[trigger] sentences(text)[k]).last(),
            ),
{
    let n = text.len() as int;
    lemma_sentence_scan_terminated(text, n);
    let (done, start) = sentence_scan(text, n);
    let r = sentences(text);
    assert forall|k: int| 0 <= k < r.len() - 1 implies is_terminator((#[trigger] r[k]).last()) by {
        assert(r[k] == done[k]);
    }
}

/// `s` occurs in `t` as a contiguous run.
pub open spec fn contains_text(t: Seq<char>, s: Seq<char>) -> bool {
    exists|i: int| 0 <= i && i + s.len() <= t.len() && #[trigger] t.subrange(i, i + s.len()) == s
}

proof fn lemma_contains_extend(t: Seq<char>, s: Seq<char>, x: Seq<char>)
    requires
        contains_text(t, s),
    ensures
        contains_text(t + x, s),
{
    let i = choose|i: int| 0 <= i && i + s.len() <= t.len() && #[trigger] t.subrange(i, i + s.len()) == s;
    assert((t + x).subrange(i, i + s.len()) =~= t.subrange(i, i + s.len()));
}

proof fn lemma_contains_suffix(a: Seq<char>, s: Seq<char>)
    ensures
        contains_text(a + s, s),
{
    assert((a + s).subrange(a.len() as int, (a.len() + s.len()) as int) =~= s);
}

/// `x` sits in an emitted chunk or in the chunk in progress.
pub open spec fn kept_in(st: ChunkState, x: Seq<char>) -> bool {
    contains_text(st.current, x) || exists|j: int|
        0 <= j < st.chunks.len() && contains_text(#[trigger] st.chunks[j].text, x)
}

proof fn lemma_step_keeps(
    st: ChunkState,
    sentence: Seq<char>,
    max_tokens: nat,
    overlap_tokens: nat,
    x: Seq<char>,
)
    requires
        kept_in(st, x),
    ensures
        kept_in(chunk_step(st, sentence, max_tokens, overlap_tokens), x),
{
    let next = chunk_step(st, sentence, max_tokens, overlap_tokens);
    let split = st.current_tokens + token_estimate(sentence) > max_tokens && st.current.len() > 0;
    if contains_text(st.current, x) {
        if split {
            let j = st.chunks.len() as int;
            assert(next.chunks[j].text == st.current);
            assert(contains_text(next.chunks[j].text, x));
        } else if st.current.len() > 0 {
            lemma_contains_extend(st.current, x, seq![' ']);
            lemma_contains_extend(st.current + seq![' '], x, sentence);
        } else {
            assert(x.len() == 0);
            assert(next.current.subrange(0, 0) =~= x);
        }
    } else {
        let j = choose|j: int| 0 <= j < st.chunks.len() && contains_text(#[trigger] st.chunks[j].text, x);
        assert(next.chunks[j] == st.chunks[j]);
        assert(contains_text(next.chunks[j].text, x));
    }
}

proof fn lemma_step_keeps_sentence(
    st: ChunkState,
    sentence: Seq<char>,
    max_tokens: nat,
    overlap_tokens: nat,
)
    ensures
        contains_text(chunk_step(st, sentence, max_tokens, overlap_tokens).current, sentence),
{
    let split = st.current_tokens + token_estimate(sentence) > max_tokens && st.current.len() > 0;
    let base = if split {
        overlap_of(st.current, overlap_tokens)
    } else {
        st.current
    };
    if base.len() > 0 {
        lemma_contains_suffix(base + seq![' '], sentence);
    } else {
        lemma_contains_suffix(Seq::<char>::empty(), sentence);
        assert(Seq::<char>::empty() + sentence =~= sentence);
    }
}

proof fn lemma_chunk_fold_keeps(ss: Seq<Seq<char>>, max_tokens: nat, overlap_tokens: nat)
    ensures
        forall|k: int|
            0 <= k < ss.len() ==> kept_in(
                chunk_fold(ss, max_tokens, overlap_tokens),
                #[trigger] ss[k],
            ),
    decreases ss.len(),
{
    if ss.len() > 0 {
        let prev = ss.drop_last();
        lemma_chunk_fold_keeps(prev, max_tokens, overlap_tokens);
        let st = chunk_fold(prev, max_tokens, overlap_tokens);
        let sentence = ss.last();
        let next = chunk_step(st, sentence, max_tokens, overlap_tokens);
        assert(chunk_fold(ss, max_tokens, overlap_tokens) == next);
        lemma_step_keeps_sentence(st, sentence, max_tokens, overlap_tokens);
        assert forall|k: int| 0 <= k < ss.len() implies kept_in(next, #[trigger] ss[k]) by {
            if k == ss.len() - 1 {
                assert(ss[k] == sentence);
            } else {
                assert(ss[k] == prev[k]);
                lemma_step_keeps(st, sentence, max_tokens, overlap_tokens, prev[k]);
            }
        }
    }
}

proof fn lemma_blank_scan(s: Seq<char>, n: int)
    requires
        0 <= n <= s.len(),
        !has_non_ws(s),
    ensures
        sentence_scan(s, n).0.len() == 0,
        0 <= sentence_scan(s, n).1 <= n,
    decreases n,
{
    if n > 0 {
        lemma_blank_scan(s, n - 1);
        let (done, start) = sentence_scan(s, n - 1);
        if ends_sentence(s, n - 1) {
            let piece = s.subrange(start, n);
            lemma_trim_props(piece);
            if has_non_ws(piece) {
                let i = choose|i: int| 0 <= i < piece.len() && !is_ws(#[trigger] piece[i]);
                assert(piece[i] == s[start + i]);
            }
        }
    }
}

/// Blank text has no sentences.
pub proof fn law_blank_text_has_no_sentences(s: Seq<char>)
    requires
        !has_non_ws(s),
    ensures
        sentences(s).len() == 0,
{
    lemma_blank_scan(s, s.len() as int);
    let (done, start) = sentence_scan(s, s.len() as int);
    let piece = s.subrange(start, s.len() as int);
    lemma_trim_props(piece);
    if has_non_ws(piece) {
        let i = choose|i: int| 0 <= i < piece.len() && !is_ws(#[trigger] piece[i]);
        assert(piece[i] == s[start + i]);
    }
}

/// Chunking drops no sentence: every sentence of the text occurs, as a
/// contiguous run, in the text of some chunk.
pub proof fn law_chunks_cover_sentences(text: Seq<char>, max_tokens: nat, overlap_tokens: nat)
    ensures
        forall|k: int|
            0 <= k < sentences(text).len() ==> exists|j: int|
                0 <= j < chunks_of(text, max_tokens, overlap_tokens).len() && contains_text(
                    chunks_of(text, max_tokens, overlap_tokens)[j].text,
                    #[trigger] sentences(text)[k],
                ),
{
    let ss = sentences(text);
    let cs = chunks_of(text, max_tokens, overlap_tokens);
    lemma_trim_props(text);
    law_sentences_trimmed(text);
    if trim(text).len() == 0 {
        law_blank_text_has_no_sentences(text);
    } else {
        lemma_chunk_fold_keeps(ss, max_tokens, overlap_tokens);
        assert forall|k: int| 0 <= k < ss.len() implies (#[trigger] ss[k]).len() > 0 by {}
        lemma_chunk_fold_inv(ss, max_tokens, overlap_tokens);
        let st = chunk_fold(ss, max_tokens, overlap_tokens);
        assert forall|k: int| 0 <= k < ss.len() implies exists|j: int|
            0 <= j < cs.len() && contains_text(cs[j].text, #[trigger] ss[k]) by {
            assert(kept_in(st, ss[k]));
            if contains_text(st.current, ss[k]) {
                let j = st.chunks.len() as int;
                assert(cs[j].text == st.current);
            } else {
                let j = choose|j: int|
                    0 <= j < st.chunks.len() && contains_text(#[trigger] st.chunks[j].text, ss[k]);
                assert(cs[j] == st.chunks[j]);
            }
        }
    }
}

/// The non-whitespace characters of a text, in order.
pub open spec fn non_ws(s: Seq<char>) -> Seq<char>
    decreases s.len(),
{
    if s.len() == 0 {
        Seq::empty()
    } else if is_ws(s.last()) {
        non_ws(s.drop_last())
    } else {
        non_ws(s.drop_last()).push(s.last())
    }
}

/// The non-whitespace characters of several texts, one after the other.
pub open spec fn non_ws_all(ss: Seq<Seq<char>>) -> Seq<char>
    decreases ss.len(),
{
    if ss.len() == 0 {
        Seq::empty()
    } else {
        non_ws_all(ss.drop_last()) + non_ws(ss.last())
    }
}

proof fn lemma_non_ws_add(a: Seq<char>, b: Seq<char>)
    ensures
        non_ws(a + b) == non_ws(a) + non_ws(b),
    decreases b.len(),
{
    if b.len() == 0 {
        assert(a + b =~= a);
        assert(non_ws(a) + non_ws(b) =~= non_ws(a));
    } else {
        assert((a + b).drop_last() =~= a + b.drop_last());
        lemma_non_ws_add(a, b.drop_last());
        if is_ws(b.last()) {
        } else {
            assert(non_ws(a + b) =~= non_ws(a) + non_ws(b));
        }
    }
}

proof fn lemma_non_ws_blank(s: Seq<char>)
    requires
        forall|i: int| 0 <= i < s.len() ==> is_ws(#[trigger] s[i]),
    ensures
        non_ws(s) == Seq::<char>::empty(),
    decreases s.len(),
{
    if s.len() > 0 {
        let t = s.drop_last();
        assert forall|i: int| 0 <= i < t.len() implies is_ws(#[trigger] t[i]) by {
            assert(t[i] == s[i]);
        }
        lemma_non_ws_blank(t);
    }
}

proof fn lemma_non_ws_trim(p: Seq<char>)
    ensures
        non_ws(trim(p)) == non_ws(p),
{
    lemma_lead_ws_props(p);
    lemma_trail_ws_props(p);
    let a = lead_ws(p) as int;
    let b = p.len() - trail_ws(p);
    if a == p.len() {
        lemma_non_ws_blank(p);
        lemma_non_ws_blank(trim(p));
    } else {
        assert(a < b) by {
            if b <= a {
                assert(is_ws(p[a]));
            }
        }
        let head = p.subrange(0, a);
        let mid = p.subrange(a, b);
        let tail = p.subrange(b, p.len() as int);
        assert(p =~= head + mid + tail);
        assert forall|i: int| 0 <= i < head.len() implies is_ws(#[trigger] head[i]) by {
            assert(head[i] == p[i]);
        }
        assert forall|i: int| 0 <= i < tail.len() implies is_ws(#[trigger] tail[i]) by {
            assert(tail[i] == p[b + i]);
        }
        lemma_non_ws_blank(head);
        lemma_non_ws_blank(tail);
        lemma_non_ws_add(head + mid, tail);
        lemma_non_ws_add(head, mid);
        assert(non_ws(p) =~= non_ws(mid));
    }
}

proof fn lemma_non_ws_all_push(done: Seq<Seq<char>>, piece: Seq<char>)
    ensures
        non_ws_all(push_nonempty(done, trim(piece))) == non_ws_all(done) + non_ws(piece),
{
    lemma_non_ws_trim(piece);
    let t = trim(piece);
    if t.len() > 0 {
        assert(done.push(t).drop_last() =~= done);
    } else {
        assert(non_ws(t) =~= Seq::<char>::empty());
        assert(non_ws_all(done) + non_ws(piece) =~= non_ws_all(done));
    }
}

proof fn lemma_sentence_scan_keeps_text(s: Seq<char>, n: int)
    requires
        0 <= n <= s.len(),
    ensures
        non_ws(s.subrange(0, sentence_scan(s, n).1)) == non_ws_all(sentence_scan(s, n).0),
    decreases n,
{
    if n == 0 {
        assert(s.subrange(0, 0) =~= Seq::<char>::empty());
    } else {
        lemma_sentence_scan_keeps_text(s, n - 1);
        lemma_sentence_scan_bounds(s, n - 1);
        let (done, start) = sentence_scan(s, n - 1);
        if ends_sentence(s, n - 1) {
            let piece = s.subrange(start, n);
            lemma_non_ws_all_push(done, piece);
            assert(s.subrange(0, n) =~= s.subrange(0, start) + piece);
            lemma_non_ws_add(s.subrange(0, start), piece);
        }
    }
}

/// Splitting into sentences loses no text: the non-whitespace characters of
/// the sentences, taken in order, are exactly those of the text.
pub proof fn law_sentences_keep_text(text: Seq<char>)
    ensures
        non_ws_all(sentences(text)) == non_ws(text),
{
    let n = text.len() as int;
    lemma_sentence_scan_keeps_text(text, n);
    lemma_sentence_scan_bounds(text, n);
    let (done, start) = sentence_scan(text, n);
    let piece = text.subrange(start, n);
    lemma_non_ws_all_push(done, piece);
    assert(text =~= text.subrange(0, start) + piece);
    lemma_non_ws_add(text.subrange(0, start), piece);
}

/// Non-empty, and neither begins nor ends with whitespace.
pub open spec fn clean_ends(s: Seq<char>) -> bool {
    s.len() > 0 && !is_ws(s[0]) && !is_ws(s.last())
}

proof fn lemma_clean_ends_trimmed(s: Seq<char>)
    requires
        clean_ends(s),
    ensures
        trim(s) == s,
{
    assert(lead_ws(s) == 0);
    assert(trail_ws(s) == 0);
    assert(s.subrange(0, s.len() as int) =~= s);
}

proof fn lemma_overlap_clean(s: Seq<char>, overlap_tokens: nat)
    requires
        clean_ends(s),
    ensures
        overlap_of(s, overlap_tokens).len() > 0 ==> clean_ends(overlap_of(s, overlap_tokens)),
{
    let w = words(s);
    let ow = words_for_tokens(overlap_tokens);
    if w.len() > ow {
        lemma_words_clean(s);
        let tail = w.skip(w.len() - ow);
        assert forall|k: int| 0 <= k < tail.len() implies (#[trigger] tail[k]).len() > 0 && (forall|
            j: int,
        | 0 <= j < tail[k].len() ==> !is_ws(#[trigger] tail[k][j])) by {
            assert(tail[k] == w[k + w.len() - ow]);
        }
        lemma_join_well_spaced(tail);
        if tail.len() == 0 {
            assert(join(tail, seq![' ']) =~= Seq::<char>::empty());
        }
    }
}

proof fn lemma_chunk_fold_clean(ss: Seq<Seq<char>>, max_tokens: nat, overlap_tokens: nat)
    requires
        sentences_clean(ss),
    ensures
        forall|k: int|
            0 <= k < chunk_fold(ss, max_tokens, overlap_tokens).chunks.len() ==> clean_ends(
                #[trigger] chunk_fold(ss, max_tokens, overlap_tokens).chunks[k].text,
            ),
        chunk_fold(ss, max_tokens, overlap_tokens).current.len() > 0 ==> clean_ends(
            chunk_fold(ss, max_tokens, overlap_tokens).current,
        ),
    decreases ss.len(),
{
    if ss.len() > 0 {
        let prev = ss.drop_last();
        assert forall|k: int| 0 <= k < prev.len() implies (#[trigger] prev[k]).len() > 0 && !is_ws(
            prev[k][0],
        ) && !is_ws(prev[k].last()) by {
            assert(prev[k] == ss[k]);
        }
        lemma_chunk_fold_clean(prev, max_tokens, overlap_tokens);
        let st = chunk_fold(prev, max_tokens, overlap_tokens);
        let sentence = ss.last();
        assert(clean_ends(sentence)) by {
            assert(sentence == ss[ss.len() - 1]);
        }
        let next = chunk_step(st, sentence, max_tokens, overlap_tokens);
        let split = st.current_tokens + token_estimate(sentence) > max_tokens && st.current.len()
            > 0;
        let base = if split {
            overlap_of(st.current, overlap_tokens)
        } else {
            st.current
        };
        if split {
            lemma_overlap_clean(st.current, overlap_tokens);
        }
        if base.len() > 0 {
            assert(next.current[0] == base[0]);
            assert(next.current.last() == sentence.last());
        }
        assert forall|k: int| 0 <= k < next.chunks.len() implies clean_ends(
            #[trigger] next.chunks[k].text,
        ) by {
            if k < st.chunks.len() {
                assert(next.chunks[k] == st.chunks[k]);
            }
        }
    }
}

/// Every chunk is trimmed: its text is non-empty and neither begins nor
/// ends with whitespace.
pub proof fn law_chunks_trimmed(text: Seq<char>, max_tokens: nat, overlap_tokens: nat)
    ensures
        forall|k: int|
            0 <= k < chunks_of(text, max_tokens, overlap_tokens).len() ==> clean_ends(
                #[trigger] chunks_of(text, max_tokens, overlap_tokens)[k].text,
            ) && trim(chunks_of(text, max_tokens, overlap_tokens)[k].text) == chunks_of(
                text,
                max_tokens,
                overlap_tokens,
            )[k].text,
{
    let cs = chunks_of(text, max_tokens, overlap_tokens);
    if trim(text).len() > 0 {
        let ss = sentences(text);
        law_sentences_trimmed(text);
        lemma_chunk_fold_clean(ss, max_tokens, overlap_tokens);
        let st = chunk_fold(ss, max_tokens, overlap_tokens);
        assert forall|k: int| 0 <= k < cs.len() implies clean_ends(#[trigger] cs[k].text) && trim(
            cs[k].text,
        ) == cs[k].text by {
            if k < st.chunks.len() {
                assert(cs[k] == st.chunks[k]);
            }
            lemma_clean_ends_trimmed(cs[k].text);
        }
    }
}

/// How a chunk opened by a sentence begins: the carried overlap, a space and
/// the sentence, or the sentence alone when nothing is carried.
pub open spec fn opened_with(overlap: Seq<char>, sentence: Seq<char>) -> Seq<char> {
    if overlap.len() > 0 {
        overlap + seq![' '] + sentence
    } else {
        sentence
    }
}

/// The text that follows emitted chunk `k`: the next chunk, or the chunk in
/// progress after the last one.
pub open spec fn text_after(st: ChunkState, k: int) -> Seq<char> {
    if k + 1 < st.chunks.len() {
        st.chunks[k + 1].text
    } else {
        st.current
    }
}

/// Chunk `k` was closed by `sentence`: adding it would have exceeded
/// `max_tokens`, and the text after the chunk opens with the overlap and
/// that sentence.
pub open spec fn closed_by(
    st: ChunkState,
    k: int,
    sentence: Seq<char>,
    max_tokens: nat,
    overlap_tokens: nat,
) -> bool {
    &&& st.chunks[k].token_count + token_estimate(sentence) > max_tokens
    &&& starts_with(
        text_after(st, k),
        opened_with(overlap_of(st.chunks[k].text, overlap_tokens), sentence),
    )
}

/// Chunk `k` was closed by one of the sentences `ss`.
pub open spec fn closed_by_some(
    st: ChunkState,
    ss: Seq<Seq<char>>,
    k: int,
    max_tokens: nat,
    overlap_tokens: nat,
) -> bool {
    exists|i: int| 0 <= i < ss.len() && #[trigger] closed_by(st, k, ss[i], max_tokens, overlap_tokens)
}

proof fn lemma_chunk_fold_closed(ss: Seq<Seq<char>>, max_tokens: nat, overlap_tokens: nat)
    requires
        forall|k: int| 0 <= k < ss.len() ==> (#[trigger] ss[k]).len() > 0,
    ensures
        forall|k: int|
            0 <= k < chunk_fold(ss, max_tokens, overlap_tokens).chunks.len() ==> #[trigger] closed_by_some(
                chunk_fold(ss, max_tokens, overlap_tokens),
                ss,
                k,
                max_tokens,
                overlap_tokens,
            ),
    decreases ss.len(),
{
    if ss.len() > 0 {
        let prev = ss.drop_last();
        assert forall|k: int| 0 <= k < prev.len() implies (#[trigger] prev[k]).len() > 0 by {
            assert(prev[k] == ss[k]);
        }
        lemma_chunk_fold_closed(prev, max_tokens, overlap_tokens);
        lemma_chunk_fold_inv(prev, max_tokens, overlap_tokens);
        let st = chunk_fold(prev, max_tokens, overlap_tokens);
        let sentence = ss.last();
        let next = chunk_step(st, sentence, max_tokens, overlap_tokens);
        assert(next == chunk_fold(ss, max_tokens, overlap_tokens));
        let split = st.current_tokens + token_estimate(sentence) > max_tokens && st.current.len()
            > 0;
        let n = st.chunks.len() as int;
        assert forall|k: int| 0 <= k < next.chunks.len() implies #[trigger] closed_by_some(
            next,
            ss,
            k,
            max_tokens,
            overlap_tokens,
        ) by {
            if k < n {
                assert(closed_by_some(st, prev, k, max_tokens, overlap_tokens));
                let i = choose|i: int|
                    0 <= i < prev.len() && #[trigger] closed_by(
                        st,
                        k,
                        prev[i],
                        max_tokens,
                        overlap_tokens,
                    );
                assert(ss[i] == prev[i]);
                assert(next.chunks[k] == st.chunks[k]);
                let p = opened_with(overlap_of(st.chunks[k].text, overlap_tokens), prev[i]);
                if k + 1 < n {
                    assert(next.chunks[k + 1] == st.chunks[k + 1]);
                    assert(text_after(next, k) == text_after(st, k));
                } else if split {
                    assert(next.chunks[k + 1].text == st.current);
                    assert(text_after(next, k) == text_after(st, k));
                } else {
                    assert(text_after(st, k) == st.current);
                    assert(st.current.len() > 0);
                    lemma_starts_with_extend(st.current, p, seq![' ']);
                    lemma_starts_with_extend(st.current + seq![' '], p, sentence);
                    assert(text_after(next, k) == st.current + seq![' '] + sentence);
                }
                assert(closed_by(next, k, ss[i], max_tokens, overlap_tokens));
            } else {
                assert(split);
                assert(k == n);
                assert(next.chunks[k].text == st.current);
                assert(next.chunks[k].token_count == st.current_tokens);
                assert(text_after(next, k) == next.current);
                assert(next.current == opened_with(overlap_of(st.current, overlap_tokens), sentence));
                lemma_starts_with_self(next.current);
                assert(ss[ss.len() - 1] == sentence);
                assert(closed_by(next, k, ss[ss.len() - 1], max_tokens, overlap_tokens));
            }
        }
    }
}

/// Chunk `k` of `cs` was closed for a sentence of `ss` that would have taken
/// it past `max_tokens`: the sentence's estimate added to the chunk's token
/// count exceeds `max_tokens`, and chunk `k + 1` begins with the chunk's
/// overlap followed by that sentence.
pub open spec fn closed_for_sentence(
    cs: Seq<ChunkModel>,
    ss: Seq<Seq<char>>,
    k: int,
    max_tokens: nat,
    overlap_tokens: nat,
) -> bool {
    exists|i: int|
        0 <= i < ss.len() && cs[k].token_count + token_estimate(#[trigger] ss[i]) > max_tokens
            && starts_with(cs[k + 1].text, opened_with(overlap_of(cs[k].text, overlap_tokens), ss[i]))
}

/// A chunk is closed only when the next sentence would take it past
/// `max_tokens`: every chunk but the last was closed for a sentence of the
/// text whose estimate, added to the chunk's token count, exceeds
/// `max_tokens`, and the next chunk begins with the chunk's overlap followed
/// by that sentence.
pub proof fn law_chunk_closed_only_when_full(text: Seq<char>, max_tokens: nat, overlap_tokens: nat)
    ensures
        forall|k: int|
            0 <= k < chunks_of(text, max_tokens, overlap_tokens).len() - 1 ==> #[trigger] closed_for_sentence(
                chunks_of(text, max_tokens, overlap_tokens),
                sentences(text),
                k,
                max_tokens,
                overlap_tokens,
            ),
{
    let cs = chunks_of(text, max_tokens, overlap_tokens);
    if trim(text).len() > 0 {
        let ss = sentences(text);
        lemma_trim_props(text);
        law_sentences_trimmed(text);
        assert forall|k: int| 0 <= k < ss.len() implies (#[trigger] ss[k]).len() > 0 by {}
        lemma_chunk_fold_closed(ss, max_tokens, overlap_tokens);
        lemma_chunk_fold_inv(ss, max_tokens, overlap_tokens);
        let st = chunk_fold(ss, max_tokens, overlap_tokens);
        assert forall|k: int| 0 <= k < cs.len() - 1 implies #[trigger] closed_for_sentence(
            cs,
            ss,
            k,
            max_tokens,
            overlap_tokens,
        ) by {
            assert(st.current.len() > 0);
            assert(closed_by_some(st, ss, k, max_tokens, overlap_tokens));
            let i = choose|i: int|
                0 <= i < ss.len() && #[trigger] closed_by(st, k, ss[i], max_tokens, overlap_tokens);
            assert(cs[k] == st.chunks[k]);
            assert(cs[k + 1].text == text_after(st, k));
            assert(cs[k].token_count + token_estimate(ss[i]) > max_tokens && starts_with(
                cs[k + 1].text,
                opened_with(overlap_of(cs[k].text, overlap_tokens), ss[i]),
            ));
        }
    }
}

/// The words of several texts, one after the other.
pub open spec fn words_all(ss: Seq<Seq<char>>) -> Seq<Seq<char>>
    decreases ss.len(),
{
    if ss.len() == 0 {
        Seq::empty()
    } else {
        words_all(ss.drop_last()) + words(ss.last())
    }
}

proof fn lemma_words_all_push(done: Seq<Seq<char>>, piece: Seq<char>)
    ensures
        words_all(push_nonempty(done, trim(piece))) == words_all(done) + words(piece),
{
    lemma_words_trim(piece);
    let t = trim(piece);
    if t.len() > 0 {
        assert(done.push(t).drop_last() =~= done);
    } else {
        lemma_words_blank(t);
        assert(words_all(done) + words(piece) =~= words_all(done));
    }
}

proof fn lemma_sentence_scan_keeps_words(s: Seq<char>, n: int)
    requires
        0 <= n <= s.len(),
    ensures
        words(s.subrange(0, sentence_scan(s, n).1)) == words_all(sentence_scan(s, n).0),
        sentence_scan(s, n).1 == 0 || sentence_scan(s, n).1 == s.len() || is_ws(
            s[sentence_scan(s, n).1],
        ),
    decreases n,
{
    if n == 0 {
        assert(s.subrange(0, 0) =~= Seq::<char>::empty());
        lemma_words_blank(Seq::<char>::empty());
    } else {
        lemma_sentence_scan_keeps_words(s, n - 1);
        lemma_sentence_scan_bounds(s, n - 1);
        let (done, start) = sentence_scan(s, n - 1);
        if ends_sentence(s, n - 1) {
            let piece = s.subrange(start, n);
            lemma_words_all_push(done, piece);
            assert(s.subrange(0, n) =~= s.subrange(0, start) + piece);
            if start > 0 && start < n {
                assert(piece[0] == s[start]);
            }
            lemma_words_append(s.subrange(0, start), piece);
        }
    }
}

/// Splitting into sentences keeps every word: the words of the sentences,
/// taken in order, are exactly the words of the text.
pub proof fn law_sentences_keep_words(text: Seq<char>)
    ensures
        words_all(sentences(text)) == words(text),
{
    let n = text.len() as int;
    lemma_sentence_scan_keeps_words(text, n);
    lemma_sentence_scan_bounds(text, n);
    let (done, start) = sentence_scan(text, n);
    let piece = text.subrange(start, n);
    lemma_words_all_push(done, piece);
    assert(text =~= text.subrange(0, start) + piece);
    if start > 0 && start < n {
        assert(piece[0] == text[start]);
    }
    lemma_words_append(text.subrange(0, start), piece);
}

/// The texts of a sequence of chunks.
pub open spec fn chunk_texts(cs: Seq<ChunkModel>) -> Seq<Seq<char>> {
    cs.map_values(|c: ChunkModel| c.text)
}

/// Number of words chunk `k` carries over from chunk `k - 1`: the words of
/// that chunk's overlap (none for the first chunk).
pub open spec fn carried_words(texts: Seq<Seq<char>>, k: int, overlap_tokens: nat) -> nat {
    if k == 0 {
        0
    } else {
        words(overlap_of(texts[k - 1], overlap_tokens)).len()
    }
}

/// The words the texts add one after another: all words of the first, and
/// of each later one its words after those it carries over.
pub open spec fn fresh_words(texts: Seq<Seq<char>>, overlap_tokens: nat) -> Seq<Seq<char>>
    decreases texts.len(),
{
    if texts.len() == 0 {
        Seq::empty()
    } else {
        fresh_words(texts.drop_last(), overlap_tokens) + words(texts.last()).skip(
            carried_words(texts, texts.len() - 1, overlap_tokens) as int,
        )
    }
}

/// Each text after the first begins, word for word, with the overlap of the
/// text before it.
pub open spec fn carries_overlap(texts: Seq<Seq<char>>, overlap_tokens: nat) -> bool {
    forall|k: int|
        0 < k < texts.len() ==> words(overlap_of(texts[k - 1], overlap_tokens)).is_prefix_of(
            words(#[trigger] texts[k]),
        )
}

/// All texts of a chunker state: the emitted chunks, then the chunk in progress.
pub open spec fn state_texts(st: ChunkState) -> Seq<Seq<char>> {
    chunk_texts(st.chunks).push(st.current)
}

proof fn lemma_fresh_words_replace_last(texts: Seq<Seq<char>>, t: Seq<char>, extra: Seq<Seq<char>>, overlap_tokens: nat)
    requires
        texts.len() > 0,
        words(t) == words(texts.last()) + extra,
        carried_words(texts, texts.len() - 1, overlap_tokens) <= words(texts.last()).len(),
    ensures
        fresh_words(texts.drop_last().push(t), overlap_tokens) == fresh_words(texts, overlap_tokens) + extra,
{
    let n = texts.len() as int;
    let u = texts.drop_last().push(t);
    assert(u.drop_last() =~= texts.drop_last());
    assert(u.last() == t);
    if n > 1 {
        assert(u[n - 2] == texts[n - 2]);
    }
    assert(carried_words(u, n - 1, overlap_tokens) == carried_words(texts, n - 1, overlap_tokens));
    let o = carried_words(texts, n - 1, overlap_tokens) as int;
    assert((words(texts.last()) + extra).skip(o) =~= words(texts.last()).skip(o) + extra);
}

proof fn lemma_words_space_join(a: Seq<char>, b: Seq<char>)
    ensures
        words(a + seq![' '] + b) == words(a) + words(b),
{
    let sp = seq![' '];
    lemma_words_append(a, sp);
    lemma_words_append(a + sp, b);
    assert(!has_non_ws(sp)) by {
        if has_non_ws(sp) {
            let i = choose|i: int| 0 <= i < 1 && !is_ws(#[trigger] sp[i]);
            assert(sp[i] == ' ');
        }
    }
    lemma_words_blank(sp);
    assert(words(a) + words(sp) =~= words(a));
}

/// A step that emits the chunk in progress: the new chunk adds the words
/// of the sentence after those it carries over.
proof fn lemma_step_words_split(st: ChunkState, sentence: Seq<char>, max_tokens: nat, overlap_tokens: nat)
    requires
        st.current.len() > 0,
        st.current_tokens + token_estimate(sentence) > max_tokens,
        carries_overlap(state_texts(st), overlap_tokens),
    ensures
        fresh_words(state_texts(chunk_step(st, sentence, max_tokens, overlap_tokens)), overlap_tokens)
            == fresh_words(state_texts(st), overlap_tokens) + words(sentence),
        carries_overlap(state_texts(chunk_step(st, sentence, max_tokens, overlap_tokens)), overlap_tokens),
{
    let next = chunk_step(st, sentence, max_tokens, overlap_tokens);
    let all = state_texts(st);
    let n = all.len() as int;
    assert(all.last() == st.current);
    let ov = overlap_of(st.current, overlap_tokens);
    let m = ChunkModel { text: st.current, token_count: st.current_tokens };
    assert(chunk_texts(st.chunks.push(m)) =~= chunk_texts(st.chunks).push(st.current));
    let all2 = state_texts(next);
    assert(all2 =~= all.push(next.current));
    assert(all2.drop_last() =~= all);
    if ov.len() > 0 {
        lemma_words_space_join(ov, sentence);
    } else {
        lemma_words_blank(ov);
        assert(Seq::<Seq<char>>::empty() + words(sentence) =~= words(sentence));
    }
    assert(words(next.current) == words(ov) + words(sentence));
    assert(all2[n - 1] == st.current);
    assert(carried_words(all2, n, overlap_tokens) == words(ov).len());
    assert((words(ov) + words(sentence)).skip(words(ov).len() as int) =~= words(sentence));
    assert(words(ov).is_prefix_of(words(next.current))) by {
        assert((words(ov) + words(sentence)).subrange(0, words(ov).len() as int) =~= words(ov));
    }
    assert forall|k: int| 0 < k < all2.len() implies words(
        overlap_of(all2[k - 1], overlap_tokens),
    ).is_prefix_of(words(#[trigger] all2[k])) by {
        if k < n {
            assert(all2[k] == all[k]);
            assert(all2[k - 1] == all[k - 1]);
        }
    }
}

/// A step that extends the non-empty chunk in progress with a sentence.
proof fn lemma_step_words_extend(st: ChunkState, sentence: Seq<char>, max_tokens: nat, overlap_tokens: nat)
    requires
        st.current.len() > 0,
        st.current_tokens + token_estimate(sentence) <= max_tokens,
        carries_overlap(state_texts(st), overlap_tokens),
    ensures
        fresh_words(state_texts(chunk_step(st, sentence, max_tokens, overlap_tokens)), overlap_tokens)
            == fresh_words(state_texts(st), overlap_tokens) + words(sentence),
        carries_overlap(state_texts(chunk_step(st, sentence, max_tokens, overlap_tokens)), overlap_tokens),
{
    let next = chunk_step(st, sentence, max_tokens, overlap_tokens);
    let all = state_texts(st);
    let n = all.len() as int;
    assert(all.last() == st.current);
    lemma_words_space_join(st.current, sentence);
    assert(words(next.current) == words(st.current) + words(sentence));
    let all2 = state_texts(next);
    assert(all2 =~= all.drop_last().push(next.current));
    if n > 1 {
        assert(words(overlap_of(all[n - 2], overlap_tokens)).is_prefix_of(words(all[n - 1])));
    }
    lemma_fresh_words_replace_last(all, next.current, words(sentence), overlap_tokens);
    assert forall|k: int| 0 < k < all2.len() implies words(
        overlap_of(all2[k - 1], overlap_tokens),
    ).is_prefix_of(words(#[trigger] all2[k])) by {
        assert(all2[k - 1] == all[k - 1]);
        if k < n - 1 {
            assert(all2[k] == all[k]);
        } else {
            let p = words(overlap_of(all[k - 1], overlap_tokens));
            assert(p.is_prefix_of(words(all[k])));
            assert((words(st.current) + words(sentence)).subrange(0, p.len() as int)
                =~= words(st.current).subrange(0, p.len() as int));
        }
    }
}

proof fn lemma_chunk_fold_words(ss: Seq<Seq<char>>, max_tokens: nat, overlap_tokens: nat)
    requires
        forall|k: int| 0 <= k < ss.len() ==> (#[trigger] ss[k]).len() > 0,
    ensures
        fresh_words(state_texts(chunk_fold(ss, max_tokens, overlap_tokens)), overlap_tokens)
            == words_all(ss),
        carries_overlap(state_texts(chunk_fold(ss, max_tokens, overlap_tokens)), overlap_tokens),
    decreases ss.len(),
{
    let st0 = chunk_fold(ss, max_tokens, overlap_tokens);
    if ss.len() == 0 {
        let all = state_texts(st0);
        assert(all =~= seq![Seq::<char>::empty()]);
        assert(all.drop_last() =~= Seq::<Seq<char>>::empty());
        lemma_words_blank(Seq::<char>::empty());
        assert(fresh_words(Seq::<Seq<char>>::empty(), overlap_tokens) == Seq::<Seq<char>>::empty());
        assert(all.last() == Seq::<char>::empty());
        assert(words(all.last()).skip(0) =~= Seq::<Seq<char>>::empty());
        assert(fresh_words(all, overlap_tokens) =~= Seq::<Seq<char>>::empty());
    } else {
        let prev = ss.drop_last();
        assert forall|k: int| 0 <= k < prev.len() implies (#[trigger] prev[k]).len() > 0 by {
            assert(prev[k] == ss[k]);
        }
        lemma_chunk_fold_words(prev, max_tokens, overlap_tokens);
        lemma_chunk_fold_inv(prev, max_tokens, overlap_tokens);
        let st = chunk_fold(prev, max_tokens, overlap_tokens);
        let sentence = ss.last();
        assert(chunk_step(st, sentence, max_tokens, overlap_tokens) == st0);
        if st.current.len() > 0 {
            if st.current_tokens + token_estimate(sentence) > max_tokens {
                lemma_step_words_split(st, sentence, max_tokens, overlap_tokens);
            } else {
                lemma_step_words_extend(st, sentence, max_tokens, overlap_tokens);
            }
        } else {
            assert(st.chunks.len() == 0);
            assert(st0.current == sentence);
            let all = state_texts(st);
            let all2 = state_texts(st0);
            assert(all =~= seq![Seq::<char>::empty()]);
            assert(all2 =~= seq![sentence]);
            assert(all2.drop_last() =~= Seq::<Seq<char>>::empty());
            assert(all.drop_last() =~= Seq::<Seq<char>>::empty());
            lemma_words_blank(Seq::<char>::empty());
            assert(words(sentence).skip(0) =~= words(sentence));
            assert(Seq::<Seq<char>>::empty() + words(sentence) =~= words(sentence));
        }
    }
}

/// Chunking keeps every word of the text, in order and once: taking all
/// words of the first chunk and, of each later chunk, its words after those
/// carried over from the chunk before, gives exactly the words of the text;
/// and each later chunk begins, word for word, with the overlap of the chunk
/// before it (its last `ceil(overlap_tokens / 1.3)` words, see
/// `law_overlap_is_last_words`).
pub proof fn law_chunks_keep_words(text: Seq<char>, max_tokens: nat, overlap_tokens: nat)
    ensures
        fresh_words(chunk_texts(chunks_of(text, max_tokens, overlap_tokens)), overlap_tokens)
            == words(text),
        carries_overlap(chunk_texts(chunks_of(text, max_tokens, overlap_tokens)), overlap_tokens),
{
    let cs = chunks_of(text, max_tokens, overlap_tokens);
    lemma_trim_props(text);
    law_sentences_keep_words(text);
    if trim(text).len() == 0 {
        lemma_words_blank(text);
        assert(chunk_texts(cs) =~= Seq::<Seq<char>>::empty());
    } else {
        let ss = sentences(text);
        law_sentences_trimmed(text);
        assert forall|k: int| 0 <= k < ss.len() implies (#[trigger] ss[k]).len() > 0 by {}
        lemma_chunk_fold_words(ss, max_tokens, overlap_tokens);
        lemma_chunk_fold_inv(ss, max_tokens, overlap_tokens);
        let st = chunk_fold(ss, max_tokens, overlap_tokens);
        assert(st.current.len() > 0);
        let m = ChunkModel { text: st.current, token_count: st.current_tokens };
        assert(chunk_texts(cs) =~= chunk_texts(st.chunks).push(st.current));
    }
}

proof fn lemma_tokens_subadditive(a: nat, b: nat)
    ensures
        tokens_for_words(a + b) <= tokens_for_words(a) + tokens_for_words(b),
{
    let q1 = (13 * a + 9) / 10;
    let q2 = (13 * b + 9) / 10;
    let q = (13 * (a + b) + 9) / 10;
    assert(q <= q1 + q2) by (nonlinear_arith)
        requires
            q1 == (13 * a + 9) / 10,
            q2 == (13 * b + 9) / 10,
            q == (13 * (a + b) + 9) / 10,
            a >= 0,
            b >= 0,
    {
        assert(13 * a + 9 < 10 * q1 + 10);
        assert(13 * b + 9 < 10 * q2 + 10);
        assert(13 * (a + b) + 9 >= 10 * q);
    }
}

/// The overlap carried into the chunk that follows the given chunks (none
/// before the first chunk).
pub open spec fn carry_of(chunks: Seq<ChunkModel>, overlap_tokens: nat) -> Seq<char> {
    if chunks.len() > 0 {
        overlap_of(chunks.last().text, overlap_tokens)
    } else {
        Seq::empty()
    }
}

/// Chunk `k` of `cs` is a single sentence of `ss` after the overlap it
/// carries: its text is that overlap, a space and the sentence.
pub open spec fn single_sentence(
    cs: Seq<ChunkModel>,
    ss: Seq<Seq<char>>,
    k: int,
    overlap_tokens: nat,
) -> bool {
    exists|i: int|
        0 <= i < ss.len() && cs[k].text == opened_with(
            carry_of(cs.take(k), overlap_tokens),
            #[trigger] ss[i],
        )
}

/// What the chunker keeps true of chunks over the maximum: each, emitted or
/// in progress, is a single sentence after its overlap.
pub open spec fn over_max_single(st: ChunkState, ss: Seq<Seq<char>>, max_tokens: nat, overlap_tokens: nat) -> bool {
    &&& forall|k: int|
        0 <= k < st.chunks.len() && st.chunks[k].token_count > max_tokens ==> #[trigger] single_sentence(
            st.chunks,
            ss,
            k,
            overlap_tokens,
        )
    &&& st.current_tokens > max_tokens ==> exists|i: int|
        0 <= i < ss.len() && st.current == opened_with(carry_of(st.chunks, overlap_tokens), #[trigger] ss[i])
}

proof fn lemma_chunk_fold_single(ss: Seq<Seq<char>>, max_tokens: nat, overlap_tokens: nat)
    requires
        forall|k: int| 0 <= k < ss.len() ==> (#[trigger] ss[k]).len() > 0,
    ensures
        over_max_single(chunk_fold(ss, max_tokens, overlap_tokens), ss, max_tokens, overlap_tokens),
    decreases ss.len(),
{
    if ss.len() > 0 {
        let prev = ss.drop_last();
        assert forall|k: int| 0 <= k < prev.len() implies (#[trigger] prev[k]).len() > 0 by {
            assert(prev[k] == ss[k]);
        }
        lemma_chunk_fold_single(prev, max_tokens, overlap_tokens);
        lemma_chunk_fold_inv(prev, max_tokens, overlap_tokens);
        let st = chunk_fold(prev, max_tokens, overlap_tokens);
        let sentence = ss.last();
        assert(sentence == ss[ss.len() - 1]);
        let next = chunk_step(st, sentence, max_tokens, overlap_tokens);
        assert(next == chunk_fold(ss, max_tokens, overlap_tokens));
        let n = st.chunks.len() as int;
        let split = st.current_tokens + token_estimate(sentence) > max_tokens && st.current.len()
            > 0;
        // emitted chunks keep their witness
        assert forall|k: int|
            0 <= k < n && st.chunks[k].token_count > max_tokens implies #[trigger] single_sentence(
            next.chunks,
            ss,
            k,
            overlap_tokens,
        ) by {
            assert(single_sentence(st.chunks, prev, k, overlap_tokens));
            let i = choose|i: int|
                0 <= i < prev.len() && st.chunks[k].text == opened_with(
                    carry_of(st.chunks.take(k), overlap_tokens),
                    #[trigger] prev[i],
                );
            assert(prev[i] == ss[i]);
            assert(next.chunks[k] == st.chunks[k]);
            assert(next.chunks.take(k) =~= st.chunks.take(k));
        }
        if split {
            assert(next.chunks.take(n) =~= st.chunks);
            if st.current_tokens > max_tokens {
                let i = choose|i: int|
                    0 <= i < prev.len() && st.current == opened_with(
                        carry_of(st.chunks, overlap_tokens),
                        #[trigger] prev[i],
                    );
                assert(prev[i] == ss[i]);
                assert(single_sentence(next.chunks, ss, n, overlap_tokens));
            }
            assert(next.chunks.last().text == st.current);
            assert(next.current == opened_with(carry_of(next.chunks, overlap_tokens), ss[ss.len() - 1]));
            assert forall|k: int|
                0 <= k < next.chunks.len() && next.chunks[k].token_count > max_tokens implies #[trigger] single_sentence(
                next.chunks,
                ss,
                k,
                overlap_tokens,
            ) by {
                if k < n {
                    assert(next.chunks[k] == st.chunks[k]);
                }
            }
        } else if st.current.len() > 0 {
            lemma_words_space_join(st.current, sentence);
            lemma_tokens_subadditive(words(st.current).len(), words(sentence).len());
            assert(next.current_tokens <= max_tokens);
        } else {
            assert(st.chunks.len() == 0);
            assert(next.current == opened_with(carry_of(next.chunks, overlap_tokens), ss[ss.len() - 1]));
        }
    }
}

/// A chunk over `max_tokens` is a single sentence after its overlap: only
/// a sentence that alone takes a chunk past the maximum makes one that
/// large, and nothing is added to such a chunk.
pub proof fn law_oversized_chunk_is_one_sentence(text: Seq<char>, max_tokens: nat, overlap_tokens: nat)
    ensures
        forall|k: int|
            0 <= k < chunks_of(text, max_tokens, overlap_tokens).len() && chunks_of(
                text,
                max_tokens,
                overlap_tokens,
            )[k].token_count > max_tokens ==> #[trigger] single_sentence(
                chunks_of(text, max_tokens, overlap_tokens),
                sentences(text),
                k,
                overlap_tokens,
            ),
{
    let cs = chunks_of(text, max_tokens, overlap_tokens);
    if trim(text).len() > 0 {
        let ss = sentences(text);
        lemma_trim_props(text);
        law_sentences_trimmed(text);
        assert forall|k: int| 0 <= k < ss.len() implies (#[trigger] ss[k]).len() > 0 by {}
        lemma_chunk_fold_single(ss, max_tokens, overlap_tokens);
        lemma_chunk_fold_inv(ss, max_tokens, overlap_tokens);
        let st = chunk_fold(ss, max_tokens, overlap_tokens);
        assert(st.current.len() > 0);
        let n = st.chunks.len() as int;
        assert forall|k: int| 0 <= k < cs.len() && cs[k].token_count > max_tokens implies #[trigger] single_sentence(
            cs,
            ss,
            k,
            overlap_tokens,
        ) by {
            if k < n {
                assert(cs[k] == st.chunks[k]);
                assert(cs.take(k) =~= st.chunks.take(k));
                assert(single_sentence(st.chunks, ss, k, overlap_tokens));
                let i = choose|i: int|
                    0 <= i < ss.len() && st.chunks[k].text == opened_with(
                        carry_of(st.chunks.take(k), overlap_tokens),
                        #[trigger] ss[i],
                    );
                assert(cs[k].text == opened_with(carry_of(cs.take(k), overlap_tokens), ss[i]));
            } else {
                assert(cs.take(n) =~= st.chunks);
                let i = choose|i: int|
                    0 <= i < ss.len() && st.current == opened_with(
                        carry_of(st.chunks, overlap_tokens),
                        #[trigger] ss[i],
                    );
                assert(cs[k].text == opened_with(carry_of(cs.take(k), overlap_tokens), ss[i]));
            }
        }
    }
}

/// Every character is whitespace.
pub open spec fn blank(s: Seq<char>) -> bool {
    forall|i: int| 0 <= i < s.len() ==> is_ws(#[trigger] s[i])
}

/// Pieces with gaps around and between them: gap 0, piece 0, gap 1, ...,
/// piece n - 1, gap n.
pub open spec fn interleave(gaps: Seq<Seq<char>>, pieces: Seq<Seq<char>>) -> Seq<char>
    decreases pieces.len(),
{
    if pieces.len() == 0 {
        gaps[0]
    } else {
        interleave(gaps.drop_last(), pieces.drop_last()) + pieces.last() + gaps.last()
    }
}

/// All gaps are whitespace, one more than there are pieces.
pub open spec fn blank_gaps(gaps: Seq<Seq<char>>, pieces: Seq<Seq<char>>) -> bool {
    &&& gaps.len() == pieces.len() + 1
    &&& forall|k: int| 0 <= k < gaps.len() ==> blank(#[trigger] gaps[k])
}

proof fn lemma_interleave_extend_last(gaps: Seq<Seq<char>>, pieces: Seq<Seq<char>>, x: Seq<char>)
    requires
        gaps.len() == pieces.len() + 1,
    ensures
        interleave(gaps.update(gaps.len() - 1, gaps.last() + x), pieces) == interleave(gaps, pieces)
            + x,
{
    let g2 = gaps.update(gaps.len() - 1, gaps.last() + x);
    if pieces.len() == 0 {
        assert(g2[0] == gaps[0] + x);
    } else {
        assert(g2.drop_last() =~= gaps.drop_last());
        assert(g2.last() == gaps.last() + x);
        let a = interleave(gaps.drop_last(), pieces.drop_last());
        assert(a + pieces.last() + (gaps.last() + x) =~= a + pieces.last() + gaps.last() + x);
    }
}

proof fn lemma_blank_concat(a: Seq<char>, b: Seq<char>)
    requires
        blank(a),
        blank(b),
    ensures
        blank(a + b),
{
    assert forall|i: int| 0 <= i < (a + b).len() implies is_ws(#[trigger] (a + b)[i]) by {
        if i < a.len() {
            assert((a + b)[i] == a[i]);
        } else {
            assert((a + b)[i] == b[i - a.len()]);
        }
    }
}

/// Adding a piece to the scan: its trimmed text joins the pieces and its
/// whitespace joins the gaps.
proof fn lemma_gaps_step(
    prefix: Seq<char>,
    gaps: Seq<Seq<char>>,
    done: Seq<Seq<char>>,
    piece: Seq<char>,
) -> (next: Seq<Seq<char>>)
    requires
        blank_gaps(gaps, done),
        prefix == interleave(gaps, done),
    ensures
        blank_gaps(next, push_nonempty(done, trim(piece))),
        prefix + piece == interleave(next, push_nonempty(done, trim(piece))),
{
    lemma_lead_ws_props(piece);
    lemma_trail_ws_props(piece);
    lemma_trim_props(piece);
    let t = trim(piece);
    let n = gaps.len() - 1;
    if t.len() == 0 {
        assert(blank(piece)) by {
            if !blank(piece) {
                let i = choose|i: int| 0 <= i < piece.len() && !is_ws(#[trigger] piece[i]);
                assert(has_non_ws(piece));
            }
        }
        let next = gaps.update(n, gaps.last() + piece);
        lemma_interleave_extend_last(gaps, done, piece);
        lemma_blank_concat(gaps.last(), piece);
        assert forall|k: int| 0 <= k < next.len() implies blank(#[trigger] next[k]) by {
            if k < n {
                assert(next[k] == gaps[k]);
            }
        }
        next
    } else {
        let a = lead_ws(piece) as int;
        let b = piece.len() - trail_ws(piece);
        let head = piece.subrange(0, a);
        let tail = piece.subrange(b, piece.len() as int);
        assert(a < piece.len());
        assert(t == piece.subrange(a, b));
        assert(piece =~= head + t + tail);
        assert(blank(head)) by {
            assert forall|i: int| 0 <= i < head.len() implies is_ws(#[trigger] head[i]) by {
                assert(head[i] == piece[i]);
            }
        }
        assert(blank(tail)) by {
            assert forall|i: int| 0 <= i < tail.len() implies is_ws(#[trigger] tail[i]) by {
                assert(tail[i] == piece[b + i]);
            }
        }
        let mid = gaps.update(n, gaps.last() + head);
        lemma_interleave_extend_last(gaps, done, head);
        lemma_blank_concat(gaps.last(), head);
        let next = mid.push(tail);
        let d2 = done.push(t);
        assert(next.drop_last() =~= mid);
        assert(d2.drop_last() =~= done);
        assert(interleave(next, d2) == interleave(mid, done) + t + tail);
        assert(prefix + piece =~= prefix + head + t + tail);
        assert forall|k: int| 0 <= k < next.len() implies blank(#[trigger] next[k]) by {
            if k < n {
                assert(next[k] == gaps[k]);
            } else if k == n {
                assert(next[k] == gaps.last() + head);
            } else {
                assert(next[k] == tail);
            }
        }
        next
    }
}

proof fn lemma_sentence_scan_gaps(s: Seq<char>, n: int) -> (gaps: Seq<Seq<char>>)
    requires
        0 <= n <= s.len(),
    ensures
        blank_gaps(gaps, sentence_scan(s, n).0),
        s.subrange(0, sentence_scan(s, n).1) == interleave(gaps, sentence_scan(s, n).0),
    decreases n,
{
    if n == 0 {
        let gaps = seq![Seq::<char>::empty()];
        assert(s.subrange(0, 0) =~= Seq::<char>::empty());
        assert(blank(gaps[0]));
        gaps
    } else {
        let g = lemma_sentence_scan_gaps(s, n - 1);
        lemma_sentence_scan_bounds(s, n - 1);
        let (done, start) = sentence_scan(s, n - 1);
        if ends_sentence(s, n - 1) {
            let piece = s.subrange(start, n);
            let next = lemma_gaps_step(s.subrange(0, start), g, done, piece);
            assert(s.subrange(0, n) =~= s.subrange(0, start) + piece);
            next
        } else {
            g
        }
    }
}

/// Splitting into sentences drops only whitespace and keeps the order: the
/// text is its sentences with whitespace-only gaps before, between and
/// after them.
pub proof fn law_sentences_with_blank_gaps(text: Seq<char>)
    ensures
        exists|gaps: Seq<Seq<char>>|
            #[trigger] blank_gaps(gaps, sentences(text)) && text == interleave(gaps, sentences(text)),
{
    let n = text.len() as int;
    let g = lemma_sentence_scan_gaps(text, n);
    lemma_sentence_scan_bounds(text, n);
    let (done, start) = sentence_scan(text, n);
    let piece = text.subrange(start, n);
    let gaps = lemma_gaps_step(text.subrange(0, start), g, done, piece);
    assert(text =~= text.subrange(0, start) + piece);
    assert(blank_gaps(gaps, sentences(text)));
}

} // verus!
