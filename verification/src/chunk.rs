//! Chunking: splitting a document's text into model-ready pieces, each with
//! its byte offset in the text and a token estimate.
//!
//! The token estimate is words × 1.3, rounded; a [`TokenCounter`] can stand
//! in for an exact tokenizer.

use vstd::prelude::*;
use std::collections::HashMap;
use unicode_segmentation::UnicodeSegmentation;
use crate::parse::{para_spans, split_paragraphs};
use crate::textutil::{
    has_prefix, byte_len, char_width, chars_of, count_words, is_ws, lemma_byte_len_prefix, lemma_len_le_byte_len,
    lemma_byte_len_split, lemma_byte_len_step, occurs_at, string_from_chars, trim, trim_bounds,
    word_count, words_upto, is_ascii, alphanumeric, lemma_trim_idem, lemma_trim_shape, lemma_trim_all_ws, lemma_trim_empty_all_ws,
};

verus! {

/// Words × 1.3, rounded half up, as `usize` (saturating). For fewer than
/// 2^49 words this is what rounding the `f64` product gives.
pub open spec fn estimate(words: nat) -> nat {
    let t = (13 * words + 5) / 10;
    if t > usize::MAX {
        usize::MAX as nat
    } else {
        t
    }
}

/// The token estimate of a text: from its whitespace-separated words.
pub open spec fn token_estimate(text: Seq<char>) -> nat {
    estimate(word_count(text))
}

/// A chunk as plain values: text, index, byte offset, token estimate.
pub type ChunkView = (Seq<char>, nat, nat, nat);

/// The chunk made of a piece of text: the piece trimmed, with its estimate.
pub open spec fn made(text: Seq<char>, index: nat, start: nat) -> ChunkView {
    (trim(text), index, start, token_estimate(trim(text)))
}

/// A single chunk of a document.
#[derive(Debug, Clone, PartialEq)]
pub struct Chunk {
    /// The chunk text.
    pub text: String,
    /// 0-based position in the chunk list.
    pub index: usize,
    /// Byte offset where this chunk starts in the original text.
    pub start_offset: usize,
    /// Estimated token count (words × 1.3 heuristic).
    pub token_estimate: usize,
    /// Free-form metadata (section heading, page number, source file, etc.).
    pub metadata: HashMap<String, String>,
}

/// A chunk as plain values.
pub open spec fn chunk_view(c: Chunk) -> ChunkView {
    (c.text@, c.index as nat, c.start_offset as nat, c.token_estimate as nat)
}

/// Chunks as plain values.
pub open spec fn chunks_view(cs: Seq<Chunk>) -> Seq<ChunkView> {
    cs.map_values(|c: Chunk| chunk_view(c))
}

/// Every chunk carries no metadata.
pub open spec fn no_metadata(cs: Seq<Chunk>) -> bool {
    forall|i: int| 0 <= i < cs.len() ==> (#[trigger] cs[i]).metadata@ == Map::<String, String>::empty()
}

/// The estimate of `w` words.
fn estimate_words(w: usize) -> (t: usize)
    ensures
        t == estimate(w as nat),
{
    let t: u128 = (13 * (w as u128) + 5) / 10;
    if t > usize::MAX as u128 {
        usize::MAX
    } else {
        t as usize
    }
}

/// The token estimate of `s[lo..hi]`.
fn estimate_span(s: &[char], lo: usize, hi: usize) -> (t: usize)
    requires
        lo <= hi <= s@.len(),
    ensures
        t == token_estimate(s@.subrange(lo as int, hi as int)),
{
    estimate_words(count_words(s, lo, hi))
}

impl Chunk {
    /// Estimate tokens for a piece of text: words × 1.3, rounded.
    pub fn estimate_tokens(text: &str) -> (t: usize)
        ensures
            t == token_estimate(text@),
    {
        let cs = chars_of(text);
        assert(cs@.subrange(0, cs@.len() as int) =~= cs@);
        estimate_span(cs.as_slice(), 0, cs.len())
    }

    /// Word count.
    pub fn word_count(&self) -> (n: usize)
        ensures
            n == word_count(self.text@),
    {
        let cs = chars_of(self.text.as_str());
        assert(cs@.subrange(0, cs@.len() as int) =~= cs@);
        count_words(cs.as_slice(), 0, cs.len())
    }
}

/// The chunk of `s[lo..hi]`, trimmed.
fn make_chunk(s: &[char], lo: usize, hi: usize, index: usize, start: usize) -> (c: Chunk)
    requires
        lo <= hi <= s@.len(),
    ensures
        chunk_view(c) == made(s@.subrange(lo as int, hi as int), index as nat, start as nat),
        c.metadata@ == Map::<String, String>::empty(),
{
    let (a, b) = trim_bounds(s, lo, hi);
    let text = string_from_chars(vstd::slice::slice_subrange(s, a, b));
    let token_estimate = estimate_span(s, a, b);
    Chunk { text, index, start_offset: start, token_estimate, metadata: HashMap::new() }
}

/// The byte offset of char `k` of `s`.
fn byte_offset(s: &[char], k: usize) -> (r: usize)
    requires
        k <= s@.len(),
        byte_len(s@) <= usize::MAX,
    ensures
        r == byte_len(s@.take(k as int)),
{
    proof {
        lemma_byte_len_prefix(s@, k as int, s@.len() as int);
        assert(s@.take(s@.len() as int) =~= s@);
    }
    let mut acc: usize = 0;
    let mut i: usize = 0;
    while i < k
        invariant
            i <= k <= s@.len(),
            acc == byte_len(s@.take(i as int)),
            byte_len(s@.take(k as int)) <= usize::MAX,
        decreases k - i,
    {
        proof {
            lemma_byte_len_step(s@, i as int);
            lemma_byte_len_prefix(s@, i + 1, k as int);
        }
        acc = acc + char_width(s[i]);
        i += 1;
    }
    acc
}

/// The chunks of fixed-size windows of `cs` from char `start` on, the next
/// kept one numbered `index`: each window is `size` chars (or what is
/// left), and the next starts `size - overlap` chars on, or one char on when
/// the overlap is not smaller than the size. Blank windows are dropped.
pub open spec fn fixed_from(cs: Seq<char>, size: nat, overlap: nat, start: nat, index: nat) -> Seq<ChunkView>
    decreases cs.len() - start,
{
    if size == 0 || start >= cs.len() {
        Seq::empty()
    } else {
        let end = if start + size < cs.len() { start + size } else { cs.len() as nat };
        let piece = cs.subrange(start as int, end as int);
        let kept = trim(piece).len() > 0;
        let head = if kept { seq![made(piece, index, byte_len(cs.take(start as int)))] } else { Seq::empty() };
        if end >= cs.len() {
            head
        } else {
            let next = if overlap >= size { start + 1 } else { (end - overlap) as nat };
            head + fixed_from(cs, size, overlap, next, if kept { index + 1 } else { index })
        }
    }
}

/// Fixed-size char windows with overlap.
fn fixed_size(text: &str, size: usize, overlap: usize) -> (r: Vec<Chunk>)
    requires
        byte_len(text@) <= usize::MAX,
    ensures
        chunks_view(r@) == fixed_from(text@, size as nat, overlap as nat, 0, 0),
        no_metadata(r@),
        trim(text@).len() == 0 ==> r@.len() == 0,
{
    proof {
        if trim(text@).len() == 0 {
            lemma_trim_empty_all_ws(text@);
            lemma_fixed_blank(text@, size as nat, overlap as nat, 0, 0);
        }
    }
    let mut chunks: Vec<Chunk> = Vec::new();
    if size == 0 {
        return chunks;
    }
    let cs = chars_of(text);
    let n = cs.len();
    let mut start: usize = 0;
    let mut index: usize = 0;
    while start < n
        invariant_except_break
            cs@ == text@,
            n == cs@.len(),
            size > 0,
            byte_len(text@) <= usize::MAX,
            start <= n,
            index <= start,
            chunks_view(chunks@) + fixed_from(cs@, size as nat, overlap as nat, start as nat, index as nat)
                == fixed_from(cs@, size as nat, overlap as nat, 0, 0),
            no_metadata(chunks@),
        ensures
            chunks_view(chunks@) == fixed_from(cs@, size as nat, overlap as nat, 0, 0),
            no_metadata(chunks@),
        decreases n - start,
    {
        let end = if size < n - start { start + size } else { n };
        let off = byte_offset(cs.as_slice(), start);
        let c = make_chunk(cs.as_slice(), start, end, index, off);
        let ghost before = chunks_view(chunks@);
        let ghost f0 = fixed_from(cs@, size as nat, overlap as nat, start as nat, index as nat);
        let ghost head = if trim(cs@.subrange(start as int, end as int)).len() > 0 {
            seq![chunk_view(c)]
        } else {
            Seq::<ChunkView>::empty()
        };
        if !c.text.as_str().is_empty() {
            chunks.push(c);
            assert(chunks_view(chunks@) =~= before.push(chunk_view(c)));
            index += 1;
        } else {
            assert(chunks_view(chunks@) =~= before);
        }
        if end >= n {
            assert(f0 == head);
            assert(chunks_view(chunks@) =~= before + f0);
            break;
        }
        let next = if overlap >= size { start + 1 } else { end - overlap };
        assert(f0 == head + fixed_from(cs@, size as nat, overlap as nat, next as nat, index as nat));
        assert(chunks_view(chunks@) + fixed_from(cs@, size as nat, overlap as nat, next as nat, index as nat)
            =~= before + f0);
        start = next;
    }
    chunks
}

/// The chunks of the first `n` paragraph spans of `cs`, blank ones dropped,
/// each numbered by its place in the list of chunks.
pub open spec fn para_chunks(cs: Seq<char>, spans: Seq<(usize, usize)>, n: int) -> Seq<ChunkView>
    decreases n,
{
    if n <= 0 {
        Seq::empty()
    } else {
        let prev = para_chunks(cs, spans, n - 1);
        let piece = cs.subrange(spans[n - 1].0 as int, spans[n - 1].1 as int);
        if trim(piece).len() > 0 {
            prev.push(made(piece, prev.len(), byte_len(cs.take(spans[n - 1].0 as int))))
        } else {
            prev
        }
    }
}

/// One chunk per paragraph (pieces between blank lines).
fn by_paragraph(text: &str) -> (r: Vec<Chunk>)
    requires
        byte_len(text@) <= usize::MAX,
    ensures
        chunks_view(r@) == para_chunks(text@, para_spans(text@), para_spans(text@).len() as int),
        no_metadata(r@),
        trim(text@).len() == 0 ==> r@.len() == 0,
{
    let cs = chars_of(text);
    let spans = split_paragraphs(cs.as_slice());
    let mut chunks: Vec<Chunk> = Vec::new();
    let mut k: usize = 0;
    while k < spans.len()
        invariant
            cs@ == text@,
            byte_len(text@) <= usize::MAX,
            spans@ == para_spans(cs@),
            forall|q: int| #![trigger spans@[q]] 0 <= q < spans@.len() ==> spans@[q].0 <= spans@[q].1 <= cs@.len(),
            k <= spans@.len(),
            chunks_view(chunks@) == para_chunks(cs@, spans@, k as int),
            no_metadata(chunks@),
        decreases spans@.len() - k,
    {
        let (a, b) = spans[k];
        let off = byte_offset(cs.as_slice(), a);
        let c = make_chunk(cs.as_slice(), a, b, chunks.len(), off);
        if !c.text.as_str().is_empty() {
            let ghost before = chunks_view(chunks@);
            chunks.push(c);
            assert(chunks_view(chunks@) =~= before.push(chunk_view(c)));
        }
        k += 1;
    }
    proof {
        if trim(text@).len() == 0 {
            lemma_trim_empty_all_ws(text@);
            lemma_para_blank(cs@, spans@, spans@.len() as int);
        }
    }
    chunks
}

/// The pieces of `text` between its UAX#29 sentence boundaries, in order.
pub uninterp spec fn sentence_bounds(text: Seq<char>) -> Seq<Seq<char>>;

/// The number of sentences (pieces holding an alphanumeric char) that
/// `unicode_sentences` finds in `piece`.
pub uninterp spec fn sentence_count(piece: Seq<char>) -> nat;

/// The pieces one after the other.
pub open spec fn concat(ps: Seq<Seq<char>>) -> Seq<char>
    decreases ps.len(),
{
    if ps.len() == 0 {
        Seq::empty()
    } else {
        concat(ps.drop_last()) + ps.last()
    }
}

/// `UnicodeSegmentation::split_sentence_bounds`: the pieces between sentence
/// boundaries, which the crate documents to concatenate to the text; where
/// the boundaries fall is named, not stated.
#[verifier::external_body]
fn split_sentence_bounds(text: &str) -> (r: Vec<String>)
    ensures
        r@.map_values(|s: String| s@) == sentence_bounds(text@),
        concat(r@.map_values(|s: String| s@)) == text@,
{
    text.split_sentence_bounds().map(|s| s.to_string()).collect()
}

/// `UnicodeSegmentation::unicode_sentences`, counted. The crate keeps the
/// pieces between sentence boundaries that hold an alphanumeric char (by its
/// own tables, which agree with std on ASCII), so a piece of
/// `split_sentence_bounds` is one of its sentences exactly when this count
/// is not zero: it is positive when the piece holds an ASCII letter or
/// digit, and zero when the piece is ASCII without any; for other chars the
/// count is named, not stated.
#[verifier::external_body]
fn count_sentences(piece: &str) -> (n: usize)
    ensures
        n == sentence_count(piece@),
        (exists|i: int| 0 <= i < piece@.len() && is_ascii(piece@[i]) && #[trigger] alphanumeric(piece@[i])) ==> n > 0,
        (forall|i: int| 0 <= i < piece@.len() ==> is_ascii(#[trigger] piece@[i]) && !alphanumeric(piece@[i])) ==> n == 0,
{
    piece.unicode_sentences().count()
}

/// `concat` of a prefix and the rest.
proof fn lemma_concat_split(ps: Seq<Seq<char>>, j: int)
    requires
        0 <= j <= ps.len(),
    ensures
        concat(ps) == concat(ps.take(j)) + concat(ps.skip(j)),
    decreases ps.len(),
{
    if j == ps.len() {
        assert(ps.take(j) =~= ps);
        assert(ps.skip(j) =~= Seq::<Seq<char>>::empty());
        assert(concat(ps) + Seq::<char>::empty() =~= concat(ps));
    } else {
        let d = ps.drop_last();
        lemma_concat_split(d, j);
        assert(d.take(j) =~= ps.take(j));
        assert(ps.skip(j).drop_last() =~= d.skip(j));
        assert(ps.skip(j).last() == ps.last());
        assert(concat(ps) =~= concat(ps.take(j)) + concat(ps.skip(j)));
    }
}

/// `concat` of one more piece.
proof fn lemma_concat_step(ps: Seq<Seq<char>>, j: int)
    requires
        0 <= j < ps.len(),
    ensures
        concat(ps.take(j + 1)) == concat(ps.take(j)) + ps[j],
{
    assert(ps.take(j + 1).drop_last() =~= ps.take(j));
}

/// Words are separated: twice the words of `s[..n]` is at most `n + 1`, and
/// at most `n` when `s[n - 1]` is whitespace.
proof fn lemma_words_sparse(s: Seq<char>, n: int)
    requires
        0 <= n <= s.len(),
    ensures
        2 * words_upto(s, n) <= n + 1,
        n > 0 && is_ws(s[n - 1]) ==> 2 * words_upto(s, n) <= n,
    decreases n,
{
    if n > 0 {
        lemma_words_sparse(s, n - 1);
    }
}

/// The estimate of a text is at most its number of chars.
proof fn lemma_estimate_le_len(s: Seq<char>)
    ensures
        token_estimate(s) <= s.len(),
{
    lemma_words_sparse(s, s.len() as int);
}

/// The state of the sentence grouping.
pub struct SentState {
    pub chunks: Seq<ChunkView>,
    pub cur: Seq<char>,
    pub tokens: nat,
    pub start: nat,
    pub index: nat,
}

/// Add a sentence at byte offset `off`: when it would take the current
/// group past `max` tokens, the group becomes a chunk and a new one begins.
pub open spec fn sent_step(s: SentState, off: nat, sent: Seq<char>, max: nat) -> SentState {
    let st = token_estimate(sent);
    let s1 = if s.tokens + st > max && s.cur.len() > 0 {
        let kept = trim(s.cur).len() > 0;
        SentState {
            chunks: if kept { s.chunks.push(made(s.cur, s.index, s.start)) } else { s.chunks },
            cur: Seq::empty(),
            tokens: 0,
            start: off,
            index: if kept { s.index + 1 } else { s.index },
        }
    } else if s.cur.len() == 0 {
        SentState { start: off, ..s }
    } else {
        s
    };
    SentState { cur: s1.cur + sent.push(' '), tokens: s1.tokens + st, ..s1 }
}

/// The state after the first `n` pieces, those that are sentences added.
pub open spec fn sent_run(ps: Seq<Seq<char>>, n: int, max: nat) -> SentState
    decreases n,
{
    if n <= 0 {
        SentState { chunks: Seq::empty(), cur: Seq::empty(), tokens: 0, start: 0, index: 0 }
    } else {
        let s = sent_run(ps, n - 1, max);
        if sentence_count(ps[n - 1]) > 0 {
            sent_step(s, byte_len(concat(ps.take(n - 1))), ps[n - 1], max)
        } else {
            s
        }
    }
}

/// The chunks of sentences grouped up to `max` tokens.
pub open spec fn sentence_chunks(text: Seq<char>, max: nat) -> Seq<ChunkView> {
    let ps = sentence_bounds(text);
    let s = sent_run(ps, ps.len() as int, max);
    if trim(s.cur).len() > 0 {
        s.chunks.push(made(s.cur, s.index, s.start))
    } else {
        s.chunks
    }
}

/// `buf` with the chars of `s` after it.
fn extend_chars(buf: &mut Vec<char>, s: &[char])
    ensures
        final(buf)@ == old(buf)@ + s@,
{
    let mut j: usize = 0;
    while j < s.len()
        invariant
            j <= s@.len(),
            buf@ == old(buf)@ + s@.take(j as int),
        decreases s@.len() - j,
    {
        buf.push(s[j]);
        j += 1;
        assert(buf@ =~= old(buf)@ + s@.take(j as int));
    }
    assert(s@.take(j as int) =~= s@);
}

/// Group sentences until `max_tokens` is reached.
fn by_sentences(text: &str, max_tokens: usize) -> (r: Vec<Chunk>)
    requires
        byte_len(text@) <= usize::MAX,
    ensures
        chunks_view(r@) == sentence_chunks(text@, max_tokens as nat),
        no_metadata(r@),
        trim(text@).len() == 0 ==> r@.len() == 0,
{
    let pieces = split_sentence_bounds(text);
    proof {
        if trim(text@).len() == 0 {
            lemma_trim_empty_all_ws(text@);
            lemma_sentence_chunks_blank(text@, max_tokens as nat);
        }
    }
    let ghost ps = sentence_bounds(text@);
    let ghost max = max_tokens as nat;
    proof {
        lemma_len_le_byte_len(text@);
    }
    let mut chunks: Vec<Chunk> = Vec::new();
    let mut cur: Vec<char> = Vec::new();
    let mut tokens: usize = 0;
    let mut start: usize = 0;
    let mut index: usize = 0;
    let mut off: usize = 0;
    let mut j: usize = 0;
    while j < pieces.len()
        invariant
            ps == pieces@.map_values(|s: String| s@),
            concat(ps) == text@,
            byte_len(text@) <= usize::MAX,
            text@.len() <= byte_len(text@),
            j <= ps.len(),
            off == byte_len(concat(ps.take(j as int))),
            tokens <= concat(ps.take(j as int)).len(),
            index <= j,
            ({
                let s = sent_run(ps, j as int, max);
                &&& chunks_view(chunks@) == s.chunks
                &&& cur@ == s.cur
                &&& tokens == s.tokens
                &&& start == s.start
                &&& index == s.index
            }),
            no_metadata(chunks@),
            max == max_tokens,
        decreases ps.len() - j,
    {
        let ghost s0 = sent_run(ps, j as int, max);
        let ghost pre = concat(ps.take(j as int));
        let ghost whole = concat(ps.take(j + 1));
        proof {
            assert(pieces@.map_values(|s: String| s@)[j as int] == pieces@[j as int]@);
            lemma_concat_step(ps, j as int);
            lemma_concat_split(ps, j + 1);
            lemma_byte_len_prefix(text@, whole.len() as int, text@.len() as int);
            assert(text@.take(whole.len() as int) =~= whole);
            assert(text@.take(text@.len() as int) =~= text@);
            lemma_byte_len_split(whole, pre.len() as int, whole.len() as int);
            assert(whole.take(pre.len() as int) =~= pre);
            assert(whole.subrange(pre.len() as int, whole.len() as int) =~= ps[j as int]);
            assert(whole.take(whole.len() as int) =~= whole);
        }
        let pc = chars_of(pieces[j].as_str());
        if count_sentences(pieces[j].as_str()) > 0 {
            assert(pc@.subrange(0, pc@.len() as int) =~= pc@);
            let st = estimate_span(pc.as_slice(), 0, pc.len());
            proof {
                lemma_estimate_le_len(pc@);
            }
            if tokens + st > max_tokens && cur.len() > 0 {
                let c = make_chunk(cur.as_slice(), 0, cur.len(), index, start);
                assert(cur@.subrange(0, cur@.len() as int) =~= cur@);
                if !c.text.as_str().is_empty() {
                    let ghost before = chunks_view(chunks@);
                    chunks.push(c);
                    assert(chunks_view(chunks@) =~= before.push(chunk_view(c)));
                    index += 1;
                }
                cur = Vec::new();
                tokens = 0;
                start = off;
            } else if cur.len() == 0 {
                start = off;
            }
            extend_chars(&mut cur, pc.as_slice());
            cur.push(' ');
            tokens = tokens + st;
        }
        proof {
            lemma_len_le_byte_len(pc@);
        }
        let w = byte_offset(pc.as_slice(), pc.len());
        assert(pc@.take(pc@.len() as int) =~= pc@);
        off = off + w;
        j += 1;
    }
    let ghost s = sent_run(ps, ps.len() as int, max);
    assert(cur@.subrange(0, cur@.len() as int) =~= cur@);
    let (a, b) = trim_bounds(cur.as_slice(), 0, cur.len());
    if a < b {
        let c = make_chunk(cur.as_slice(), 0, cur.len(), index, start);
        let ghost before = chunks_view(chunks@);
        chunks.push(c);
        assert(chunks_view(chunks@) =~= before.push(chunk_view(c)));
    }
    chunks
}

/// The spans of the pieces of `s[st..hi]` between the non-overlapping
/// occurrences of the non-empty `sep` found from `i` on, the current piece
/// having begun at `st`.
pub open spec fn split_within(s: Seq<char>, sep: Seq<char>, hi: int, i: int, st: int) -> Seq<(int, int)>
    decreases hi - i,
{
    if sep.len() == 0 || i + sep.len() > hi {
        seq![(st, hi)]
    } else if occurs_at(s, sep, i) {
        seq![(st, i)] + split_within(s, sep, hi, i + sep.len(), i + sep.len())
    } else {
        split_within(s, sep, hi, i + 1, st)
    }
}

/// The spans of the pieces of `s[lo..hi]` split on `sep` (`str::split`): an
/// empty separator splits before and after every char.
pub open spec fn split_span(s: Seq<char>, sep: Seq<char>, lo: int, hi: int) -> Seq<(int, int)> {
    if sep.len() == 0 {
        seq![(lo, lo)] + Seq::new((hi - lo) as nat, |k: int| (lo + k, lo + k + 1)) + seq![(hi, hi)]
    } else {
        split_within(s, sep, hi, lo, lo)
    }
}

/// Spans that lie within `0..n`, in order inside each.
pub open spec fn spans_within(sp: Seq<(int, int)>, n: int) -> bool {
    forall|k: int| #![trigger sp[k]] 0 <= k < sp.len() ==> 0 <= sp[k].0 <= sp[k].1 <= n
}

proof fn lemma_split_within_bounds(s: Seq<char>, sep: Seq<char>, hi: int, i: int, st: int)
    requires
        0 <= st <= i <= hi <= s.len(),
    ensures
        forall|k: int| #![trigger split_within(s, sep, hi, i, st)[k]] 0 <= k < split_within(s, sep, hi, i, st).len()
            ==> st <= split_within(s, sep, hi, i, st)[k].0 <= split_within(s, sep, hi, i, st)[k].1 <= hi,
    decreases hi - i,
{
    if sep.len() == 0 || i + sep.len() > hi {
        assert(split_within(s, sep, hi, i, st) == seq![(st, hi)]);
    } else if occurs_at(s, sep, i) {
        lemma_split_within_bounds(s, sep, hi, i + sep.len(), i + sep.len());
        let r = split_within(s, sep, hi, i + sep.len(), i + sep.len());
        assert forall|k: int| #![trigger split_within(s, sep, hi, i, st)[k]] 0 <= k < split_within(s, sep, hi, i, st).len()
            implies st <= split_within(s, sep, hi, i, st)[k].0 <= split_within(s, sep, hi, i, st)[k].1 <= hi by {
            if k > 0 {
                assert(split_within(s, sep, hi, i, st)[k] == r[k - 1]);
            } else {
                assert(split_within(s, sep, hi, i, st)[k] == (st, i));
            }
        }
    } else {
        lemma_split_within_bounds(s, sep, hi, i + 1, st);
        assert(split_within(s, sep, hi, i, st) == split_within(s, sep, hi, i + 1, st));
    }
}

/// The spans of `s[lo..hi]` split on `sep`.
fn split_chars(s: &[char], sep: &[char], lo: usize, hi: usize) -> (r: Vec<(usize, usize)>)
    requires
        lo <= hi <= s@.len(),
    ensures
        r@.map_values(|p: (usize, usize)| (p.0 as int, p.1 as int)) == split_span(s@, sep@, lo as int, hi as int),
        forall|k: int| #![trigger r@[k]] 0 <= k < r@.len() ==> lo <= r@[k].0 <= r@[k].1 <= hi,
{
    let mut v: Vec<(usize, usize)> = Vec::new();
    if sep.len() == 0 {
        v.push((lo, lo));
        let mut k: usize = lo;
        while k < hi
            invariant
                lo <= k <= hi <= s@.len(),
                v@.map_values(|p: (usize, usize)| (p.0 as int, p.1 as int))
                    == seq![(lo as int, lo as int)] + Seq::new((k - lo) as nat, |q: int| (lo + q, lo + q + 1)),
                forall|q: int| #![trigger v@[q]] 0 <= q < v@.len() ==> lo <= v@[q].0 <= v@[q].1 <= hi,
            decreases hi - k,
        {
            let ghost before = v@.map_values(|p: (usize, usize)| (p.0 as int, p.1 as int));
            v.push((k, k + 1));
            assert(v@.map_values(|p: (usize, usize)| (p.0 as int, p.1 as int)) =~= before.push((k as int, k + 1)));
            k += 1;
            assert(before.push((k - 1, k as int))
                =~= seq![(lo as int, lo as int)] + Seq::new((k - lo) as nat, |q: int| (lo + q, lo + q + 1)));
        }
        v.push((hi, hi));
        assert(v@.map_values(|p: (usize, usize)| (p.0 as int, p.1 as int)) =~= split_span(s@, sep@, lo as int, hi as int));
        return v;
    }
    let m = sep.len();
    let mut st: usize = lo;
    let mut i: usize = lo;
    proof {
        lemma_split_within_bounds(s@, sep@, hi as int, lo as int, lo as int);
    }
    while m <= hi - i
        invariant
            lo <= st <= i <= hi <= s@.len(),
            m == sep@.len(),
            m > 0,
            v@.map_values(|p: (usize, usize)| (p.0 as int, p.1 as int)) + split_within(s@, sep@, hi as int, i as int, st as int)
                == split_span(s@, sep@, lo as int, hi as int),
            forall|q: int| #![trigger v@[q]] 0 <= q < v@.len() ==> lo <= v@[q].0 <= v@[q].1 <= hi,
        decreases hi - i,
    {
        let found = has_prefix(s, i, hi, sep);
        assert(s@.subrange(i as int, hi as int).take(m as int) =~= s@.subrange(i as int, i + m));
        let ghost before = v@.map_values(|p: (usize, usize)| (p.0 as int, p.1 as int));
        if found {
            v.push((st, i));
            assert(v@.map_values(|p: (usize, usize)| (p.0 as int, p.1 as int)) =~= before.push((st as int, i as int)));
            assert(split_within(s@, sep@, hi as int, i as int, st as int)
                == seq![(st as int, i as int)] + split_within(s@, sep@, hi as int, i + m, i + m));
            assert(v@.map_values(|p: (usize, usize)| (p.0 as int, p.1 as int)) + split_within(s@, sep@, hi as int, i + m, i + m)
                =~= before + split_within(s@, sep@, hi as int, i as int, st as int));
            i = i + m;
            st = i;
        } else {
            i = i + 1;
        }
    }
    let ghost before = v@.map_values(|p: (usize, usize)| (p.0 as int, p.1 as int));
    v.push((st, hi));
    assert(v@.map_values(|p: (usize, usize)| (p.0 as int, p.1 as int)) =~= before + split_within(s@, sep@, hi as int, i as int, st as int));
    v
}

/// Spans with integer ends.
pub open spec fn spans_int(v: Seq<(usize, usize)>) -> Seq<(int, int)> {
    v.map_values(|p: (usize, usize)| (p.0 as int, p.1 as int))
}

/// One pass of the recursive split: the spans of the first `n` whose text
/// is within `max` tokens kept, the others split on `sep`.
pub open spec fn refine(text: Seq<char>, spans: Seq<(int, int)>, sep: Seq<char>, max: nat, n: int) -> Seq<(int, int)>
    decreases n,
{
    if n <= 0 {
        Seq::empty()
    } else {
        let prev = refine(text, spans, sep, max, n - 1);
        let sp = spans[n - 1];
        if token_estimate(text.subrange(sp.0, sp.1)) <= max {
            prev.push(sp)
        } else {
            prev + split_span(text, sep, sp.0, sp.1)
        }
    }
}

/// The spans of `text` once the first `k` separators were tried, from the
/// whole text.
pub open spec fn refine_all(text: Seq<char>, seps: Seq<Seq<char>>, max: nat, k: int) -> Seq<(int, int)>
    decreases k,
{
    if k <= 0 {
        seq![(0int, text.len() as int)]
    } else {
        let sp = refine_all(text, seps, max, k - 1);
        refine(text, sp, seps[k - 1], max, sp.len() as int)
    }
}

/// One pass of the recursive split.
fn refine_pass(cs: &[char], spans: &Vec<(usize, usize)>, sep: &[char], max: usize) -> (r: Vec<(usize, usize)>)
    requires
        spans_within(spans_int(spans@), cs@.len() as int),
    ensures
        spans_int(r@) == refine(cs@, spans_int(spans@), sep@, max as nat, spans@.len() as int),
        spans_within(spans_int(r@), cs@.len() as int),
{
    let ghost sv = spans_int(spans@);
    let mut next: Vec<(usize, usize)> = Vec::new();
    let mut j: usize = 0;
    while j < spans.len()
        invariant
            sv == spans_int(spans@),
            spans_within(sv, cs@.len() as int),
            j <= spans@.len(),
            spans_int(next@) == refine(cs@, sv, sep@, max as nat, j as int),
            spans_within(spans_int(next@), cs@.len() as int),
        decreases spans@.len() - j,
    {
        let (a, b) = spans[j];
        assert(sv[j as int] == (a as int, b as int));
        let ghost before = spans_int(next@);
        if estimate_span(cs, a, b) <= max {
            next.push((a, b));
            assert(spans_int(next@) =~= before.push((a as int, b as int)));
        } else {
            let parts = split_chars(cs, sep, a, b);
            let mut q: usize = 0;
            while q < parts.len()
                invariant
                    q <= parts@.len(),
                    spans_int(next@) == before + spans_int(parts@).take(q as int),
                    spans_within(before, cs@.len() as int),
                    spans_within(spans_int(next@), cs@.len() as int),
                    forall|k: int| #![trigger parts@[k]] 0 <= k < parts@.len() ==> a <= parts@[k].0 <= parts@[k].1 <= b,
                    b <= cs@.len(),
                decreases parts@.len() - q,
            {
                let ghost mid = spans_int(next@);
                let p = parts[q];
                next.push(p);
                assert(spans_int(next@) =~= mid.push((p.0 as int, p.1 as int)));
                assert(spans_int(parts@)[q as int] == (p.0 as int, p.1 as int));
                assert(spans_int(parts@).take(q + 1) =~= spans_int(parts@).take(q as int).push((p.0 as int, p.1 as int)));
                q += 1;
            }
            assert(spans_int(parts@).take(q as int) =~= spans_int(parts@));
        }
        j += 1;
    }
    next
}

/// The state of the merging of the recursive split.
pub struct MergeState {
    pub chunks: Seq<ChunkView>,
    pub cur: Seq<char>,
    pub start: Option<nat>,
    pub index: nat,
}

/// The offset held, or 0.
pub open spec fn start_or_zero(o: Option<nat>) -> nat {
    match o {
        Some(x) => x,
        None => 0,
    }
}

/// Add the piece of one span to the current group, the group first
/// becoming a chunk when, joined by a space, they would pass `max` tokens.
pub open spec fn merge_step(s: MergeState, text: Seq<char>, sp: (int, int), max: nat) -> MergeState {
    let piece = text.subrange(sp.0, sp.1);
    let b = byte_len(text.take(sp.0));
    let s0 = if s.start is None { MergeState { start: Some(b), ..s } } else { s };
    let s1 = if token_estimate(s0.cur + seq![' '] + piece) > max && s0.cur.len() > 0 {
        let kept = trim(s0.cur).len() > 0;
        MergeState {
            chunks: if kept { s0.chunks.push(made(s0.cur, s0.index, start_or_zero(s0.start))) } else { s0.chunks },
            cur: Seq::empty(),
            start: Some(b),
            index: if kept { s0.index + 1 } else { s0.index },
        }
    } else {
        s0
    };
    MergeState { cur: if s1.cur.len() > 0 { s1.cur.push(' ') + piece } else { piece }, ..s1 }
}

/// The state after the first `n` spans.
pub open spec fn merge_run(text: Seq<char>, sps: Seq<(int, int)>, max: nat, n: int) -> MergeState
    decreases n,
{
    if n <= 0 {
        MergeState { chunks: Seq::empty(), cur: Seq::empty(), start: None, index: 0 }
    } else {
        merge_step(merge_run(text, sps, max, n - 1), text, sps[n - 1], max)
    }
}

/// The chunks of the recursive split: pieces too large are split on each
/// separator in turn, then neighbours are merged back up to `max` tokens.
pub open spec fn recursive_chunks(text: Seq<char>, seps: Seq<Seq<char>>, max: nat) -> Seq<ChunkView> {
    let sp = refine_all(text, seps, max, seps.len() as int);
    let s = merge_run(text, sp, max, sp.len() as int);
    if trim(s.cur).len() > 0 {
        s.chunks.push(made(s.cur, s.index, start_or_zero(s.start)))
    } else {
        s.chunks
    }
}

/// An optional offset as a natural number.
pub open spec fn opt_nat(o: Option<usize>) -> Option<nat> {
    match o {
        Some(x) => Some(x as nat),
        None => None,
    }
}

/// The spans of `cs` after each separator was tried in turn.
fn split_all(cs: &[char], separators: &Vec<String>, max_tokens: usize) -> (r: Vec<(usize, usize)>)
    ensures
        spans_int(r@) == refine_all(cs@, separators@.map_values(|s: String| s@), max_tokens as nat, separators@.len() as int),
        spans_within(spans_int(r@), cs@.len() as int),
{
    let ghost seps = separators@.map_values(|s: String| s@);
    let ghost max = max_tokens as nat;
    let mut splits: Vec<(usize, usize)> = Vec::new();
    splits.push((0, cs.len()));
    assert(spans_int(splits@) =~= refine_all(cs@, seps, max, 0));
    let mut k: usize = 0;
    while k < separators.len()
        invariant
            seps == separators@.map_values(|s: String| s@),
            max == max_tokens,
            k <= separators@.len(),
            spans_int(splits@) == refine_all(cs@, seps, max, k as int),
            spans_within(spans_int(splits@), cs@.len() as int),
        decreases separators@.len() - k,
    {
        let sep = chars_of(separators[k].as_str());
        assert(seps[k as int] == sep@);
        splits = refine_pass(cs, &splits, sep.as_slice(), max_tokens);
        k += 1;
    }
    splits
}

/// The chunks that merging the pieces of the spans gives.
fn merge_spans(cs: &[char], splits: &Vec<(usize, usize)>, max_tokens: usize) -> (r: Vec<Chunk>)
    requires
        byte_len(cs@) <= usize::MAX,
        spans_within(spans_int(splits@), cs@.len() as int),
    ensures
        ({
            let s = merge_run(cs@, spans_int(splits@), max_tokens as nat, splits@.len() as int);
            chunks_view(r@) == if trim(s.cur).len() > 0 {
                s.chunks.push(made(s.cur, s.index, start_or_zero(s.start)))
            } else {
                s.chunks
            }
        }),
        no_metadata(r@),
{
    let ghost sps = spans_int(splits@);
    let ghost max = max_tokens as nat;
    let mut chunks: Vec<Chunk> = Vec::new();
    let mut cur: Vec<char> = Vec::new();
    let mut start: Option<usize> = None;
    let mut index: usize = 0;
    let mut j: usize = 0;
    while j < splits.len()
        invariant
            byte_len(cs@) <= usize::MAX,
            max == max_tokens,
            sps == spans_int(splits@),
            spans_within(sps, cs@.len() as int),
            j <= splits@.len(),
            index <= j,
            ({
                let s = merge_run(cs@, sps, max, j as int);
                &&& chunks_view(chunks@) == s.chunks
                &&& cur@ == s.cur
                &&& opt_nat(start) == s.start
                &&& index == s.index
            }),
            no_metadata(chunks@),
        decreases splits@.len() - j,
    {
        let (a, b) = splits[j];
        assert(sps[j as int] == (a as int, b as int));
        let bo = byte_offset(cs, a);
        if start.is_none() {
            start = Some(bo);
        }
        let mut cand: Vec<char> = Vec::new();
        extend_chars(&mut cand, cur.as_slice());
        cand.push(' ');
        let piece = vstd::slice::slice_subrange(cs, a, b);
        extend_chars(&mut cand, piece);
        assert(cand@.subrange(0, cand@.len() as int) =~= cand@);
        assert(cand@ =~= cur@ + seq![' '] + cs@.subrange(a as int, b as int));
        if estimate_span(cand.as_slice(), 0, cand.len()) > max_tokens && cur.len() > 0 {
            let s0 = match start {
                Some(x) => x,
                None => 0,
            };
            let c = make_chunk(cur.as_slice(), 0, cur.len(), index, s0);
            assert(cur@.subrange(0, cur@.len() as int) =~= cur@);
            if !c.text.as_str().is_empty() {
                let ghost before = chunks_view(chunks@);
                chunks.push(c);
                assert(chunks_view(chunks@) =~= before.push(chunk_view(c)));
                index += 1;
            }
            cur = Vec::new();
            start = Some(bo);
        }
        if cur.len() > 0 {
            cur.push(' ');
        }
        extend_chars(&mut cur, piece);
        j += 1;
    }
    assert(cur@.subrange(0, cur@.len() as int) =~= cur@);
    let (a, b) = trim_bounds(cur.as_slice(), 0, cur.len());
    if a < b {
        let s0 = match start {
            Some(x) => x,
            None => 0,
        };
        let c = make_chunk(cur.as_slice(), 0, cur.len(), index, s0);
        let ghost before = chunks_view(chunks@);
        chunks.push(c);
        assert(chunks_view(chunks@) =~= before.push(chunk_view(c)));
    }
    chunks
}

/// Recursive character splitting on the separators in order.
fn recursive(text: &str, separators: &Vec<String>, max_tokens: usize) -> (r: Vec<Chunk>)
    requires
        byte_len(text@) <= usize::MAX,
    ensures
        chunks_view(r@) == recursive_chunks(text@, separators@.map_values(|s: String| s@), max_tokens as nat),
        no_metadata(r@),
        trim(text@).len() == 0 ==> r@.len() == 0,
{
    let cs = chars_of(text);
    let splits = split_all(cs.as_slice(), separators, max_tokens);
    proof {
        if trim(text@).len() == 0 {
            lemma_trim_empty_all_ws(text@);
            let sp = spans_int(splits@);
            lemma_merge_blank(cs@, sp, max_tokens as nat, sp.len() as int);
            lemma_trim_all_ws(merge_run(cs@, sp, max_tokens as nat, sp.len() as int).cur);
        }
    }
    merge_spans(cs.as_slice(), &splits, max_tokens)
}

/// Each chunk's text is not empty and is its own trim, and its estimate is
/// that of its text.
pub open spec fn well_made(cs: Seq<ChunkView>) -> bool {
    forall|i: int| #![trigger cs[i]] 0 <= i < cs.len() ==> cs[i].0.len() > 0 && trim(cs[i].0) == cs[i].0
        && cs[i].3 == token_estimate(cs[i].0)
}

/// The chunks are numbered from `first` on, one by one.
pub open spec fn numbered_from(cs: Seq<ChunkView>, first: nat) -> bool {
    forall|i: int| #![trigger cs[i]] 0 <= i < cs.len() ==> cs[i].1 == first + i
}

proof fn lemma_made(piece: Seq<char>, index: nat, start: nat)
    requires
        trim(piece).len() > 0,
    ensures
        well_made(seq![made(piece, index, start)]),
        made(piece, index, start).0.len() <= piece.len(),
{
    lemma_trim_idem(piece);
    lemma_trim_shape(piece);
    let c = made(piece, index, start);
    assert(seq![c][0] == c);
}

proof fn lemma_well_made_append(a: Seq<ChunkView>, b: Seq<ChunkView>)
    requires
        well_made(a),
        well_made(b),
    ensures
        well_made(a + b),
{
    assert forall|i: int| #![trigger (a + b)[i]] 0 <= i < (a + b).len() implies (a + b)[i].0.len() > 0
        && trim((a + b)[i].0) == (a + b)[i].0 && (a + b)[i].3 == token_estimate((a + b)[i].0) by {
        if i < a.len() {
            assert((a + b)[i] == a[i]);
        } else {
            assert((a + b)[i] == b[i - a.len()]);
        }
    }
}

proof fn lemma_fixed(cs: Seq<char>, size: nat, overlap: nat, start: nat, index: nat)
    ensures
        well_made(fixed_from(cs, size, overlap, start, index)),
        numbered_from(fixed_from(cs, size, overlap, start, index), index),
        forall|k: int| #![trigger fixed_from(cs, size, overlap, start, index)[k]]
            0 <= k < fixed_from(cs, size, overlap, start, index).len()
            ==> fixed_from(cs, size, overlap, start, index)[k].0.len() <= size,
        cs.len() == 0 ==> fixed_from(cs, size, overlap, start, index).len() == 0,
    decreases cs.len() - start,
{
    let f = fixed_from(cs, size, overlap, start, index);
    if size == 0 || start >= cs.len() {
    } else {
        let end = if start + size < cs.len() { start + size } else { cs.len() as nat };
        let piece = cs.subrange(start as int, end as int);
        let kept = trim(piece).len() > 0;
        let head = if kept { seq![made(piece, index, byte_len(cs.take(start as int)))] } else { Seq::<ChunkView>::empty() };
        if kept {
            lemma_made(piece, index, byte_len(cs.take(start as int)));
        }
        if end >= cs.len() {
            assert(f == head);
        } else {
            let next = if overlap >= size { start + 1 } else { (end - overlap) as nat };
            let ni = if kept { index + 1 } else { index };
            lemma_fixed(cs, size, overlap, next, ni);
            let rest = fixed_from(cs, size, overlap, next, ni);
            assert(f == head + rest);
            lemma_well_made_append(head, rest);
            assert forall|k: int| #![trigger f[k]] 0 <= k < f.len() implies f[k].1 == index + k && f[k].0.len() <= size by {
                if k < head.len() {
                    assert(f[k] == head[k]);
                } else {
                    assert(f[k] == rest[k - head.len()]);
                }
            }
        }
    }
}

proof fn lemma_para_chunks(cs: Seq<char>, spans: Seq<(usize, usize)>, n: int)
    ensures
        well_made(para_chunks(cs, spans, n)),
        numbered_from(para_chunks(cs, spans, n), 0),
    decreases n,
{
    if n > 0 {
        lemma_para_chunks(cs, spans, n - 1);
        let prev = para_chunks(cs, spans, n - 1);
        let piece = cs.subrange(spans[n - 1].0 as int, spans[n - 1].1 as int);
        if trim(piece).len() > 0 {
            let c = made(piece, prev.len(), byte_len(cs.take(spans[n - 1].0 as int)));
            lemma_made(piece, prev.len(), byte_len(cs.take(spans[n - 1].0 as int)));
            assert(prev.push(c) == prev + seq![c]);
            lemma_well_made_append(prev, seq![c]);
        }
    }
}

proof fn lemma_sent_run(ps: Seq<Seq<char>>, n: int, max: nat)
    ensures
        well_made(sent_run(ps, n, max).chunks),
        numbered_from(sent_run(ps, n, max).chunks, 0),
        sent_run(ps, n, max).index == sent_run(ps, n, max).chunks.len(),
    decreases n,
{
    if n > 0 {
        lemma_sent_run(ps, n - 1, max);
        let s = sent_run(ps, n - 1, max);
        if s.cur.len() > 0 && trim(s.cur).len() > 0 {
            let c = made(s.cur, s.index, s.start);
            lemma_made(s.cur, s.index, s.start);
            assert(s.chunks.push(c) == s.chunks + seq![c]);
            lemma_well_made_append(s.chunks, seq![c]);
        }
    }
}

proof fn lemma_merge_run(text: Seq<char>, sps: Seq<(int, int)>, max: nat, n: int)
    ensures
        well_made(merge_run(text, sps, max, n).chunks),
        numbered_from(merge_run(text, sps, max, n).chunks, 0),
        merge_run(text, sps, max, n).index == merge_run(text, sps, max, n).chunks.len(),
    decreases n,
{
    if n > 0 {
        lemma_merge_run(text, sps, max, n - 1);
        let s = merge_run(text, sps, max, n - 1);
        let b = byte_len(text.take(sps[n - 1].0));
        let s0 = if s.start is None { MergeState { start: Some(b), ..s } } else { s };
        if s0.cur.len() > 0 && trim(s0.cur).len() > 0 {
            let c = made(s0.cur, s0.index, start_or_zero(s0.start));
            lemma_made(s0.cur, s0.index, start_or_zero(s0.start));
            assert(s0.chunks.push(c) == s0.chunks + seq![c]);
            lemma_well_made_append(s0.chunks, seq![c]);
        }
    }
}

proof fn lemma_closing_chunk(chunks: Seq<ChunkView>, cur: Seq<char>, index: nat, start: nat)
    requires
        well_made(chunks),
        numbered_from(chunks, 0),
        index == chunks.len(),
    ensures
        ({
            let r = if trim(cur).len() > 0 { chunks.push(made(cur, index, start)) } else { chunks };
            well_made(r) && numbered_from(r, 0)
        }),
{
    if trim(cur).len() > 0 {
        lemma_made(cur, index, start);
        assert(chunks.push(made(cur, index, start)) == chunks + seq![made(cur, index, start)]);
        lemma_well_made_append(chunks, seq![made(cur, index, start)]);
    }
}

/// The chunks of every strategy are well made and numbered 0, 1, 2, ... by
/// their place in the list; fixed windows hold at most `size` chars.
pub proof fn chunk_laws(text: Seq<char>, strategy: ChunkStrategy)
    ensures
        well_made(strategy_chunks(text, strategy)),
        numbered_from(strategy_chunks(text, strategy), 0),
        strategy matches ChunkStrategy::Fixed { size, .. } ==> forall|k: int|
            #![trigger strategy_chunks(text, strategy)[k]] 0 <= k < strategy_chunks(text, strategy).len()
                ==> strategy_chunks(text, strategy)[k].0.len() <= size,
{
    match strategy {
        ChunkStrategy::Fixed { size, overlap } => {
            lemma_fixed(text, size as nat, overlap as nat, 0, 0);
        },
        ChunkStrategy::Sentence { max_tokens } => {
            let ps = sentence_bounds(text);
            lemma_sent_run(ps, ps.len() as int, max_tokens as nat);
            let s = sent_run(ps, ps.len() as int, max_tokens as nat);
            lemma_closing_chunk(s.chunks, s.cur, s.index, s.start);
        },
        ChunkStrategy::Semantic { target_tokens } => {
            let ps = sentence_bounds(text);
            lemma_sent_run(ps, ps.len() as int, target_tokens as nat);
            let s = sent_run(ps, ps.len() as int, target_tokens as nat);
            lemma_closing_chunk(s.chunks, s.cur, s.index, s.start);
        },
        ChunkStrategy::Paragraph => {
            lemma_para_chunks(text, para_spans(text), para_spans(text).len() as int);
        },
        ChunkStrategy::Recursive { separators, max_tokens } => {
            let seps = separators@.map_values(|s: String| s@);
            let sp = refine_all(text, seps, max_tokens as nat, seps.len() as int);
            lemma_merge_run(text, sp, max_tokens as nat, sp.len() as int);
            let s = merge_run(text, sp, max_tokens as nat, sp.len() as int);
            lemma_closing_chunk(s.chunks, s.cur, s.index, start_or_zero(s.start));
        },
    }
}

proof fn lemma_concat_blank(ps: Seq<Seq<char>>)
    requires
        forall|k: int| 0 <= k < concat(ps).len() ==> is_ws(#[trigger] concat(ps)[k]),
    ensures
        forall|i: int, k: int| 0 <= i < ps.len() && 0 <= k < ps[i].len() ==> is_ws(#[trigger] ps[i][k]),
    decreases ps.len(),
{
    if ps.len() > 0 {
        let d = ps.drop_last();
        assert(concat(ps) == concat(d) + ps.last());
        assert forall|k: int| 0 <= k < concat(d).len() implies is_ws(#[trigger] concat(d)[k]) by {
            assert(concat(d)[k] == concat(ps)[k]);
        }
        lemma_concat_blank(d);
        assert forall|i: int, k: int| 0 <= i < ps.len() && 0 <= k < ps[i].len() implies is_ws(#[trigger] ps[i][k]) by {
            if i < ps.len() - 1 {
                assert(ps[i] == d[i]);
            } else {
                assert(ps[i][k] == concat(ps)[concat(d).len() + k]);
            }
        }
    }
}

proof fn lemma_sent_run_blank(ps: Seq<Seq<char>>, n: int, max: nat)
    requires
        n <= ps.len(),
        forall|i: int, k: int| 0 <= i < ps.len() && 0 <= k < ps[i].len() ==> is_ws(#[trigger] ps[i][k]),
    ensures
        sent_run(ps, n, max).chunks.len() == 0,
        forall|k: int| 0 <= k < sent_run(ps, n, max).cur.len() ==> is_ws(#[trigger] sent_run(ps, n, max).cur[k]),
    decreases n,
{
    if n > 0 {
        lemma_sent_run_blank(ps, n - 1, max);
        let s = sent_run(ps, n - 1, max);
        lemma_trim_all_ws(s.cur);
        let p = ps[n - 1];
        let q = p.push(' ');
        assert forall|k: int| 0 <= k < q.len() implies is_ws(#[trigger] q[k]) by {
            if k < p.len() {
                assert(q[k] == ps[n - 1][k]);
            }
        }
        let t = sent_run(ps, n, max);
        if sentence_count(p) > 0 {
            let s1cur = if s.tokens + token_estimate(p) > max && s.cur.len() > 0 { Seq::<char>::empty() } else { s.cur };
            assert(t.cur == s1cur + q);
            assert forall|k: int| 0 <= k < t.cur.len() implies is_ws(#[trigger] t.cur[k]) by {
                if k < s1cur.len() {
                    assert(t.cur[k] == s1cur[k]);
                } else {
                    assert(t.cur[k] == q[k - s1cur.len()]);
                }
            }
        }
    }
}

/// Whitespace gives no sentence chunks: the pieces of a whitespace-only
/// text are whitespace only.
proof fn lemma_sentence_chunks_blank(text: Seq<char>, max: nat)
    requires
        concat(sentence_bounds(text)) == text,
        forall|k: int| 0 <= k < text.len() ==> is_ws(#[trigger] text[k]),
    ensures
        sentence_chunks(text, max).len() == 0,
{
    let ps = sentence_bounds(text);
    lemma_concat_blank(ps);
    lemma_sent_run_blank(ps, ps.len() as int, max);
    lemma_trim_all_ws(sent_run(ps, ps.len() as int, max).cur);
}

/// Whitespace gives no fixed-size chunks: every window is blank.
proof fn lemma_fixed_blank(cs: Seq<char>, size: nat, overlap: nat, start: nat, index: nat)
    requires
        forall|k: int| 0 <= k < cs.len() ==> is_ws(#[trigger] cs[k]),
    ensures
        fixed_from(cs, size, overlap, start, index).len() == 0,
    decreases cs.len() - start,
{
    if !(size == 0 || start >= cs.len()) {
        let end = if start + size < cs.len() { start + size } else { cs.len() as nat };
        let piece = cs.subrange(start as int, end as int);
        assert forall|k: int| 0 <= k < piece.len() implies is_ws(#[trigger] piece[k]) by {
            assert(piece[k] == cs[start + k]);
        }
        lemma_trim_all_ws(piece);
        if end < cs.len() {
            let next = if overlap >= size { start + 1 } else { (end - overlap) as nat };
            lemma_fixed_blank(cs, size, overlap, next, index);
            assert(fixed_from(cs, size, overlap, start, index) =~= Seq::<ChunkView>::empty() + fixed_from(cs, size, overlap, next, index));
        }
    }
}

/// Whitespace gives no paragraph chunks: every piece is blank.
proof fn lemma_para_blank(cs: Seq<char>, spans: Seq<(usize, usize)>, n: int)
    requires
        forall|k: int| 0 <= k < cs.len() ==> is_ws(#[trigger] cs[k]),
        forall|q: int| #![trigger spans[q]] 0 <= q < spans.len() ==> spans[q].0 <= spans[q].1 <= cs.len(),
        n <= spans.len(),
    ensures
        para_chunks(cs, spans, n).len() == 0,
    decreases n,
{
    if n > 0 {
        lemma_para_blank(cs, spans, n - 1);
        let sp = spans[n - 1];
        let piece = cs.subrange(sp.0 as int, sp.1 as int);
        assert forall|k: int| 0 <= k < piece.len() implies is_ws(#[trigger] piece[k]) by {
            assert(piece[k] == cs[sp.0 + k]);
        }
        lemma_trim_all_ws(piece);
    }
}

/// Whitespace gives no merged chunks: every piece, and so every group, is
/// blank.
proof fn lemma_merge_blank(text: Seq<char>, sps: Seq<(int, int)>, max: nat, n: int)
    requires
        forall|k: int| 0 <= k < text.len() ==> is_ws(#[trigger] text[k]),
        spans_within(sps, text.len() as int),
        n <= sps.len(),
    ensures
        merge_run(text, sps, max, n).chunks.len() == 0,
        forall|k: int| 0 <= k < merge_run(text, sps, max, n).cur.len() ==> is_ws(#[trigger] merge_run(text, sps, max, n).cur[k]),
    decreases n,
{
    if n > 0 {
        lemma_merge_blank(text, sps, max, n - 1);
        let s = merge_run(text, sps, max, n - 1);
        lemma_trim_all_ws(s.cur);
        let sp = sps[n - 1];
        let piece = text.subrange(sp.0, sp.1);
        assert forall|k: int| 0 <= k < piece.len() implies is_ws(#[trigger] piece[k]) by {
            assert(piece[k] == text[sp.0 + k]);
        }
        let t = merge_run(text, sps, max, n);
        let b = byte_len(text.take(sp.0));
        let s0 = if s.start is None { MergeState { start: Some(b), ..s } } else { s };
        let flush = token_estimate(s0.cur + seq![' '] + piece) > max && s0.cur.len() > 0;
        let c1 = if flush { Seq::<char>::empty() } else { s0.cur };
        assert(t.cur == if c1.len() > 0 { c1.push(' ') + piece } else { piece });
        if c1.len() > 0 {
            let q = c1.push(' ');
            assert forall|k: int| 0 <= k < t.cur.len() implies is_ws(#[trigger] t.cur[k]) by {
                if k < c1.len() {
                    assert(t.cur[k] == c1[k]);
                } else if k == c1.len() {
                    assert(t.cur[k] == ' ');
                } else {
                    assert(t.cur[k] == piece[k - q.len()]);
                }
            }
        }
    }
}

proof fn lemma_has_word(s: Seq<char>, n: int, k: int)
    requires
        0 <= k < n <= s.len(),
        !is_ws(s[k]),
    ensures
        words_upto(s, n) >= 1,
    decreases n,
{
    if k == n - 1 {
        if n - 1 > 0 && !is_ws(s[n - 2]) {
            lemma_has_word(s, n - 1, n - 2);
        }
    } else {
        lemma_has_word(s, n - 1, k);
    }
}

/// A text that is not blank has a positive token estimate.
pub proof fn estimate_positive(text: Seq<char>)
    requires
        trim(text).len() > 0,
    ensures
        token_estimate(text) >= 1,
{
    if forall|i: int| 0 <= i < text.len() ==> is_ws(#[trigger] text[i]) {
        lemma_trim_all_ws(text);
    }
    let k = choose|k: int| 0 <= k < text.len() && !is_ws(#[trigger] text[k]);
    lemma_has_word(text, text.len() as int, k);
}

/// How a document should be split into chunks.
#[derive(Debug, Clone)]
pub enum ChunkStrategy {
    /// Fixed-size character windows with optional overlap.
    Fixed { size: usize, overlap: usize },
    /// Group sentences until `max_tokens` is reached.
    Sentence { max_tokens: usize },
    /// One chunk per paragraph (split on blank lines).
    Paragraph,
    /// Recursive character splitting: try separators in order.
    Recursive { separators: Vec<String>, max_tokens: usize },
    /// Semantic-style: target a token budget with sentence boundaries
    /// (heuristic: sentences grouped like `Sentence`).
    Semantic { target_tokens: usize },
}

impl Default for ChunkStrategy {
    /// ~500-token sentence windows.
    fn default() -> (s: Self)
        ensures
            s == (ChunkStrategy::Sentence { max_tokens: 500 }),
    {
        ChunkStrategy::Sentence { max_tokens: 500 }
    }
}

/// The chunks that `strategy` makes of `text`.
pub open spec fn strategy_chunks(text: Seq<char>, strategy: ChunkStrategy) -> Seq<ChunkView> {
    match strategy {
        ChunkStrategy::Fixed { size, overlap } => fixed_from(text, size as nat, overlap as nat, 0, 0),
        ChunkStrategy::Sentence { max_tokens } => sentence_chunks(text, max_tokens as nat),
        ChunkStrategy::Paragraph => para_chunks(text, para_spans(text), para_spans(text).len() as int),
        ChunkStrategy::Recursive { separators, max_tokens } => recursive_chunks(
            text,
            separators@.map_values(|s: String| s@),
            max_tokens as nat,
        ),
        ChunkStrategy::Semantic { target_tokens } => sentence_chunks(text, target_tokens as nat),
    }
}

/// Splits text into chunks according to a [`ChunkStrategy`].
pub struct Chunker;

impl Chunker {
    /// The chunks of `text` by `strategy`.
    pub fn chunk(text: &str, strategy: &ChunkStrategy) -> (r: Vec<Chunk>)
        requires
            byte_len(text@) <= usize::MAX,
        ensures
            chunks_view(r@) == strategy_chunks(text@, *strategy),
            no_metadata(r@),
            trim(text@).len() == 0 ==> r@.len() == 0,
    {
        match strategy {
            ChunkStrategy::Fixed { size, overlap } => fixed_size(text, *size, *overlap),
            ChunkStrategy::Sentence { max_tokens } => by_sentences(text, *max_tokens),
            ChunkStrategy::Paragraph => by_paragraph(text),
            ChunkStrategy::Recursive { separators, max_tokens } => recursive(text, separators, *max_tokens),
            ChunkStrategy::Semantic { target_tokens } => by_sentences(text, *target_tokens),
        }
    }
}

/// A trait for exact tokenization. Implement to replace the heuristic estimate.
pub trait TokenCounter: Send + Sync {
    fn count(&self, text: &str) -> usize;
}

/// The default heuristic counter (words × 1.3).
pub struct HeuristicTokenCounter;

impl TokenCounter for HeuristicTokenCounter {
    fn count(&self, text: &str) -> (n: usize)
        ensures
            n == token_estimate(text@),
    {
        Chunk::estimate_tokens(text)
    }
}

} // verus!
