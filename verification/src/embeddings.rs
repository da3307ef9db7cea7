//! Embeddings: the offline, key-less [`LocalHashEmbedder`] maps each token
//! of a text to a bucket and a sign by a deterministic hash (SimHash-style);
//! the vector is the signed bucket counts, L2-normalised. These vectors are
//! not semantically meaningful: they let the retrieval loop run offline.

use vstd::prelude::*;
use crate::textutil::{
    alphanumeric, byte_len, lowercase_string, str_lowercase, char_is_alphanumeric, char_width, chars_of, lemma_len_le_byte_len,
    string_from_chars, strs_view, utf8_width,
};

verus! {

/// Error returned by an embedding provider.
#[derive(Debug)]
pub enum EmbedError {
    NotConfigured(String),
    Request(String),
}

/// The message of an embedding error.
pub open spec fn embed_error_message(e: EmbedError) -> Seq<char> {
    match e {
        EmbedError::NotConfigured(m) => "embedding provider not configured: "@ + m@,
        EmbedError::Request(m) => "embedding request failed: "@ + m@,
    }
}

impl EmbedError {
    /// The error as a message.
    pub fn message(&self) -> (r: String)
        ensures
            r@ == embed_error_message(*self),
    {
        match self {
            EmbedError::NotConfigured(m) => {
                let mut s = "embedding provider not configured: ".to_owned();
                s.append(m.as_str());
                s
            },
            EmbedError::Request(m) => {
                let mut s = "embedding request failed: ".to_owned();
                s.append(m.as_str());
                s
            },
        }
    }
}

/// The tokens among the first `n` chars of `s`, and the piece under way:
/// pieces end at chars that are not alphanumeric, and those of more than
/// one byte are tokens.
pub open spec fn tokens_upto(s: Seq<char>, n: int) -> (Seq<Seq<char>>, Seq<char>)
    decreases n,
{
    if n <= 0 {
        (Seq::empty(), Seq::empty())
    } else {
        let (ts, cur) = tokens_upto(s, n - 1);
        let c = s[n - 1];
        if alphanumeric(c) {
            (ts, cur.push(c))
        } else {
            (if byte_len(cur) > 1 { ts.push(cur) } else { ts }, Seq::empty())
        }
    }
}

/// The pieces of `s` between chars that are not alphanumeric, of more than
/// one byte.
pub open spec fn word_tokens(s: Seq<char>) -> Seq<Seq<char>> {
    let (ts, cur) = tokens_upto(s, s.len() as int);
    if byte_len(cur) > 1 {
        ts.push(cur)
    } else {
        ts
    }
}

/// The tokens of a text: the alphanumeric runs of its lowercase of more than
/// one byte.
pub open spec fn text_tokens(text: Seq<char>) -> Seq<Seq<char>> {
    word_tokens(str_lowercase(text))
}

/// Whether `s` takes more than one byte.
fn more_than_one_byte(s: &Vec<char>) -> (r: bool)
    ensures
        r == (byte_len(s@) > 1),
{
    proof {
        lemma_len_le_byte_len(s@);
        if s@.len() == 1 {
            assert(s@.drop_last() =~= Seq::<char>::empty());
            assert(byte_len(s@.drop_last()) == 0);
            assert(byte_len(s@) == byte_len(s@.drop_last()) + utf8_width(s@.last()));
            assert(s@.last() == s@[0]);
        }
    }
    if s.len() >= 2 {
        true
    } else if s.len() == 1 {
        char_width(s[0]) > 1
    } else {
        false
    }
}

/// Simple lowercase tokenizer that drops punctuation and one-byte tokens.
pub fn tokenize(text: &str) -> (r: Vec<String>)
    ensures
        strs_view(r@) == text_tokens(text@),
        text@.len() == 0 ==> r@.len() == 0,
{
    let lower = lowercase_string(text);
    proof {
        if text@.len() == 0 {
            let (ts, cur) = tokens_upto(lower@, 0);
            assert(byte_len(cur) == 0);
        }
    }
    let cs = chars_of(lower.as_str());
    let mut out: Vec<String> = Vec::new();
    let mut cur: Vec<char> = Vec::new();
    let mut i: usize = 0;
    while i < cs.len()
        invariant
            i <= cs@.len(),
            (strs_view(out@), cur@) == tokens_upto(cs@, i as int),
        decreases cs@.len() - i,
    {
        let c = cs[i];
        if char_is_alphanumeric(c) {
            cur.push(c);
        } else {
            if more_than_one_byte(&cur) {
                let ghost before = strs_view(out@);
                let t = string_from_chars(cur.as_slice());
                out.push(t);
                assert(strs_view(out@) =~= before.push(cur@));
            }
            cur = Vec::new();
        }
        i += 1;
    }
    if more_than_one_byte(&cur) {
        let ghost before = strs_view(out@);
        let t = string_from_chars(cur.as_slice());
        out.push(t);
        assert(strs_view(out@) =~= before.push(cur@));
    }
    out
}

/// The FNV-1a hash of the first `n` bytes of `b`.
pub open spec fn fnv_upto(b: Seq<u8>, n: int) -> u64
    decreases n,
{
    if n <= 0 {
        0xcbf29ce484222325u64
    } else {
        (fnv_upto(b, n - 1) ^ (b[n - 1] as u64)).wrapping_mul(0x100000001b3u64)
    }
}

/// The FNV-1a hash of the UTF-8 bytes of `s`.
pub open spec fn fx_hash(s: Seq<char>) -> u64 {
    let b = vstd::utf8::encode_utf8(s);
    fnv_upto(b, b.len() as int)
}

/// A small, deterministic string hash (FNV-1a) of the UTF-8 bytes.
pub fn fxhash(s: &str) -> (h: u64)
    ensures
        h == fx_hash(s@),
{
    let b = s.as_bytes();
    let mut h: u64 = 0xcbf29ce484222325;
    let mut i: usize = 0;
    while i < b.len()
        invariant
            b@ == vstd::utf8::encode_utf8(s@),
            i <= b@.len(),
            h == fnv_upto(b@, i as int),
        decreases b@.len() - i,
    {
        h = (h ^ (b[i] as u64)).wrapping_mul(0x100000001b3);
        i += 1;
    }
    h
}

/// The bucket (among `dim`) and the sign (`true` for +1) of a token.
pub open spec fn token_feature(t: Seq<char>, dim: usize) -> (usize, bool) {
    let h = fx_hash(t);
    ((h % (dim as u64)) as usize, (h >> 32u64) % 2 == 0)
}

/// A key-less, offline embedder producing deterministic hash-based vectors.
///
/// Each token is hashed into one of `dim` buckets; the sign is derived from
/// a second part of the hash. Overlapping vocabulary between texts produces
/// positive cosine similarity. Not semantically meaningful.
pub struct LocalHashEmbedder {
    pub dim: usize,
}

impl Default for LocalHashEmbedder {
    fn default() -> (e: Self)
        ensures
            e.dim == 256,
    {
        LocalHashEmbedder { dim: 256 }
    }
}

impl LocalHashEmbedder {
    /// An embedder of `dim`-dimensional vectors.
    pub fn new(dim: usize) -> (e: Self)
        ensures
            e.dim == dim,
    {
        LocalHashEmbedder { dim }
    }

    /// The bucket and sign of each token of `text`, in order: the vector is
    /// the sum of the signed unit vectors of the buckets, normalised. `None`
    /// when there are tokens but no buckets (`dim` of 0), where embedding
    /// divides by zero.
    pub fn token_features(&self, text: &str) -> (r: Option<Vec<(usize, bool)>>)
        ensures
            match r {
                Some(v) => !(self.dim == 0 && text_tokens(text@).len() > 0)
                    && v@ == text_tokens(text@).map_values(|t: Seq<char>| token_feature(t, self.dim)),
                None => self.dim == 0 && text_tokens(text@).len() > 0,
            },
            text@.len() == 0 ==> (r matches Some(v) && v@.len() == 0),
    {
        let tokens = tokenize(text);
        if self.dim == 0 && tokens.len() > 0 {
            return None;
        }
        let ghost ts = text_tokens(text@);
        let mut out: Vec<(usize, bool)> = Vec::new();
        let mut i: usize = 0;
        while i < tokens.len()
            invariant
                ts == strs_view(tokens@),
                self.dim > 0 || tokens@.len() == 0,
                i <= tokens@.len(),
                out@ == ts.take(i as int).map_values(|t: Seq<char>| token_feature(t, self.dim)),
            decreases tokens@.len() - i,
        {
            let h = fxhash(tokens[i].as_str());
            let bucket = (h % (self.dim as u64)) as usize;
            let positive = (h >> 32) % 2 == 0;
            assert(ts[i as int] == tokens@[i as int]@);
            out.push((bucket, positive));
            i += 1;
            assert(out@ =~= ts.take(i as int).map_values(|t: Seq<char>| token_feature(t, self.dim)));
        }
        assert(ts.take(i as int) =~= ts);
        Some(out)
    }
}

/// An embedder backed by an HTTP service, configured by endpoint, key and
/// model; its requests are not wired.
pub struct HttpEmbedder {
    pub endpoint: Option<String>,
    pub api_key: Option<String>,
    pub model: Option<String>,
    pub dim: usize,
}

} // verus!
