//! Key-value extraction by layout: form-style "Key: Value" lines and
//! aligned "Key    Value" columns.

use vstd::prelude::*;
use crate::models::{Field, KeyValueSet};
use crate::textutil::{
    alphabetic, byte_len, byte_len_capped, char_is_alphabetic, char_is_whitespace, char_lowercase,
    char_uppercase, chars_of, contains, count_char, count_of, count_words, find_char, find_from,
    first_of, is_ws, lines_of, line_spans, lowercase, string_from_chars, text_lines, trim,
    trim_bounds, uppercase, word_count,
};

verus! {

/// A usable key: 1 to 40 bytes, not ending in `.` or `,`, holding neither
/// `://` nor `@`, and starting with a letter.
pub open spec fn valid_key(key: Seq<char>) -> bool {
    &&& key.len() > 0
    &&& byte_len(key) <= 40
    &&& key.last() != '.'
    &&& key.last() != ','
    &&& !contains(key, "://"@)
    &&& !key.contains('@')
    &&& alphabetic(key[0])
}

/// A separator of title-cased words.
pub open spec fn word_break(c: char) -> bool {
    is_ws(c) || c == '_' || c == '-'
}

/// The end of the word at `i` of `s`: the first word break at or after `i`.
pub open spec fn word_end(s: Seq<char>, i: int) -> int
    decreases s.len() - i,
{
    if i < 0 || i >= s.len() || word_break(s[i]) {
        i
    } else {
        word_end(s, i + 1)
    }
}

/// Every char of `s[i..j]` is its own uppercase: an all-caps word such as
/// an acronym.
pub open spec fn all_caps(s: Seq<char>, i: int, j: int) -> bool {
    forall|k: int| i <= k < j ==> #[trigger] uppercase(s[k]) == seq![s[k]]
}

/// The title case of `s[..n]`, whether the next char starts a word, and
/// whether the word in progress is all caps.
pub open spec fn title_case_upto(s: Seq<char>, n: int) -> (Seq<char>, bool, bool)
    decreases n,
{
    if n <= 0 {
        (Seq::empty(), true, false)
    } else {
        let (out, fresh, caps) = title_case_upto(s, n - 1);
        let c = s[n - 1];
        if word_break(c) {
            (out.push(c), true, false)
        } else {
            let kept = if fresh { all_caps(s, n - 1, word_end(s, n - 1)) } else { caps };
            if kept {
                (out.push(c), false, true)
            } else if fresh {
                (out + uppercase(c), false, false)
            } else {
                (out + lowercase(c), false, false)
            }
        }
    }
}

/// `s` with all-caps words (acronyms) kept as they are, and in the other
/// words the first char uppercased and the others lowercased.
pub open spec fn title_case(s: Seq<char>) -> Seq<char> {
    title_case_upto(s, s.len() as int).0
}

/// A field as key, value and confidence.
pub open spec fn field_view(f: Field) -> (Seq<char>, Seq<char>, u32) {
    (f.key@, f.value@, f.confidence)
}

/// The fields of a key-value set.
pub open spec fn fields_view(fs: Seq<Field>) -> Seq<(Seq<char>, Seq<char>, u32)> {
    fs.map_values(|f: Field| field_view(f))
}

/// The field of a trimmed "Key: Value" line, split at its first colon.
pub open spec fn colon_pair(line: Seq<char>) -> Option<(Seq<char>, Seq<char>, u32)> {
    if !line.contains(':') {
        None
    } else {
        let p = first_of(line, ':');
        let key = trim(line.subrange(0, p));
        let value = trim(line.subrange(p + 1, line.len() as int));
        if !valid_key(key) || value.len() == 0 || count_char(value, '.') > 2 {
            None
        } else {
            Some((title_case(key), value, 900u32))
        }
    }
}

/// `k` is the first position after the start where two spaces begin.
pub open spec fn is_first_gap(line: Seq<char>, k: int) -> bool {
    &&& 1 <= k && k + 1 < line.len()
    &&& line[k] == ' ' && line[k + 1] == ' '
    &&& forall|j: int| 1 <= j < k ==> !(line[j] == ' ' && #[trigger] line[j + 1] == ' ')
}

/// The field of a trimmed "Key    Value" line, split at its first run of two
/// spaces after the start; the key is short, one to three words.
pub open spec fn aligned_pair(line: Seq<char>) -> Option<(Seq<char>, Seq<char>, u32)> {
    if !exists|k: int| is_first_gap(line, k) {
        None
    } else {
        let k = choose|k: int| is_first_gap(line, k);
        let key = trim(line.subrange(0, k));
        let value = trim(line.subrange(k, line.len() as int));
        if !valid_key(key) || value.len() == 0 || byte_len(value) > 100 || word_count(key) > 3 {
            None
        } else {
            Some((title_case(key), value, 750u32))
        }
    }
}

/// The fields found in `lines[..n]`: per non-blank line, its colon pair, or
/// else its aligned pair.
pub open spec fn kv_fields_upto(lines: Seq<Seq<char>>, n: int) -> Seq<(Seq<char>, Seq<char>, u32)>
    decreases n,
{
    if n <= 0 {
        Seq::empty()
    } else {
        let prev = kv_fields_upto(lines, n - 1);
        let t = trim(lines[n - 1]);
        if t.len() == 0 {
            prev
        } else {
            match colon_pair(t) {
                Some(f) => prev.push(f),
                None => match aligned_pair(t) {
                    Some(f) => prev.push(f),
                    None => prev,
                },
            }
        }
    }
}

/// The fields of a text.
pub open spec fn kv_fields(text: Seq<char>) -> Seq<(Seq<char>, Seq<char>, u32)> {
    kv_fields_upto(text_lines(text), text_lines(text).len() as int)
}

/// Whether `s[lo..hi]` is a usable key.
fn is_valid_key(s: &[char], lo: usize, hi: usize) -> (r: bool)
    requires
        lo <= hi <= s@.len(),
    ensures
        r == valid_key(s@.subrange(lo as int, hi as int)),
{
    let ghost key = s@.subrange(lo as int, hi as int);
    if lo == hi {
        return false;
    }
    match byte_len_capped(s, lo, hi, 40) {
        None => {
            return false;
        },
        Some(_) => {},
    }
    assert(key.last() == s@[hi - 1]);
    assert(key[0] == s@[lo as int]);
    if s[hi - 1] == '.' || s[hi - 1] == ',' {
        return false;
    }
    let sep = chars_of("://");
    proof {
        reveal_strlit("://");
    }
    match find_from(s, lo, hi, sep.as_slice()) {
        Some(i) => {
            proof {
                assert(sep@.len() == 3);
                assert(s@.take(hi as int).subrange(i as int, i + 3) =~= key.subrange(i - lo, i - lo + 3));
                assert(crate::textutil::occurs_at(key, "://"@, i - lo));
            }
            return false;
        },
        None => {
            proof {
                if contains(key, "://"@) {
                    let i = choose|i: int| crate::textutil::occurs_at(key, "://"@, i);
                    assert(s@.take(hi as int).subrange(i + lo, i + lo + 3) =~= key.subrange(i, i + 3));
                    assert(crate::textutil::occurs_at(s@.take(hi as int), sep@, i + lo));
                    assert(false);
                }
            }
        },
    }
    match find_char(s, lo, hi, '@') {
        Some(_) => {
            return false;
        },
        None => {},
    }
    char_is_alphabetic(s[lo])
}

/// Whether the word of `s[lo..hi]` that starts at `k` is all caps.
fn word_all_caps(s: &[char], lo: usize, k: usize, hi: usize) -> (r: bool)
    requires
        lo <= k < hi <= s@.len(),
    ensures
        ({
            let key = s@.subrange(lo as int, hi as int);
            r == all_caps(key, k - lo, word_end(key, k - lo))
        }),
{
    let ghost key = s@.subrange(lo as int, hi as int);
    let ghost i0 = k - lo;
    let mut e = k;
    let mut caps = true;
    while e < hi && !(char_is_whitespace(s[e]) || s[e] == '_' || s[e] == '-')
        invariant
            lo <= k <= e <= hi <= s@.len(),
            key == s@.subrange(lo as int, hi as int),
            i0 == k - lo,
            word_end(key, i0) == word_end(key, e - lo),
            caps == all_caps(key, i0, e - lo),
        decreases hi - e,
    {
        let c = s[e];
        let u = char_uppercase(c);
        assert(key[e - lo] == c);
        let same = u.len() == 1 && u[0] == c;
        assert(same == (uppercase(c) == seq![c])) by {
            if u.len() == 1 && u[0] == c {
                assert(u@ =~= seq![c]);
            }
        }
        caps = caps && same;
        e += 1;
        assert(caps == all_caps(key, i0, e - lo)) by {
            if !caps && all_caps(key, i0, e - lo) {
                if !same {
                    assert(uppercase(key[e - 1 - lo]) == seq![key[e - 1 - lo]]);
                }
            }
        }
    }
    proof {
        if e < hi {
            assert(key[e - lo] == s@[e as int]);
        }
        assert(word_end(key, e - lo) == e - lo);
    }
    caps
}

/// The title case of `s[lo..hi]`.
fn title_case_key(s: &[char], lo: usize, hi: usize) -> (r: String)
    requires
        lo <= hi <= s@.len(),
    ensures
        r@ == title_case(s@.subrange(lo as int, hi as int)),
{
    let ghost key = s@.subrange(lo as int, hi as int);
    let mut out: Vec<char> = Vec::new();
    let mut fresh = true;
    let mut caps = false;
    let mut k = lo;
    while k < hi
        invariant
            lo <= k <= hi <= s@.len(),
            key == s@.subrange(lo as int, hi as int),
            (out@, fresh, caps) == title_case_upto(key, k - lo),
        decreases hi - k,
    {
        let c = s[k];
        assert(key[k - lo] == c);
        if char_is_whitespace(c) || c == '_' || c == '-' {
            out.push(c);
            fresh = true;
            caps = false;
        } else {
            if fresh {
                caps = word_all_caps(s, lo, k, hi);
            }
            if caps {
                out.push(c);
            } else {
                let mapped = if fresh {
                    char_uppercase(c)
                } else {
                    char_lowercase(c)
                };
                let ghost before = out@;
                let mut j: usize = 0;
                while j < mapped.len()
                    invariant
                        j <= mapped@.len(),
                        out@ == before + mapped@.take(j as int),
                    decreases mapped@.len() - j,
                {
                    out.push(mapped[j]);
                    j += 1;
                    assert(out@ =~= before + mapped@.take(j as int));
                }
                assert(mapped@.take(j as int) =~= mapped@);
            }
            fresh = false;
        }
        k += 1;
    }
    string_from_chars(out.as_slice())
}

/// The field of a "Key: Value" line `s[lo..hi]`, trimmed and non-empty.
fn parse_colon_pair(s: &[char], lo: usize, hi: usize) -> (r: Option<Field>)
    requires
        lo <= hi <= s@.len(),
    ensures
        match r {
            Some(f) => colon_pair(s@.subrange(lo as int, hi as int)) == Some(field_view(f)),
            None => colon_pair(s@.subrange(lo as int, hi as int)) is None,
        },
{
    let ghost line = s@.subrange(lo as int, hi as int);
    let p = match find_char(s, lo, hi, ':') {
        Some(p) => lo + p,
        None => {
            return None;
        },
    };
    let (ka, kb) = trim_bounds(s, lo, p);
    let (va, vb) = trim_bounds(s, p + 1, hi);
    proof {
        assert(line.subrange(0, p - lo) =~= s@.subrange(lo as int, p as int));
        assert(line.subrange(p - lo + 1, line.len() as int) =~= s@.subrange(p + 1, hi as int));
    }
    if !is_valid_key(s, ka, kb) || va == vb {
        return None;
    }
    if count_of(s, va, vb, '.') > 2 {
        return None;
    }
    let key = title_case_key(s, ka, kb);
    let value = string_from_chars(vstd::slice::slice_subrange(s, va, vb));
    Some(Field { key, value, confidence: 900 })
}

/// The first position after the start of `s[lo..hi]` where two spaces begin.
fn first_gap(s: &[char], lo: usize, hi: usize) -> (r: Option<usize>)
    requires
        lo <= hi <= s@.len(),
    ensures
        match r {
            Some(k) => is_first_gap(s@.subrange(lo as int, hi as int), k as int),
            None => !exists|k: int| is_first_gap(s@.subrange(lo as int, hi as int), k),
        },
{
    let ghost line = s@.subrange(lo as int, hi as int);
    let n = hi - lo;
    if n < 2 {
        return None;
    }
    let mut k: usize = 1;
    while k < n - 1
        invariant
            lo <= hi <= s@.len(),
            n == hi - lo,
            n >= 2,
            line == s@.subrange(lo as int, hi as int),
            1 <= k <= n - 1,
            forall|j: int| 1 <= j < k ==> !(line[j] == ' ' && #[trigger] line[j + 1] == ' '),
        decreases n - k,
    {
        if s[lo + k] == ' ' && s[lo + k + 1] == ' ' {
            return Some(k);
        }
        k += 1;
    }
    proof {
        if exists|g: int| is_first_gap(line, g) {
            let g = choose|g: int| is_first_gap(line, g);
            assert(!(line[g] == ' ' && line[g + 1] == ' '));
        }
    }
    None
}

/// The field of a "Key    Value" line `s[lo..hi]`, trimmed and non-empty.
fn parse_aligned_pair(s: &[char], lo: usize, hi: usize) -> (r: Option<Field>)
    requires
        lo <= hi <= s@.len(),
    ensures
        match r {
            Some(f) => aligned_pair(s@.subrange(lo as int, hi as int)) == Some(field_view(f)),
            None => aligned_pair(s@.subrange(lo as int, hi as int)) is None,
        },
{
    let ghost line = s@.subrange(lo as int, hi as int);
    let k = match first_gap(s, lo, hi) {
        Some(k) => k,
        None => {
            return None;
        },
    };
    proof {
        let g = choose|g: int| is_first_gap(line, g);
        if g < k {
            assert(!(line[g] == ' ' && line[g + 1] == ' '));
        } else if g > k {
            assert(!(line[k as int] == ' ' && line[k + 1] == ' '));
        }
        assert(line.subrange(0, k as int) =~= s@.subrange(lo as int, lo + k));
        assert(line.subrange(k as int, line.len() as int) =~= s@.subrange(lo + k, hi as int));
    }
    let (ka, kb) = trim_bounds(s, lo, lo + k);
    let (va, vb) = trim_bounds(s, lo + k, hi);
    if !is_valid_key(s, ka, kb) || va == vb {
        return None;
    }
    match byte_len_capped(s, va, vb, 100) {
        None => {
            return None;
        },
        Some(_) => {},
    }
    if count_words(s, ka, kb) > 3 {
        return None;
    }
    let key = title_case_key(s, ka, kb);
    let value = string_from_chars(vstd::slice::slice_subrange(s, va, vb));
    Some(Field { key, value, confidence: 750 })
}

/// Layout analyzer for key-value extraction. Stateless.
pub struct LayoutAnalyzer;

impl Default for LayoutAnalyzer {
    fn default() -> Self {
        LayoutAnalyzer
    }
}

impl LayoutAnalyzer {
    pub fn new() -> Self {
        LayoutAnalyzer
    }

    /// Extract key-value pairs from text.
    pub fn extract_key_values(&self, text: &str) -> (r: KeyValueSet)
        ensures
            fields_view(r.fields@) == kv_fields(text@),
    {
        let chars = chars_of(text);
        let spans = lines_of(chars.as_slice());
        let ghost lines = text_lines(chars@);
        let mut fields: Vec<Field> = Vec::new();
        let mut i: usize = 0;
        while i < spans.len()
            invariant
                chars@ == text@,
                spans@ == line_spans(chars@),
                lines == text_lines(chars@),
                lines.len() == spans@.len(),
                forall|q: int| #![trigger spans@[q]] 0 <= q < spans@.len() ==> spans@[q].0 <= spans@[q].1 <= chars@.len(),
                i <= spans@.len(),
                fields_view(fields@) == kv_fields_upto(lines, i as int),
            decreases spans@.len() - i,
        {
            let (a, b) = spans[i];
            let (ta, tb) = trim_bounds(chars.as_slice(), a, b);
            assert(lines[i as int] == chars@.subrange(a as int, b as int));
            if ta < tb {
                let ghost before = fields_view(fields@);
                match parse_colon_pair(chars.as_slice(), ta, tb) {
                    Some(f) => {
                        fields.push(f);
                        assert(fields_view(fields@) =~= before.push(field_view(f)));
                    },
                    None => match parse_aligned_pair(chars.as_slice(), ta, tb) {
                        Some(f) => {
                            fields.push(f);
                            assert(fields_view(fields@) =~= before.push(field_view(f)));
                        },
                        None => {},
                    },
                }
            }
            i += 1;
        }
        KeyValueSet { fields }
    }
}

} // verus!
