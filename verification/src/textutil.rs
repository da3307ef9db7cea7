//! Character and string primitives shared by the parsers, the extractor
//! and the chunker. Text is modelled as `Seq<char>`.

use vstd::prelude::*;

verus! {

/// The Unicode `White_Space` property, which `char::is_whitespace` tests.
pub open spec fn is_ws(c: char) -> bool {
    ||| ('\u{9}' <= c && c <= '\u{d}')
    ||| c == ' '
    ||| c == '\u{85}'
    ||| c == '\u{a0}'
    ||| c == '\u{1680}'
    ||| ('\u{2000}' <= c && c <= '\u{200a}')
    ||| c == '\u{2028}'
    ||| c == '\u{2029}'
    ||| c == '\u{202f}'
    ||| c == '\u{205f}'
    ||| c == '\u{3000}'
}

/// `char::is_whitespace`.
pub fn char_is_whitespace(c: char) -> (r: bool)
    ensures
        r == is_ws(c),
{
    ('\u{9}' <= c && c <= '\u{d}') || c == ' ' || c == '\u{85}' || c == '\u{a0}' || c == '\u{1680}'
        || ('\u{2000}' <= c && c <= '\u{200a}') || c == '\u{2028}' || c == '\u{2029}' || c
        == '\u{202f}' || c == '\u{205f}' || c == '\u{3000}'
}

/// `char::is_ascii_digit`.
pub open spec fn is_digit(c: char) -> bool {
    '0' <= c && c <= '9'
}

/// The chars of a string slice, in order.
pub fn chars_of(s: &str) -> (v: Vec<char>)
    ensures
        v@ == s@,
{
    broadcast use vstd::string::group_string_axioms;
    let mut v: Vec<char> = Vec::new();
    let chars_it = s.chars();
    for c in it: chars_it
        invariant
            v@ == it.seq().take(it.index()),
            it.seq() == s@,
    {
        v.push(c);
    }
    v
}


/// A string made of the given chars (`String: FromIterator<&char>`).
#[verifier::external_body]
pub(crate) fn string_from_chars(v: &[char]) -> (s: String)
    ensures
        s@ == v@,
{
    v.iter().collect()
}

/// `s` with its leading whitespace removed (`str::trim_start`).
pub open spec fn trim_start(s: Seq<char>) -> Seq<char>
    decreases s.len(),
{
    if s.len() > 0 && is_ws(s[0]) {
        trim_start(s.drop_first())
    } else {
        s
    }
}

/// `s` with its trailing whitespace removed (`str::trim_end`).
pub open spec fn trim_end(s: Seq<char>) -> Seq<char>
    decreases s.len(),
{
    if s.len() > 0 && is_ws(s.last()) {
        trim_end(s.drop_last())
    } else {
        s
    }
}

/// `str::trim`.
pub open spec fn trim(s: Seq<char>) -> Seq<char> {
    trim_end(trim_start(s))
}

proof fn lemma_trim_start_shape(s: Seq<char>)
    ensures
        trim_start(s).len() <= s.len(),
        trim_start(s).len() == 0 || !is_ws(trim_start(s)[0]),
        trim_start(s) == s.skip(s.len() - trim_start(s).len()),
    decreases s.len(),
{
    if s.len() > 0 && is_ws(s[0]) {
        lemma_trim_start_shape(s.drop_first());
        assert(s.drop_first().skip(s.drop_first().len() - trim_start(s.drop_first()).len())
            =~= s.skip(s.len() - trim_start(s.drop_first()).len()));
    } else {
        assert(s.skip(0) =~= s);
    }
}

proof fn lemma_trim_end_shape(s: Seq<char>)
    ensures
        trim_end(s).len() <= s.len(),
        trim_end(s).len() == 0 || !is_ws(trim_end(s).last()),
        trim_end(s) == s.take(trim_end(s).len() as int),
    decreases s.len(),
{
    if s.len() > 0 && is_ws(s.last()) {
        lemma_trim_end_shape(s.drop_last());
        assert(s.drop_last().take(trim_end(s.drop_last()).len() as int) =~= s.take(trim_end(s.drop_last()).len() as int));
    } else {
        assert(s.take(s.len() as int) =~= s);
    }
}

/// The trim of a text is no longer than it, and begins and ends with
/// non-whitespace (or is empty).
pub proof fn lemma_trim_shape(s: Seq<char>)
    ensures
        trim(s).len() <= s.len(),
        trim(s).len() == 0 || (!is_ws(trim(s)[0]) && !is_ws(trim(s).last())),
{
    lemma_trim_start_shape(s);
    lemma_trim_end_shape(trim_start(s));
    let t = trim_start(s);
    let u = trim_end(t);
    if u.len() > 0 {
        assert(u[0] == t[0]);
    }
}

/// Trimming twice is trimming once.
pub proof fn lemma_trim_idem(s: Seq<char>)
    ensures
        trim(trim(s)) == trim(s),
{
    lemma_trim_shape(s);
    let u = trim(s);
    assert(trim_start(u) == u);
    assert(trim_end(u) == u);
}

/// A text of whitespace only trims to nothing.
pub proof fn lemma_trim_all_ws(s: Seq<char>)
    requires
        forall|i: int| 0 <= i < s.len() ==> is_ws(#[trigger] s[i]),
    ensures
        trim(s).len() == 0,
    decreases s.len(),
{
    if s.len() > 0 {
        lemma_trim_all_ws(s.drop_first());
        assert(trim_start(s) == trim_start(s.drop_first()));
        lemma_trim_start_shape(s.drop_first());
        lemma_trim_start_shape(s);
        if trim_start(s).len() > 0 {
            assert(trim_start(s) == s.skip(s.len() - trim_start(s).len()));
            assert(trim_start(s)[0] == s[s.len() - trim_start(s).len()]);
        }
    }
}

proof fn lemma_trim_end_empty(s: Seq<char>)
    requires
        trim_end(s).len() == 0,
    ensures
        forall|i: int| 0 <= i < s.len() ==> is_ws(#[trigger] s[i]),
    decreases s.len(),
{
    if s.len() > 0 {
        assert(is_ws(s.last()));
        lemma_trim_end_empty(s.drop_last());
        assert forall|i: int| 0 <= i < s.len() implies is_ws(#[trigger] s[i]) by {
            if i < s.len() - 1 {
                assert(s[i] == s.drop_last()[i]);
            }
        }
    }
}

/// A text that trims to nothing is whitespace only.
pub proof fn lemma_trim_empty_all_ws(s: Seq<char>)
    requires
        trim(s).len() == 0,
    ensures
        forall|i: int| 0 <= i < s.len() ==> is_ws(#[trigger] s[i]),
    decreases s.len(),
{
    if s.len() > 0 {
        if is_ws(s[0]) {
            assert(trim_start(s) == trim_start(s.drop_first()));
            lemma_trim_empty_all_ws(s.drop_first());
            assert forall|i: int| 0 <= i < s.len() implies is_ws(#[trigger] s[i]) by {
                if i > 0 {
                    assert(s[i] == s.drop_first()[i - 1]);
                }
            }
        } else {
            assert(trim_start(s) == s);
            lemma_trim_end_empty(s);
        }
    }
}

/// The bounds of `trim(s[lo..hi])` inside `s`.
pub fn trim_bounds(s: &[char], lo: usize, hi: usize) -> (r: (usize, usize))
    requires
        lo <= hi <= s@.len(),
    ensures
        lo <= r.0 <= r.1 <= hi,
        s@.subrange(r.0 as int, r.1 as int) == trim(s@.subrange(lo as int, hi as int)),
        trim_start(s@.subrange(lo as int, hi as int)) == s@.subrange(r.0 as int, hi as int),
{
    let mut i = lo;
    while i < hi && char_is_whitespace(s[i])
        invariant
            lo <= i <= hi <= s@.len(),
            trim_start(s@.subrange(lo as int, hi as int)) == trim_start(s@.subrange(i as int, hi as int)),
        decreases hi - i,
    {
        assert(s@.subrange(i as int, hi as int).drop_first() =~= s@.subrange(i + 1, hi as int));
        i += 1;
    }
    assert(trim_start(s@.subrange(i as int, hi as int)) == s@.subrange(i as int, hi as int));
    let mut j = hi;
    while j > i && char_is_whitespace(s[j - 1])
        invariant
            lo <= i <= j <= hi <= s@.len(),
            trim_end(s@.subrange(i as int, hi as int)) == trim_end(s@.subrange(i as int, j as int)),
        decreases j - i,
    {
        assert(s@.subrange(i as int, j as int).drop_last() =~= s@.subrange(i as int, j - 1));
        j -= 1;
    }
    (i, j)
}

/// The number of UTF-8 bytes that encode `c`.
pub open spec fn utf8_width(c: char) -> nat {
    let v = c as u32;
    if v <= 0x7f {
        1
    } else if v <= 0x7ff {
        2
    } else if v <= 0xffff {
        3
    } else {
        4
    }
}

/// The number of UTF-8 bytes that encode `s` (`str::len`).
pub open spec fn byte_len(s: Seq<char>) -> nat
    decreases s.len(),
{
    if s.len() == 0 {
        0
    } else {
        byte_len(s.drop_last()) + utf8_width(s.last())
    }
}

/// `char::len_utf8`.
pub fn char_width(c: char) -> (w: usize)
    ensures
        w == utf8_width(c),
        1 <= w <= 4,
{
    let v = c as u32;
    if v <= 0x7f {
        1
    } else if v <= 0x7ff {
        2
    } else if v <= 0xffff {
        3
    } else {
        4
    }
}

/// `byte_len` grows with the prefix.
pub proof fn lemma_byte_len_prefix(s: Seq<char>, i: int, j: int)
    requires
        0 <= i <= j <= s.len(),
    ensures
        byte_len(s.take(i)) <= byte_len(s.take(j)),
    decreases j - i,
{
    if i < j {
        assert(s.take(j).drop_last() =~= s.take(j - 1));
        lemma_byte_len_prefix(s, i, j - 1);
    }
}

/// The number of UTF-8 bytes of `s[lo..hi]`, or `None` once it passes `cap`.
pub fn byte_len_capped(s: &[char], lo: usize, hi: usize, cap: usize) -> (r: Option<usize>)
    requires
        lo <= hi <= s@.len(),
    ensures
        match r {
            Some(n) => n == byte_len(s@.subrange(lo as int, hi as int)) && n <= cap,
            None => byte_len(s@.subrange(lo as int, hi as int)) > cap,
        },
{
    let mut n: usize = 0;
    let mut k = lo;
    while k < hi
        invariant
            lo <= k <= hi <= s@.len(),
            n == byte_len(s@.subrange(lo as int, k as int)),
            n <= cap,
        decreases hi - k,
    {
        let w = char_width(s[k]);
        assert(s@.subrange(lo as int, k + 1).drop_last() =~= s@.subrange(lo as int, k as int));
        if w > cap - n {
            proof {
                let t = s@.subrange(lo as int, hi as int);
                assert(s@.subrange(lo as int, k + 1) =~= t.take(k + 1 - lo));
                lemma_byte_len_prefix(t, k + 1 - lo, hi - lo);
                assert(t.take(hi - lo) =~= t);
            }
            return None;
        }
        n = n + w;
        k += 1;
    }
    Some(n)
}


/// `s` begins with `p`.
pub open spec fn starts_with(s: Seq<char>, p: Seq<char>) -> bool {
    p.len() <= s.len() && s.take(p.len() as int) == p
}

/// `p` occurs in `s` at position `i`.
pub open spec fn occurs_at(s: Seq<char>, p: Seq<char>, i: int) -> bool {
    0 <= i && i + p.len() <= s.len() && s.subrange(i, i + p.len()) == p
}

/// `p` occurs somewhere in `s` (`str::contains`).
pub open spec fn contains(s: Seq<char>, p: Seq<char>) -> bool {
    exists|i: int| occurs_at(s, p, i)
}

/// `s[lo..hi]` begins with `p`.
pub fn has_prefix(s: &[char], lo: usize, hi: usize, p: &[char]) -> (r: bool)
    requires
        lo <= hi <= s@.len(),
    ensures
        r == starts_with(s@.subrange(lo as int, hi as int), p@),
{
    if p.len() > hi - lo {
        return false;
    }
    let mut k: usize = 0;
    while k < p.len()
        invariant
            p@.len() <= hi - lo,
            lo <= hi <= s@.len(),
            k <= p@.len(),
            forall|j: int| 0 <= j < k ==> s@[lo + j] == p@[j],
        decreases p@.len() - k,
    {
        if s[lo + k] != p[k] {
            assert(s@.subrange(lo as int, hi as int).take(p@.len() as int)[k as int] != p@[k as int]);
            return false;
        }
        k += 1;
    }
    assert(s@.subrange(lo as int, hi as int).take(p@.len() as int) =~= p@);
    true
}

/// The first position `i` in `[lo, hi]` at which `p` occurs inside `s[..hi]`.
pub fn find_from(s: &[char], lo: usize, hi: usize, p: &[char]) -> (r: Option<usize>)
    requires
        lo <= hi <= s@.len(),
        p@.len() > 0,
    ensures
        match r {
            Some(i) => lo <= i && occurs_at(s@.take(hi as int), p@, i as int) && forall|j: int|
                lo <= j < i ==> !occurs_at(s@.take(hi as int), p@, j),
            None => forall|j: int| lo <= j ==> !occurs_at(s@.take(hi as int), p@, j),
        },
{
    if p.len() > hi {
        return None;
    }
    let last = hi - p.len();
    let mut i = lo;
    while i <= last
        invariant
            lo <= hi <= s@.len(),
            0 < p@.len() <= hi,
            last == hi - p@.len(),
            lo <= i,
            forall|j: int| lo <= j < i ==> !occurs_at(s@.take(hi as int), p@, j),
        decreases last + 1 - i,
    {
        if has_prefix(s, i, hi, p) {
            assert(s@.subrange(i as int, hi as int).take(p@.len() as int) =~= s@.take(hi as int).subrange(
                i as int,
                i + p@.len(),
            ));
            return Some(i);
        }
        assert(s@.subrange(i as int, hi as int).take(p@.len() as int) =~= s@.take(hi as int).subrange(
            i as int,
            i + p@.len(),
        ));
        i += 1;
    }
    None
}

/// The `(start, end)` char positions of the lines of `s[..n]` that are
/// already ended by a `'\n'`, and the start of the line in progress.
pub open spec fn lines_upto(s: Seq<char>, n: int) -> (Seq<(usize, usize)>, usize)
    decreases n,
{
    if n <= 0 {
        (Seq::empty(), 0)
    } else {
        let (v, st) = lines_upto(s, n - 1);
        if s[n - 1] == '\n' {
            let end = if n - 1 > st && s[n - 2] == '\r' { n - 2 } else { n - 1 };
            (v.push((st, end as usize)), n as usize)
        } else {
            (v, st)
        }
    }
}

/// The `(start, end)` char positions of the lines of `s` (`str::lines`): the
/// line terminator, `"\n"` or `"\r\n"`, is not part of a line, and a final
/// empty line is not reported.
pub open spec fn line_spans(s: Seq<char>) -> Seq<(usize, usize)> {
    let (v, st) = lines_upto(s, s.len() as int);
    if st < s.len() {
        v.push((st, s.len() as usize))
    } else {
        v
    }
}

proof fn lemma_lines_upto_bounds(s: Seq<char>, n: int)
    requires
        0 <= n <= s.len(),
        s.len() <= usize::MAX,
    ensures
        lines_upto(s, n).1 <= n,
        forall|k: int| 0 <= k < lines_upto(s, n).0.len() ==> #[trigger] lines_upto(s, n).0[k].0 <= lines_upto(s, n).0[k].1 <= lines_upto(s, n).1,
    decreases n,
{
    if n > 0 {
        lemma_lines_upto_bounds(s, n - 1);
    }
}

/// The spans of the lines of `s`, as `line_spans` gives them.
pub fn lines_of(s: &[char]) -> (r: Vec<(usize, usize)>)
    ensures
        r@ == line_spans(s@),
        forall|k: int| #![trigger r@[k]] 0 <= k < r@.len() ==> r@[k].0 <= r@[k].1 <= s@.len(),
{
    let mut v: Vec<(usize, usize)> = Vec::new();
    let mut st: usize = 0;
    let mut i: usize = 0;
    while i < s.len()
        invariant
            i <= s@.len(),
            (v@, st) == lines_upto(s@, i as int),
            st <= i,
            forall|k: int| #![trigger v@[k]] 0 <= k < v@.len() ==> v@[k].0 <= v@[k].1 <= st,
        decreases s@.len() - i,
    {
        if s[i] == '\n' {
            let end = if i > st && s[i - 1] == '\r' { i - 1 } else { i };
            let ghost old_v = v@;
            assert(forall|k: int| #![trigger old_v[k]] 0 <= k < old_v.len() ==> old_v[k].0 <= old_v[k].1 <= st);
            v.push((st, end));
            assert(st <= end <= i);
            assert forall|k: int| #![trigger v@[k]] 0 <= k < v@.len() implies v@[k].0 <= v@[k].1 <= i + 1 by {
                if k < old_v.len() {
                    assert(v@[k] == old_v[k]);
                    assert(old_v[k].1 <= st);
                } else {
                    assert(v@[k] == (st, end));
                }
            }
            st = i + 1;
        }
        i += 1;
    }
    if st < s.len() {
        let ghost old_v = v@;
        v.push((st, s.len()));
        assert forall|k: int| #![trigger v@[k]] 0 <= k < v@.len() implies v@[k].0 <= v@[k].1 <= s@.len() by {
            if k < old_v.len() {
                assert(v@[k] == old_v[k]);
            }
        }
    }
    v
}

/// `s[i]` begins a whitespace-separated word.
pub open spec fn word_start(s: Seq<char>, i: int) -> bool {
    0 <= i < s.len() && !is_ws(s[i]) && (i == 0 || is_ws(s[i - 1]))
}

/// The number of words that begin in `s[..n]`.
pub open spec fn words_upto(s: Seq<char>, n: int) -> nat
    decreases n,
{
    if n <= 0 {
        0
    } else {
        words_upto(s, n - 1) + if word_start(s, n - 1) { 1nat } else { 0nat }
    }
}

/// The number of whitespace-separated words of `s` (`split_whitespace().count()`).
pub open spec fn word_count(s: Seq<char>) -> nat {
    words_upto(s, s.len() as int)
}

proof fn lemma_words_upto_bound(s: Seq<char>, n: int)
    requires
        0 <= n,
    ensures
        words_upto(s, n) <= n,
    decreases n,
{
    if n > 0 {
        lemma_words_upto_bound(s, n - 1);
    }
}

/// The number of whitespace-separated words of `s[lo..hi]`.
pub fn count_words(s: &[char], lo: usize, hi: usize) -> (n: usize)
    requires
        lo <= hi <= s@.len(),
    ensures
        n == word_count(s@.subrange(lo as int, hi as int)),
{
    let ghost t = s@.subrange(lo as int, hi as int);
    let mut n: usize = 0;
    let mut k = lo;
    while k < hi
        invariant
            lo <= k <= hi <= s@.len(),
            t == s@.subrange(lo as int, hi as int),
            n == words_upto(t, k - lo),
        decreases hi - k,
    {
        proof {
            lemma_words_upto_bound(t, k - lo);
        }
        let ws = char_is_whitespace(s[k]);
        if !ws && (k == lo || char_is_whitespace(s[k - 1])) {
            n = n + 1;
        }
        k += 1;
    }
    n
}

/// An ASCII char.
pub open spec fn is_ascii(c: char) -> bool {
    (c as u32) < 128
}

/// An ASCII letter.
pub open spec fn ascii_letter(c: char) -> bool {
    (65 <= (c as u32) <= 90) || (97 <= (c as u32) <= 122)
}

/// The ASCII lowercase of `c`: `A` to `Z` become `a` to `z`, other chars
/// stay as they are.
pub open spec fn ascii_lower(c: char) -> char {
    if 65 <= (c as u32) <= 90 {
        ((c as u32) + 32) as char
    } else {
        c
    }
}

/// The ASCII uppercase of `c`: `a` to `z` become `A` to `Z`, other chars
/// stay as they are.
pub open spec fn ascii_upper(c: char) -> char {
    if 97 <= (c as u32) <= 122 {
        ((c as u32) - 32) as char
    } else {
        c
    }
}

/// The chars of `char::to_lowercase` of a char outside ASCII.
pub uninterp spec fn unicode_lowercase(c: char) -> Seq<char>;

/// The chars of `char::to_uppercase` of a char outside ASCII.
pub uninterp spec fn unicode_uppercase(c: char) -> Seq<char>;

/// The chars of `char::to_lowercase(c)`: for an ASCII char its ASCII
/// lowercase, alone.
pub open spec fn lowercase(c: char) -> Seq<char> {
    if is_ascii(c) {
        seq![ascii_lower(c)]
    } else {
        unicode_lowercase(c)
    }
}

/// The chars of `char::to_uppercase(c)`: for an ASCII char its ASCII
/// uppercase, alone.
pub open spec fn uppercase(c: char) -> Seq<char> {
    if is_ascii(c) {
        seq![ascii_upper(c)]
    } else {
        unicode_uppercase(c)
    }
}

/// `char::to_lowercase`, collected: the Unicode lowercase mapping of `c`.
/// Unicode maps an ASCII char to its ASCII lowercase (`A` to `Z` to `a` to
/// `z`, every other ASCII char to itself), as std documents; the mapping of
/// other chars is named, not stated.
#[verifier::external_body]
pub(crate) fn char_lowercase(c: char) -> (r: Vec<char>)
    ensures
        r@ == lowercase(c),
        !is_ascii(c) ==> r@ == unicode_lowercase(c),
{
    c.to_lowercase().collect()
}

/// `char::to_uppercase`, collected: the Unicode uppercase mapping of `c`.
/// Unicode maps an ASCII char to its ASCII uppercase (`a` to `z` to `A` to
/// `Z`, every other ASCII char to itself), as std documents; the mapping of
/// other chars is named, not stated.
#[verifier::external_body]
pub(crate) fn char_uppercase(c: char) -> (r: Vec<char>)
    ensures
        r@ == uppercase(c),
        !is_ascii(c) ==> r@ == unicode_uppercase(c),
{
    c.to_uppercase().collect()
}

/// Whether a char outside ASCII has the Unicode `Alphabetic` property.
pub uninterp spec fn unicode_alphabetic(c: char) -> bool;

/// Whether a char outside ASCII is alphabetic or numeric.
pub uninterp spec fn unicode_alphanumeric(c: char) -> bool;

/// `char::is_alphabetic`: among ASCII chars, the letters.
pub open spec fn alphabetic(c: char) -> bool {
    if is_ascii(c) {
        ascii_letter(c)
    } else {
        unicode_alphabetic(c)
    }
}

/// `char::is_alphanumeric`: among ASCII chars, the letters and digits.
pub open spec fn alphanumeric(c: char) -> bool {
    if is_ascii(c) {
        ascii_letter(c) || (48 <= (c as u32) <= 57)
    } else {
        unicode_alphanumeric(c)
    }
}

/// `char::is_alphabetic`: the Unicode `Alphabetic` property, which among
/// ASCII chars holds of the letters alone; for other chars it is named, not
/// stated.
#[verifier::external_body]
pub(crate) fn char_is_alphabetic(c: char) -> (r: bool)
    ensures
        r == alphabetic(c),
        !is_ascii(c) ==> r == unicode_alphabetic(c),
{
    c.is_alphabetic()
}

/// `char::is_alphanumeric`: `Alphabetic` or a numeric general category,
/// which among ASCII chars holds of the letters and digits alone; for other
/// chars it is named, not stated.
#[verifier::external_body]
pub(crate) fn char_is_alphanumeric(c: char) -> (r: bool)
    ensures
        r == alphanumeric(c),
        !is_ascii(c) ==> r == unicode_alphanumeric(c),
{
    c.is_alphanumeric()
}

/// The pieces of `s[..n]` that are already ended by `sep`, as spans, and the
/// start of the piece in progress.
pub open spec fn split_upto(s: Seq<char>, sep: char, n: int) -> (Seq<(usize, usize)>, usize)
    decreases n,
{
    if n <= 0 {
        (Seq::empty(), 0)
    } else {
        let (v, st) = split_upto(s, sep, n - 1);
        if s[n - 1] == sep {
            (v.push((st, (n - 1) as usize)), n as usize)
        } else {
            (v, st)
        }
    }
}

/// The spans of the pieces of `s` between occurrences of `sep` (`str::split`);
/// there is always one more piece than there are separators.
pub open spec fn split_spans(s: Seq<char>, sep: char) -> Seq<(usize, usize)> {
    let (v, st) = split_upto(s, sep, s.len() as int);
    v.push((st, s.len() as usize))
}

/// The spans of the pieces of `s` between occurrences of `sep`.
pub fn split_on(s: &[char], sep: char) -> (r: Vec<(usize, usize)>)
    ensures
        r@ == split_spans(s@, sep),
        forall|k: int| #![trigger r@[k]] 0 <= k < r@.len() ==> r@[k].0 <= r@[k].1 <= s@.len(),
{
    let mut v: Vec<(usize, usize)> = Vec::new();
    let mut st: usize = 0;
    let mut i: usize = 0;
    while i < s.len()
        invariant
            i <= s@.len(),
            (v@, st) == split_upto(s@, sep, i as int),
            st <= i,
            forall|k: int| #![trigger v@[k]] 0 <= k < v@.len() ==> v@[k].0 <= v@[k].1 <= st,
        decreases s@.len() - i,
    {
        if s[i] == sep {
            let ghost old_v = v@;
            assert(forall|k: int| #![trigger old_v[k]] 0 <= k < old_v.len() ==> old_v[k].0 <= old_v[k].1 <= st);
            v.push((st, i));
            assert forall|k: int| #![trigger v@[k]] 0 <= k < v@.len() implies v@[k].0 <= v@[k].1 <= i + 1 by {
                if k < old_v.len() {
                    assert(v@[k] == old_v[k]);
                } else {
                    assert(v@[k] == (st, i));
                }
            }
            st = i + 1;
        }
        i += 1;
    }
    let ghost old_v = v@;
    assert(forall|k: int| #![trigger old_v[k]] 0 <= k < old_v.len() ==> old_v[k].0 <= old_v[k].1 <= st);
    v.push((st, s.len()));
    assert forall|k: int| #![trigger v@[k]] 0 <= k < v@.len() implies v@[k].0 <= v@[k].1 <= s@.len() by {
        if k < old_v.len() {
            assert(v@[k] == old_v[k]);
        } else {
            assert(v@[k] == (st, s.len()));
        }
    }
    v
}

/// `s` without its leading occurrences of `c`.
pub open spec fn trim_start_char(s: Seq<char>, c: char) -> Seq<char>
    decreases s.len(),
{
    if s.len() > 0 && s[0] == c {
        trim_start_char(s.drop_first(), c)
    } else {
        s
    }
}

/// `s` without its trailing occurrences of `c`.
pub open spec fn trim_end_char(s: Seq<char>, c: char) -> Seq<char>
    decreases s.len(),
{
    if s.len() > 0 && s.last() == c {
        trim_end_char(s.drop_last(), c)
    } else {
        s
    }
}

/// `str::trim_matches(c)`.
pub open spec fn trim_matches(s: Seq<char>, c: char) -> Seq<char> {
    trim_end_char(trim_start_char(s, c), c)
}

/// The bounds of `trim_matches(s[lo..hi], c)` inside `s`.
pub fn trim_char_bounds(s: &[char], lo: usize, hi: usize, c: char) -> (r: (usize, usize))
    requires
        lo <= hi <= s@.len(),
    ensures
        lo <= r.0 <= r.1 <= hi,
        s@.subrange(r.0 as int, r.1 as int) == trim_matches(s@.subrange(lo as int, hi as int), c),
{
    let mut i = lo;
    while i < hi && s[i] == c
        invariant
            lo <= i <= hi <= s@.len(),
            trim_start_char(s@.subrange(lo as int, hi as int), c) == trim_start_char(
                s@.subrange(i as int, hi as int),
                c,
            ),
        decreases hi - i,
    {
        assert(s@.subrange(i as int, hi as int).drop_first() =~= s@.subrange(i + 1, hi as int));
        i += 1;
    }
    assert(trim_start_char(s@.subrange(i as int, hi as int), c) == s@.subrange(i as int, hi as int));
    let mut j = hi;
    while j > i && s[j - 1] == c
        invariant
            lo <= i <= j <= hi <= s@.len(),
            trim_end_char(s@.subrange(i as int, hi as int), c) == trim_end_char(
                s@.subrange(i as int, j as int),
                c,
            ),
        decreases j - i,
    {
        assert(s@.subrange(i as int, j as int).drop_last() =~= s@.subrange(i as int, j - 1));
        j -= 1;
    }
    (i, j)
}

/// `c` occurs in `s`.
pub fn has_char(s: &[char], lo: usize, hi: usize, c: char) -> (r: bool)
    requires
        lo <= hi <= s@.len(),
    ensures
        r == s@.subrange(lo as int, hi as int).contains(c),
{
    let mut i = lo;
    while i < hi
        invariant
            lo <= i <= hi <= s@.len(),
            forall|j: int| lo <= j < i ==> s@[j] != c,
        decreases hi - i,
    {
        if s[i] == c {
            assert(s@.subrange(lo as int, hi as int)[i - lo] == c);
            return true;
        }
        i += 1;
    }
    assert forall|j: int| 0 <= j < hi - lo implies s@.subrange(lo as int, hi as int)[j] != c by {
        assert(s@[lo + j] != c);
    }
    false
}

/// The chars of each string.
pub open spec fn strs_view(v: Seq<String>) -> Seq<Seq<char>> {
    v.map_values(|x: String| x@)
}

/// `byte_len` of a prefix grows by the width of the next char.
pub proof fn lemma_byte_len_step(s: Seq<char>, k: int)
    requires
        0 <= k < s.len(),
    ensures
        byte_len(s.take(k + 1)) == byte_len(s.take(k)) + utf8_width(s[k]),
{
    assert(s.take(k + 1).drop_last() =~= s.take(k));
}

/// `byte_len` of prefixes is strictly increasing.
pub proof fn lemma_byte_len_strict(s: Seq<char>, i: int, j: int)
    requires
        0 <= i < j <= s.len(),
    ensures
        byte_len(s.take(i)) < byte_len(s.take(j)),
{
    lemma_byte_len_step(s, i);
    lemma_byte_len_prefix(s, i + 1, j);
}

/// Byte offset `b` falls between two chars of `s`.
pub open spec fn is_boundary(s: Seq<char>, b: int) -> bool {
    exists|k: int| 0 <= k <= s.len() && byte_len(s.take(k)) == b
}

/// The char position of the char boundary at byte offset `b`.
pub open spec fn char_pos(s: Seq<char>, b: int) -> int {
    choose|k: int| 0 <= k <= s.len() && byte_len(s.take(k)) == b
}

/// The char position of a char boundary, from its byte offset.
pub fn char_pos_of_byte(s: &[char], b: usize) -> (k: usize)
    requires
        is_boundary(s@, b as int),
    ensures
        k <= s@.len(),
        byte_len(s@.take(k as int)) == b,
        k == char_pos(s@, b as int),
{
    let ghost kk = choose|k: int| 0 <= k <= s@.len() && byte_len(s@.take(k)) == b;
    let mut k: usize = 0;
    let mut acc: usize = 0;
    while acc < b
        invariant
            0 <= kk <= s@.len(),
            byte_len(s@.take(kk)) == b,
            k <= kk,
            acc == byte_len(s@.take(k as int)),
            acc <= b,
        decreases kk - k,
    {
        proof {
            if k == kk {
                assert(false);
            }
            lemma_byte_len_step(s@, k as int);
            lemma_byte_len_prefix(s@, k + 1, kk);
        }
        acc = acc + char_width(s[k]);
        k += 1;
    }
    proof {
        if k < kk {
            lemma_byte_len_strict(s@, k as int, kk);
        }
        let c = char_pos(s@, b as int);
        if c < k {
            lemma_byte_len_strict(s@, c, k as int);
        } else if c > k {
            lemma_byte_len_strict(s@, k as int, c);
        }
    }
    k
}


/// The lines of `s` (`str::lines`).
pub open spec fn text_lines(s: Seq<char>) -> Seq<Seq<char>> {
    line_spans(s).map_values(|p: (usize, usize)| s.subrange(p.0 as int, p.1 as int))
}


/// The number of occurrences of `c` in `s[..n]`.
pub open spec fn count_upto(s: Seq<char>, c: char, n: int) -> nat
    decreases n,
{
    if n <= 0 {
        0
    } else {
        count_upto(s, c, n - 1) + if s[n - 1] == c { 1nat } else { 0nat }
    }
}

/// The number of occurrences of `c` in `s` (`str::matches(c).count()`).
pub open spec fn count_char(s: Seq<char>, c: char) -> nat {
    count_upto(s, c, s.len() as int)
}

/// The number of occurrences of `c` in `s[lo..hi]`.
pub fn count_of(s: &[char], lo: usize, hi: usize, c: char) -> (n: usize)
    requires
        lo <= hi <= s@.len(),
    ensures
        n == count_char(s@.subrange(lo as int, hi as int), c),
{
    let ghost t = s@.subrange(lo as int, hi as int);
    let mut n: usize = 0;
    let mut k = lo;
    while k < hi
        invariant
            lo <= k <= hi <= s@.len(),
            t == s@.subrange(lo as int, hi as int),
            n == count_upto(t, c, k - lo),
            n <= k - lo,
        decreases hi - k,
    {
        if s[k] == c {
            n = n + 1;
        }
        k += 1;
    }
    n
}

/// `i` is the first position of `c` in `s`.
pub open spec fn is_first(s: Seq<char>, c: char, i: int) -> bool {
    0 <= i < s.len() && s[i] == c && forall|j: int| 0 <= j < i ==> s[j] != c
}

/// The first position of `c` in `s`, which must occur there (`str::find(c)`).
pub open spec fn first_of(s: Seq<char>, c: char) -> int {
    choose|i: int| is_first(s, c, i)
}

/// A first position is unique.
pub proof fn lemma_first_unique(s: Seq<char>, c: char, i: int, j: int)
    requires
        is_first(s, c, i),
        is_first(s, c, j),
    ensures
        i == j,
{
}

/// The position of the first `c` in `s[lo..hi]`, relative to `lo`.
pub fn find_char(s: &[char], lo: usize, hi: usize, c: char) -> (r: Option<usize>)
    requires
        lo <= hi <= s@.len(),
    ensures
        match r {
            Some(i) => is_first(s@.subrange(lo as int, hi as int), c, i as int) && i == first_of(
                s@.subrange(lo as int, hi as int),
                c,
            ),
            None => !s@.subrange(lo as int, hi as int).contains(c),
        },
{
    let ghost t = s@.subrange(lo as int, hi as int);
    let mut k = lo;
    while k < hi
        invariant
            lo <= k <= hi <= s@.len(),
            t == s@.subrange(lo as int, hi as int),
            forall|j: int| 0 <= j < k - lo ==> t[j] != c,
        decreases hi - k,
    {
        if s[k] == c {
            proof {
                assert(is_first(t, c, k - lo));
                let f = first_of(t, c);
                lemma_first_unique(t, c, k - lo, f);
            }
            return Some(k - lo);
        }
        k += 1;
    }
    None
}


/// A text has at least as many bytes as chars.
pub proof fn lemma_len_le_byte_len(s: Seq<char>)
    ensures
        s.len() <= byte_len(s),
    decreases s.len(),
{
    if s.len() > 0 {
        lemma_len_le_byte_len(s.drop_last());
    }
}

/// `byte_len` adds up over a split.
pub proof fn lemma_byte_len_split(s: Seq<char>, i: int, j: int)
    requires
        0 <= i <= j <= s.len(),
    ensures
        byte_len(s.take(j)) == byte_len(s.take(i)) + byte_len(s.subrange(i, j)),
    decreases j - i,
{
    if i < j {
        lemma_byte_len_split(s, i, j - 1);
        assert(s.take(j).drop_last() =~= s.take(j - 1));
        assert(s.subrange(i, j).drop_last() =~= s.subrange(i, j - 1));
    } else {
        assert(s.subrange(i, j) =~= Seq::<char>::empty());
    }
}


/// The lowercase of a string (`str::to_lowercase`): the Unicode lowercase
/// mapping, with a final capital sigma in its final form.
pub uninterp spec fn str_lowercase(s: Seq<char>) -> Seq<char>;

/// `str::to_lowercase`; the mapping is named, not stated, but for this:
/// the lowercase of the empty string is empty.
#[verifier::external_body]
pub(crate) fn lowercase_string(s: &str) -> (r: String)
    ensures
        r@ == str_lowercase(s@),
        s@.len() == 0 ==> r@.len() == 0,
{
    s.to_lowercase()
}

/// The chars of `bytes` decoded as UTF-8, each invalid sequence replaced by
/// U+FFFD (`String::from_utf8_lossy`).
pub uninterp spec fn utf8_lossy(bytes: Seq<u8>) -> Seq<char>;

/// `String::from_utf8_lossy`, owned. Its documentation states that valid
/// UTF-8 decodes as such; how invalid sequences are replaced is named, not
/// stated.
#[verifier::external_body]
pub(crate) fn decode_lossy(bytes: &[u8]) -> (s: String)
    ensures
        s@ == utf8_lossy(bytes@),
        vstd::utf8::valid_utf8(bytes@) ==> s@ == vstd::utf8::decode_utf8(bytes@),
{
    String::from_utf8_lossy(bytes).into_owned()
}

} // verus!
