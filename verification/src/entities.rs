//! Typed entity extraction: dates, emails, phone numbers, URLs, monetary
//! amounts, percentages and ID-like tokens, found by regular expressions.

use vstd::prelude::*;
use crate::patterns::{
    find_spans, regex_spans, DATE_PATTERN, EMAIL_PATTERN, IDENTIFIER_PATTERN, MONEY_PATTERN,
    NUMBER_PATTERN, PERCENT_PATTERN, PHONE_PATTERN, URL_PATTERN,
};
use crate::textutil::{byte_len, char_pos, char_pos_of_byte, chars_of, lemma_byte_len_split, string_from_chars};

verus! {

/// The kind of typed value an entity represents.
#[derive(Debug, Clone, Copy, PartialEq, Eq, Hash, Structural)]
pub enum EntityType {
    Date,
    Email,
    Phone,
    Url,
    Money,
    Percent,
    Number,
    /// A token like "INV-2024-001" or "Order #12345".
    Identifier,
}

/// The lowercase name of an entity type.
pub open spec fn entity_type_name(t: EntityType) -> Seq<char> {
    match t {
        EntityType::Date => "date"@,
        EntityType::Email => "email"@,
        EntityType::Phone => "phone"@,
        EntityType::Url => "url"@,
        EntityType::Money => "money"@,
        EntityType::Percent => "percent"@,
        EntityType::Number => "number"@,
        EntityType::Identifier => "identifier"@,
    }
}

impl EntityType {
    pub fn as_str(&self) -> (r: &'static str)
        ensures
            r@ == entity_type_name(*self),
    {
        match self {
            EntityType::Date => "date",
            EntityType::Email => "email",
            EntityType::Phone => "phone",
            EntityType::Url => "url",
            EntityType::Money => "money",
            EntityType::Percent => "percent",
            EntityType::Number => "number",
            EntityType::Identifier => "identifier",
        }
    }
}

/// A typed entity found in the document.
#[derive(Debug, Clone, PartialEq)]
pub struct Entity {
    pub entity_type: EntityType,
    pub value: String,
    /// 0-based byte offset of the first byte in the source text.
    pub start: usize,
    /// Byte offset just past the entity.
    pub end: usize,
}

impl Entity {
    /// An entity whose value starts at byte `start`.
    pub fn new(entity_type: EntityType, value: String, start: usize) -> (e: Entity)
        requires
            start + byte_len(value@) <= usize::MAX,
        ensures
            e.entity_type == entity_type,
            e.value == value,
            e.start == start,
            e.end == start + byte_len(value@),
    {
        let v = chars_of(value.as_str());
        assert(v@.subrange(0, v@.len() as int) =~= v@);
        let n = match crate::textutil::byte_len_capped(v.as_slice(), 0, v.len(), usize::MAX - start) {
            Some(n) => n,
            None => 0,
        };
        let end = start + n;
        Entity { entity_type, value, start, end }
    }
}

/// A candidate match: type, byte start, byte end, char start, char end.
pub type Candidate = (EntityType, usize, usize, usize, usize);

/// The matches of one pattern in `text`, typed.
pub open spec fn typed_spans(ty: EntityType, pattern: Seq<char>, text: Seq<char>) -> Seq<Candidate> {
    regex_spans(pattern, text).map_values(
        |p: (usize, usize)| (ty, p.0, p.1, char_pos(text, p.0 as int) as usize, char_pos(text, p.1 as int) as usize),
    )
}

/// Every match of every pattern, pattern by pattern in this order: email,
/// URL, date, phone, money, percent, identifier, number.
pub open spec fn candidates(text: Seq<char>) -> Seq<Candidate> {
    typed_spans(EntityType::Email, EMAIL_PATTERN@, text) + typed_spans(EntityType::Url, URL_PATTERN@, text)
        + typed_spans(EntityType::Date, DATE_PATTERN@, text) + typed_spans(EntityType::Phone, PHONE_PATTERN@, text)
        + typed_spans(EntityType::Money, MONEY_PATTERN@, text) + typed_spans(
        EntityType::Percent,
        PERCENT_PATTERN@,
        text,
    ) + typed_spans(EntityType::Identifier, IDENTIFIER_PATTERN@, text) + typed_spans(
        EntityType::Number,
        NUMBER_PATTERN@,
        text,
    )
}

/// `a` sorts no later than `b`: by start, then longer first.
pub open spec fn key_le(a: Candidate, b: Candidate) -> bool {
    a.1 < b.1 || (a.1 == b.1 && a.2 - a.1 >= b.2 - b.1)
}

/// `x` inserted into `s` after every element that sorts no later than it.
pub open spec fn insert_by_key(s: Seq<Candidate>, x: Candidate) -> Seq<Candidate>
    decreases s.len(),
{
    if s.len() == 0 {
        seq![x]
    } else if key_le(s.last(), x) {
        s.push(x)
    } else {
        insert_by_key(s.drop_last(), x).push(s.last())
    }
}

/// The stable sort of `s[..n]` by position, longer matches first.
pub open spec fn sort_by_key(s: Seq<Candidate>, n: int) -> Seq<Candidate>
    decreases n,
{
    if n <= 0 {
        Seq::empty()
    } else {
        insert_by_key(sort_by_key(s, n - 1), s[n - 1])
    }
}

/// Two matches share a byte.
pub open spec fn overlap(a: Candidate, b: Candidate) -> bool {
    a.1 < b.2 && b.1 < a.2
}

/// `s[..n]` with each element dropped that overlaps the last one kept.
pub open spec fn dedup_overlaps(s: Seq<Candidate>, n: int) -> Seq<Candidate>
    decreases n,
{
    if n <= 0 {
        Seq::empty()
    } else {
        let r = dedup_overlaps(s, n - 1);
        if r.len() > 0 && overlap(s[n - 1], r.last()) {
            r
        } else {
            r.push(s[n - 1])
        }
    }
}

/// The matches that `extract_all` keeps, in order.
pub open spec fn kept_matches(text: Seq<char>) -> Seq<Candidate> {
    let c = candidates(text);
    let sorted = sort_by_key(c, c.len() as int);
    dedup_overlaps(sorted, sorted.len() as int)
}

/// An entity as type, byte span and chars.
pub open spec fn entity_view(e: Entity) -> (EntityType, usize, usize, Seq<char>) {
    (e.entity_type, e.start, e.end, e.value@)
}

/// The entity of a kept match.
pub open spec fn match_entity(text: Seq<char>, c: Candidate) -> (EntityType, usize, usize, Seq<char>) {
    (c.0, c.1, c.2, text.subrange(c.3 as int, c.4 as int))
}

/// A candidate with consistent bounds in `text`.
pub open spec fn cand_ok(text: Seq<char>, c: Candidate) -> bool {
    &&& c.1 <= c.2
    &&& c.3 <= c.4 <= text.len()
    &&& byte_len(text.take(c.3 as int)) == c.1
    &&& byte_len(text.take(c.4 as int)) == c.2
}

/// The candidates are in order of start.
pub open spec fn starts_sorted(s: Seq<Candidate>) -> bool {
    forall|i: int, j: int| #![trigger s[i], s[j]] 0 <= i < j < s.len() ==> s[i].1 <= s[j].1
}

/// Every candidate's span is in order (and, if `strict`, not empty).
pub open spec fn spans_ordered(s: Seq<Candidate>, strict: bool) -> bool {
    forall|i: int| #![trigger s[i]] 0 <= i < s.len() ==> s[i].1 <= s[i].2 && (strict ==> s[i].1 < s[i].2)
}

proof fn lemma_insert_bound(s: Seq<Candidate>, x: Candidate, b: usize, strict: bool)
    requires
        forall|i: int| #![trigger s[i]] 0 <= i < s.len() ==> s[i].1 <= b,
        x.1 <= b,
        spans_ordered(s, strict),
        x.1 <= x.2 && (strict ==> x.1 < x.2),
    ensures
        forall|k: int| #![trigger insert_by_key(s, x)[k]] 0 <= k < insert_by_key(s, x).len() ==> insert_by_key(s, x)[k].1 <= b,
        spans_ordered(insert_by_key(s, x), strict),
        insert_by_key(s, x).len() == s.len() + 1,
    decreases s.len(),
{
    if s.len() == 0 {
        assert(insert_by_key(s, x) == seq![x]);
    } else if key_le(s.last(), x) {
        assert(insert_by_key(s, x) == s.push(x));
    } else {
        let t = s.drop_last();
        lemma_insert_bound(t, x, b, strict);
        let r = insert_by_key(t, x);
        assert(insert_by_key(s, x) == r.push(s.last()));
        assert(s.last() == s[s.len() - 1]);
    }
}

proof fn lemma_insert_sorted(s: Seq<Candidate>, x: Candidate, strict: bool)
    requires
        starts_sorted(s),
        spans_ordered(s, strict),
        x.1 <= x.2 && (strict ==> x.1 < x.2),
    ensures
        starts_sorted(insert_by_key(s, x)),
        spans_ordered(insert_by_key(s, x), strict),
    decreases s.len(),
{
    if s.len() == 0 {
        assert(insert_by_key(s, x) == seq![x]);
    } else if key_le(s.last(), x) {
        let r = s.push(x);
        assert(insert_by_key(s, x) == r);
        assert forall|i: int, j: int| #![trigger r[i], r[j]] 0 <= i < j < r.len() implies r[i].1 <= r[j].1 by {
            if j == s.len() {
                assert(s[i].1 <= s[s.len() - 1].1 || i == s.len() - 1);
            }
        }
    } else {
        let t = s.drop_last();
        assert forall|i: int, j: int| #![trigger t[i], t[j]] 0 <= i < j < t.len() implies t[i].1 <= t[j].1 by {
            assert(t[i] == s[i] && t[j] == s[j]);
        }
        lemma_insert_sorted(t, x, strict);
        assert forall|i: int| #![trigger t[i]] 0 <= i < t.len() implies t[i].1 <= s.last().1 by {
            assert(t[i] == s[i]);
        }
        lemma_insert_bound(t, x, s.last().1, strict);
        let r = insert_by_key(t, x);
        let q = r.push(s.last());
        assert(insert_by_key(s, x) == q);
        assert forall|i: int, j: int| #![trigger q[i], q[j]] 0 <= i < j < q.len() implies q[i].1 <= q[j].1 by {
            if j == r.len() {
                assert(q[i] == r[i]);
            } else {
                assert(q[i] == r[i] && q[j] == r[j]);
            }
        }
    }
}

proof fn lemma_sort_sorted(s: Seq<Candidate>, n: int, strict: bool)
    requires
        0 <= n <= s.len(),
        spans_ordered(s, strict),
    ensures
        starts_sorted(sort_by_key(s, n)),
        spans_ordered(sort_by_key(s, n), strict),
    decreases n,
{
    if n > 0 {
        lemma_sort_sorted(s, n - 1, strict);
        assert(s[n - 1].1 <= s[n - 1].2);
        lemma_insert_sorted(sort_by_key(s, n - 1), s[n - 1], strict);
    }
}

/// Each kept candidate does not overlap the one before it.
pub open spec fn apart(r: Seq<Candidate>) -> bool {
    forall|i: int, j: int| #![trigger r[i], r[j]] 0 <= i && j == i + 1 && j < r.len() ==> !overlap(r[j], r[i])
}

/// The candidates lie one after another: each ends before the next starts.
pub open spec fn disjoint_in_order(r: Seq<Candidate>) -> bool {
    forall|i: int, j: int| #![trigger r[i], r[j]] 0 <= i < j < r.len() ==> r[i].2 <= r[j].1
}

proof fn lemma_dedup(s: Seq<Candidate>, n: int, strict: bool)
    requires
        0 <= n <= s.len(),
        starts_sorted(s),
        spans_ordered(s, strict),
    ensures
        starts_sorted(dedup_overlaps(s, n)),
        spans_ordered(dedup_overlaps(s, n), strict),
        apart(dedup_overlaps(s, n)),
        strict ==> disjoint_in_order(dedup_overlaps(s, n)),
        n > 0 ==> forall|k: int| #![trigger dedup_overlaps(s, n)[k]] 0 <= k < dedup_overlaps(s, n).len()
            ==> dedup_overlaps(s, n)[k].1 <= s[n - 1].1,
    decreases n,
{
    if n > 0 {
        lemma_dedup(s, n - 1, strict);
        let r = dedup_overlaps(s, n - 1);
        let x = s[n - 1];
        if n > 1 {
            assert forall|k: int| #![trigger r[k]] 0 <= k < r.len() implies r[k].1 <= x.1 by {
                assert(s[n - 2].1 <= s[n - 1].1);
            }
        }
        if r.len() > 0 && overlap(x, r.last()) {
            assert forall|k: int| #![trigger r[k]] 0 <= k < r.len() implies r[k].1 <= x.1 by {
                if n > 1 {
                    assert(s[n - 2].1 <= s[n - 1].1);
                }
            }
        } else {
            let q = r.push(x);
            assert forall|i: int, j: int| #![trigger q[i], q[j]] 0 <= i < j < q.len() implies q[i].1 <= q[j].1 by {
                if j == r.len() {
                    assert(q[i] == r[i]);
                } else {
                    assert(q[i] == r[i] && q[j] == r[j]);
                }
            }
            assert forall|i: int, j: int| #![trigger q[i], q[j]] 0 <= i && j == i + 1 && j < q.len() implies !overlap(q[j], q[i]) by {
                assert(q[i] == r[i]);
                if j < r.len() {
                    assert(q[j] == r[j]);
                }
            }
            if strict {
                assert forall|i: int, j: int| #![trigger q[i], q[j]] 0 <= i < j < q.len() implies q[i].2 <= q[j].1 by {
                    if j == r.len() {
                        let l = r.len() - 1;
                        assert(q[i] == r[i]);
                        assert(r[l].1 <= x.1);
                        assert(r[l].2 <= x.1);
                        if i < l {
                            assert(r[i].2 <= r[l].1);
                        }
                    } else {
                        assert(q[i] == r[i] && q[j] == r[j]);
                    }
                }
            }
        }
    }
}

/// The kept matches come in order of their start, none overlapping the one
/// kept before it; and when no match is empty, each ends before the next
/// begins.
pub proof fn entity_order(c: Seq<Candidate>, strict: bool)
    requires
        spans_ordered(c, strict),
    ensures
        starts_sorted(dedup_overlaps(sort_by_key(c, c.len() as int), c.len() as int)),
        apart(dedup_overlaps(sort_by_key(c, c.len() as int), c.len() as int)),
        strict ==> disjoint_in_order(dedup_overlaps(sort_by_key(c, c.len() as int), c.len() as int)),
{
    lemma_sort_sorted(c, c.len() as int, strict);
    let s = sort_by_key(c, c.len() as int);
    lemma_sort_len(c, c.len() as int);
    lemma_dedup(s, s.len() as int, strict);
}

proof fn lemma_sort_len(s: Seq<Candidate>, n: int)
    requires
        0 <= n <= s.len(),
    ensures
        sort_by_key(s, n).len() == n,
    decreases n,
{
    if n > 0 {
        lemma_sort_len(s, n - 1);
        lemma_insert_len(sort_by_key(s, n - 1), s[n - 1]);
    }
}

proof fn lemma_insert_len(s: Seq<Candidate>, x: Candidate)
    ensures
        insert_by_key(s, x).len() == s.len() + 1,
    decreases s.len(),
{
    if s.len() > 0 && !key_le(s.last(), x) {
        lemma_insert_len(s.drop_last(), x);
    }
}

proof fn lemma_insert_pos(s: Seq<Candidate>, x: Candidate, j: int)
    requires
        0 <= j <= s.len(),
        forall|k: int| j <= k < s.len() ==> !key_le(#[trigger] s[k], x),
        0 < j ==> key_le(s[j - 1], x),
    ensures
        insert_by_key(s, x) == s.insert(j, x),
    decreases s.len(),
{
    if s.len() == 0 {
        assert(s.insert(j, x) =~= seq![x]);
    } else if j == s.len() {
        assert(s.insert(j, x) =~= s.push(x));
    } else {
        assert(!key_le(s[s.len() - 1], x));
        let t = s.drop_last();
        assert forall|k: int| j <= k < t.len() implies !key_le(#[trigger] t[k], x) by {
            assert(t[k] == s[k]);
        }
        if 0 < j {
            assert(t[j - 1] == s[j - 1]);
        }
        lemma_insert_pos(t, x, j);
        assert(t.insert(j, x).push(s.last()) =~= s.insert(j, x));
    }
}

proof fn lemma_entities_in_order(text: Seq<char>, kept: Seq<Candidate>, out: Seq<Entity>)
    requires
        starts_sorted(kept),
        apart(kept),
        spans_ordered(kept, true),
        disjoint_in_order(kept),
        out.map_values(|e: Entity| entity_view(e)) == kept.map_values(|c: Candidate| match_entity(text, c)),
    ensures
        forall|i: int, j: int| #![trigger out[i], out[j]] 0 <= i < j < out.len() ==> out[i].start <= out[j].start,
        forall|i: int, j: int| #![trigger out[i], out[j]] 0 <= i && j == i + 1 && j < out.len() ==> !(out[j].start < out[i].end && out[i].start < out[j].end),
        forall|i: int| #![trigger out[i]] 0 <= i < out.len() ==> out[i].start < out[i].end,
        forall|i: int, j: int| #![trigger out[i], out[j]] 0 <= i < j < out.len() ==> out[i].end <= out[j].start,
{
    let v = out.map_values(|e: Entity| entity_view(e));
    assert(v.len() == kept.len());
    assert forall|i: int| 0 <= i < out.len() implies #[trigger] out[i].start == kept[i].1 && out[i].end == kept[i].2 by {
        assert(v[i] == entity_view(out[i]));
        assert(kept.map_values(|c: Candidate| match_entity(text, c))[i] == match_entity(text, kept[i]));
    }
    assert forall|i: int, j: int| #![trigger out[i], out[j]] 0 <= i < j < out.len() implies out[i].start <= out[j].start by {
        assert(out[i].start == kept[i].1);
        assert(out[j].start == kept[j].1);
    }
    assert forall|i: int, j: int| #![trigger out[i], out[j]] 0 <= i && j == i + 1 && j < out.len() implies !(out[j].start < out[i].end && out[i].start < out[j].end) by {
        assert(out[i].start == kept[i].1 && out[i].end == kept[i].2);
        assert(out[j].start == kept[j].1 && out[j].end == kept[j].2);
        assert(!overlap(kept[j], kept[i]));
    }
    assert forall|i: int, j: int| #![trigger out[i], out[j]] 0 <= i < j < out.len() implies out[i].end <= out[j].start by {
        assert(out[i].start == kept[i].1 && out[i].end == kept[i].2);
        assert(out[j].start == kept[j].1 && out[j].end == kept[j].2);
    }
}

/// The candidates are in sort order: by start, longer first.
pub open spec fn key_sorted(s: Seq<Candidate>) -> bool {
    forall|i: int, j: int| #![trigger s[i], s[j]] 0 <= i < j < s.len() ==> key_le(s[i], s[j])
}

proof fn lemma_insert_members(s: Seq<Candidate>, x: Candidate)
    ensures
        forall|j: int| #![trigger insert_by_key(s, x)[j]] 0 <= j < insert_by_key(s, x).len()
            ==> insert_by_key(s, x)[j] == x || exists|i: int| 0 <= i < s.len() && insert_by_key(s, x)[j] == s[i],
        exists|j: int| 0 <= j < insert_by_key(s, x).len() && insert_by_key(s, x)[j] == x,
        forall|i: int| #![trigger s[i]] 0 <= i < s.len() ==> exists|j: int| 0 <= j < insert_by_key(s, x).len() && insert_by_key(s, x)[j] == s[i],
    decreases s.len(),
{
    lemma_insert_len(s, x);
    let r = insert_by_key(s, x);
    if s.len() == 0 {
        assert(r[0] == x);
    } else if key_le(s.last(), x) {
        assert(r == s.push(x));
        assert(r[s.len() as int] == x);
        assert forall|i: int| #![trigger s[i]] 0 <= i < s.len() implies exists|j: int| 0 <= j < r.len() && r[j] == s[i] by {
            assert(r[i] == s[i]);
        }
        assert forall|j: int| #![trigger r[j]] 0 <= j < r.len() implies r[j] == x || exists|i: int| 0 <= i < s.len() && r[j] == s[i] by {
            if j < s.len() {
                assert(r[j] == s[j]);
            }
        }
    } else {
        let t = s.drop_last();
        lemma_insert_members(t, x);
        let q = insert_by_key(t, x);
        assert(r == q.push(s.last()));
        let jx = choose|j: int| 0 <= j < q.len() && q[j] == x;
        assert(r[jx] == x);
        assert forall|i: int| #![trigger s[i]] 0 <= i < s.len() implies exists|j: int| 0 <= j < r.len() && r[j] == s[i] by {
            if i == s.len() - 1 {
                assert(r[q.len() as int] == s[i]);
            } else {
                assert(t[i] == s[i]);
                let j = choose|j: int| 0 <= j < q.len() && q[j] == t[i];
                assert(r[j] == s[i]);
            }
        }
        assert forall|j: int| #![trigger r[j]] 0 <= j < r.len() implies r[j] == x || exists|i: int| 0 <= i < s.len() && r[j] == s[i] by {
            if j == q.len() {
                assert(r[j] == s[s.len() - 1]);
            } else {
                assert(r[j] == q[j]);
                if q[j] != x {
                    let i = choose|i: int| 0 <= i < t.len() && q[j] == t[i];
                    assert(t[i] == s[i]);
                }
            }
        }
    }
}

proof fn lemma_insert_key_sorted(s: Seq<Candidate>, x: Candidate)
    requires
        key_sorted(s),
    ensures
        key_sorted(insert_by_key(s, x)),
    decreases s.len(),
{
    let r = insert_by_key(s, x);
    lemma_insert_len(s, x);
    if s.len() == 0 {
    } else if key_le(s.last(), x) {
        assert(r == s.push(x));
        assert forall|i: int, j: int| #![trigger r[i], r[j]] 0 <= i < j < r.len() implies key_le(r[i], r[j]) by {
            if j == s.len() {
                assert(r[i] == s[i]);
                if i < s.len() - 1 {
                    assert(key_le(s[i], s[s.len() - 1]));
                }
            } else {
                assert(r[i] == s[i] && r[j] == s[j]);
            }
        }
    } else {
        let t = s.drop_last();
        assert forall|i: int, j: int| #![trigger t[i], t[j]] 0 <= i < j < t.len() implies key_le(t[i], t[j]) by {
            assert(t[i] == s[i] && t[j] == s[j]);
        }
        lemma_insert_key_sorted(t, x);
        lemma_insert_members(t, x);
        let q = insert_by_key(t, x);
        assert(r == q.push(s.last()));
        assert forall|i: int, j: int| #![trigger r[i], r[j]] 0 <= i < j < r.len() implies key_le(r[i], r[j]) by {
            if j == q.len() {
                assert(r[i] == q[i]);
                assert(r[j] == s[s.len() - 1]);
                if q[i] != x {
                    let k = choose|k: int| 0 <= k < t.len() && q[i] == t[k];
                    assert(t[k] == s[k]);
                    assert(key_le(s[k], s[s.len() - 1]));
                }
            } else {
                assert(r[i] == q[i] && r[j] == q[j]);
            }
        }
    }
}

proof fn lemma_sort_members(s: Seq<Candidate>, n: int)
    requires
        0 <= n <= s.len(),
    ensures
        key_sorted(sort_by_key(s, n)),
        forall|i: int| #![trigger s[i]] 0 <= i < n ==> exists|j: int| 0 <= j < sort_by_key(s, n).len() && sort_by_key(s, n)[j] == s[i],
    decreases n,
{
    if n > 0 {
        lemma_sort_members(s, n - 1);
        let p = sort_by_key(s, n - 1);
        lemma_insert_members(p, s[n - 1]);
        lemma_insert_key_sorted(p, s[n - 1]);
        let r = sort_by_key(s, n);
        assert forall|i: int| #![trigger s[i]] 0 <= i < n implies exists|j: int| 0 <= j < r.len() && r[j] == s[i] by {
            if i < n - 1 {
                let k = choose|k: int| 0 <= k < p.len() && p[k] == s[i];
                assert(p[k] == s[i]);
            }
        }
    }
}

proof fn lemma_dedup_members(s: Seq<Candidate>, n: int)
    requires
        0 <= n <= s.len(),
    ensures
        forall|k: int| #![trigger dedup_overlaps(s, n)[k]] 0 <= k < dedup_overlaps(s, n).len() ==> exists|j: int| 0 <= j < n && dedup_overlaps(s, n)[k] == s[j],
    decreases n,
{
    if n > 0 {
        lemma_dedup_members(s, n - 1);
        let r = dedup_overlaps(s, n - 1);
        let t = dedup_overlaps(s, n);
        assert forall|k: int| #![trigger t[k]] 0 <= k < t.len() implies exists|j: int| 0 <= j < n && t[k] == s[j] by {
            if k < r.len() {
                let j = choose|j: int| 0 <= j < n - 1 && r[k] == s[j];
                assert(t[k] == r[k]);
            } else {
                assert(t[k] == s[n - 1]);
            }
        }
    }
}

/// Every match overlaps a kept one, when no match is empty.
proof fn lemma_dedup_cover(s: Seq<Candidate>, n: int)
    requires
        0 <= n <= s.len(),
        spans_ordered(s, true),
    ensures
        forall|i: int| #![trigger s[i]] 0 <= i < n ==> exists|k: int| 0 <= k < dedup_overlaps(s, n).len() && overlap(s[i], dedup_overlaps(s, n)[k]),
    decreases n,
{
    if n > 0 {
        lemma_dedup_cover(s, n - 1);
        let r = dedup_overlaps(s, n - 1);
        let t = dedup_overlaps(s, n);
        assert(s[n - 1].1 < s[n - 1].2);
        assert forall|i: int| #![trigger s[i]] 0 <= i < n implies exists|k: int| 0 <= k < t.len() && overlap(s[i], t[k]) by {
            if i == n - 1 {
                assert(overlap(s[i], t[t.len() - 1]));
            } else {
                let k = choose|k: int| 0 <= k < r.len() && overlap(s[i], r[k]);
                assert(t[k] == r[k]);
            }
        }
    }
}

/// Over sorted non-empty matches, no match is longer than a kept one with
/// its start; and every match starts before the end of the last kept one,
/// or not after its start.
#[verifier::rlimit(40)]
proof fn lemma_dedup_longest(s: Seq<Candidate>, n: int)
    requires
        0 <= n <= s.len(),
        key_sorted(s),
        spans_ordered(s, true),
    ensures
        forall|k: int, i: int| #![trigger dedup_overlaps(s, n)[k], s[i]] 0 <= k < dedup_overlaps(s, n).len() && 0 <= i < n
            && s[i].1 == dedup_overlaps(s, n)[k].1 ==> s[i].2 <= dedup_overlaps(s, n)[k].2,
        n > 0 ==> dedup_overlaps(s, n).len() > 0,
        n > 0 ==> forall|i: int| #![trigger s[i]] 0 <= i < n ==> s[i].1 <= dedup_overlaps(s, n).last().1
            || s[i].1 < dedup_overlaps(s, n).last().2,
    decreases n,
{
    if n > 0 {
        lemma_dedup_longest(s, n - 1);
        lemma_dedup_members(s, n - 1);
        let r = dedup_overlaps(s, n - 1);
        let x = s[n - 1];
        let t = dedup_overlaps(s, n);
        assert(x.1 < x.2);
        assert forall|k: int| 0 <= k < r.len() implies #[trigger] key_le(r[k], x) by {
            let j = choose|j: int| 0 <= j < n - 1 && r[k] == s[j];
            assert(key_le(s[j], s[n - 1]));
        }
        if r.len() > 0 && overlap(x, r.last()) {
            assert(t == r);
            assert(key_le(r[r.len() - 1], x));
        } else {
            assert(t == r.push(x));
            assert forall|i: int| 0 <= i < n - 1 implies #[trigger] s[i].1 < x.1 by {
                assert(key_le(s[i], s[n - 1]));
                if s[i].1 == x.1 {
                    let l = r[r.len() - 1];
                    assert(key_le(l, x));
                    let jl = choose|j: int| 0 <= j < n - 1 && r[r.len() - 1] == s[j];
                    assert(l.1 < l.2);
                    assert(overlap(x, r.last()));
                }
            }
            assert forall|k: int, i: int| #![trigger t[k], s[i]] 0 <= k < t.len() && 0 <= i < n && s[i].1 == t[k].1 implies s[i].2 <= t[k].2 by {
                if k < r.len() {
                    assert(t[k] == r[k]);
                    if i == n - 1 {
                        assert(key_le(r[k], x));
                    }
                } else {
                    assert(t[k] == x);
                    if i < n - 1 {
                        assert(s[i].1 < x.1);
                    }
                }
            }
            assert forall|i: int| #![trigger s[i]] 0 <= i < n implies s[i].1 <= t.last().1 || s[i].1 < t.last().2 by {
                assert(t.last() == x);
                if i < n - 1 {
                    assert(s[i].1 < x.1);
                }
            }
        }
    }
}

/// The entities of `extract_all` against all the matches: every match
/// overlaps an entity, and none is longer than the entity with its start.
proof fn lemma_entities_cover(text: Seq<char>, c: Seq<Candidate>, kept: Seq<Candidate>, out: Seq<Entity>)
    requires
        spans_ordered(c, true),
        kept == dedup_overlaps(sort_by_key(c, c.len() as int), c.len() as int),
        out.map_values(|e: Entity| entity_view(e)) == kept.map_values(|cc: Candidate| match_entity(text, cc)),
    ensures
        forall|i: int| #![trigger c[i]] 0 <= i < c.len() ==> exists|k: int|
            0 <= k < out.len() && c[i].1 < out[k].end && out[k].start < c[i].2,
        forall|i: int, k: int| #![trigger c[i], out[k]] 0 <= i < c.len() && 0 <= k < out.len()
            && c[i].1 == out[k].start ==> c[i].2 <= out[k].end,
{
    let sorted_c = sort_by_key(c, c.len() as int);
    lemma_sort_len(c, c.len() as int);
    lemma_sort_sorted(c, c.len() as int, true);
    lemma_sort_members(c, c.len() as int);
    lemma_dedup_cover(sorted_c, c.len() as int);
    lemma_dedup_longest(sorted_c, c.len() as int);
    let v = out.map_values(|e: Entity| entity_view(e));
    assert(v.len() == kept.len());
    assert forall|q: int| 0 <= q < out.len() implies #[trigger] out[q].start == kept[q].1 && out[q].end == kept[q].2 by {
        assert(v[q] == entity_view(out[q]));
        assert(kept.map_values(|cc: Candidate| match_entity(text, cc))[q] == match_entity(text, kept[q]));
    }
    assert forall|i: int| #![trigger c[i]] 0 <= i < c.len() implies exists|k: int|
        0 <= k < out.len() && c[i].1 < out[k].end && out[k].start < c[i].2 by {
        let j = choose|j: int| 0 <= j < sorted_c.len() && sorted_c[j] == c[i];
        assert(sorted_c[j] == c[i]);
        let k = choose|k: int| 0 <= k < kept.len() && overlap(sorted_c[j], kept[k]);
        assert(out[k].start == kept[k].1 && out[k].end == kept[k].2);
    }
    assert forall|i: int, k: int| #![trigger c[i], out[k]] 0 <= i < c.len() && 0 <= k < out.len()
        && c[i].1 == out[k].start implies c[i].2 <= out[k].end by {
        let j = choose|j: int| 0 <= j < sorted_c.len() && sorted_c[j] == c[i];
        assert(sorted_c[j] == c[i]);
        assert(out[k].start == kept[k].1 && out[k].end == kept[k].2);
        assert(sorted_c[j].1 == kept[k].1);
    }
}

/// Where `insert_by_key` puts `x`: after the last element that sorts no
/// later than it, scanning from the end.
pub open spec fn insert_point(s: Seq<Candidate>, x: Candidate) -> int
    decreases s.len(),
{
    if s.len() == 0 {
        0
    } else if key_le(s.last(), x) {
        s.len() as int
    } else {
        insert_point(s.drop_last(), x)
    }
}

proof fn lemma_insert_point(s: Seq<Candidate>, x: Candidate)
    ensures
        0 <= insert_point(s, x) <= s.len(),
        forall|k: int| insert_point(s, x) <= k < s.len() ==> !key_le(#[trigger] s[k], x),
        insert_by_key(s, x) == s.insert(insert_point(s, x), x),
    decreases s.len(),
{
    if s.len() == 0 {
        assert(s.insert(0, x) =~= seq![x]);
    } else if key_le(s.last(), x) {
        assert(s.insert(s.len() as int, x) =~= s.push(x));
    } else {
        let t = s.drop_last();
        lemma_insert_point(t, x);
        let j = insert_point(t, x);
        assert forall|k: int| j <= k < s.len() implies !key_le(#[trigger] s[k], x) by {
            if k < t.len() {
                assert(t[k] == s[k]);
            }
        }
        assert(t.insert(j, x).push(s.last()) =~= s.insert(j, x));
    }
}

/// Two candidates with the same byte span.
pub open spec fn same_span(a: Candidate, b: Candidate) -> bool {
    a.1 == b.1 && a.2 == b.2
}

/// The first index below `n` of a candidate with the byte span `st..en`,
/// or -1.
pub open spec fn first_idx(s: Seq<Candidate>, n: int, st: usize, en: usize) -> int
    decreases n,
{
    if n <= 0 {
        -1
    } else {
        let f = first_idx(s, n - 1, st, en);
        if f >= 0 {
            f
        } else if s[n - 1].1 == st && s[n - 1].2 == en {
            n - 1
        } else {
            -1
        }
    }
}

proof fn lemma_first_idx(s: Seq<Candidate>, n: int, st: usize, en: usize)
    requires
        0 <= n <= s.len(),
    ensures
        first_idx(s, n, st, en) >= 0 <==> exists|q: int| 0 <= q < n && #[trigger] s[q].1 == st && s[q].2 == en,
        first_idx(s, n, st, en) >= 0 ==> {
            let f = first_idx(s, n, st, en);
            &&& f < n && s[f].1 == st && s[f].2 == en
            &&& forall|q: int| 0 <= q < f ==> !(#[trigger] s[q].1 == st && s[q].2 == en)
        },
    decreases n,
{
    if n > 0 {
        lemma_first_idx(s, n - 1, st, en);
        if first_idx(s, n - 1, st, en) < 0 && !(s[n - 1].1 == st && s[n - 1].2 == en) {
            if exists|q: int| 0 <= q < n && #[trigger] s[q].1 == st && s[q].2 == en {
                let q = choose|q: int| 0 <= q < n && #[trigger] s[q].1 == st && s[q].2 == en;
                assert(q < n - 1);
            }
        }
    }
}

/// Every sorted element is a candidate.
proof fn lemma_sort_from(c: Seq<Candidate>, n: int)
    requires
        0 <= n <= c.len(),
    ensures
        forall|b: int| #![trigger sort_by_key(c, n)[b]] 0 <= b < sort_by_key(c, n).len() ==> exists|q: int|
            0 <= q < n && sort_by_key(c, n)[b] == c[q],
    decreases n,
{
    if n > 0 {
        lemma_sort_from(c, n - 1);
        let old = sort_by_key(c, n - 1);
        lemma_insert_members(old, c[n - 1]);
        let new = sort_by_key(c, n);
        assert forall|b: int| #![trigger new[b]] 0 <= b < new.len() implies exists|q: int| 0 <= q < n && new[b] == c[q] by {
            if new[b] != c[n - 1] {
                let i = choose|i: int| 0 <= i < old.len() && new[b] == old[i];
                assert(old[i] == new[b]);
            }
        }
    }
}

/// A sorted element that no earlier one shares its span with is the first
/// candidate with that span.
pub open spec fn stable_upto(c: Seq<Candidate>, n: int) -> bool {
    forall|b: int| #![trigger sort_by_key(c, n)[b]] 0 <= b < sort_by_key(c, n).len() && (forall|a: int|
        0 <= a < b ==> !same_span(#[trigger] sort_by_key(c, n)[a], sort_by_key(c, n)[b])) ==> {
        let v = sort_by_key(c, n)[b];
        &&& first_idx(c, n, v.1, v.2) >= 0
        &&& v == c[first_idx(c, n, v.1, v.2)]
    }
}

proof fn lemma_use_stable(c: Seq<Candidate>, m: int, b: int)
    requires
        stable_upto(c, m),
        0 <= b < sort_by_key(c, m).len(),
        forall|a: int| 0 <= a < b ==> !same_span(#[trigger] sort_by_key(c, m)[a], sort_by_key(c, m)[b]),
    ensures
        first_idx(c, m, sort_by_key(c, m)[b].1, sort_by_key(c, m)[b].2) >= 0,
        sort_by_key(c, m)[b] == c[first_idx(c, m, sort_by_key(c, m)[b].1, sort_by_key(c, m)[b].2)],
{
}

/// The candidate that the sort inserts last, at its insertion point, is the
/// first candidate with its span when no element before it shares it.
proof fn lemma_stable_at(c: Seq<Candidate>, n: int)
    requires
        0 < n <= c.len(),
        forall|a: int| 0 <= a < insert_point(sort_by_key(c, n - 1), c[n - 1]) ==> !same_span(
            #[trigger] sort_by_key(c, n - 1)[a],
            c[n - 1],
        ),
    ensures
        first_idx(c, n, c[n - 1].1, c[n - 1].2) == n - 1,
{
    lemma_sort_members(c, n - 1);
    let old = sort_by_key(c, n - 1);
    let x = c[n - 1];
    lemma_insert_point(old, x);
    let jx = insert_point(old, x);
    lemma_first_idx(c, n - 1, x.1, x.2);
    if first_idx(c, n - 1, x.1, x.2) >= 0 {
        let q = first_idx(c, n - 1, x.1, x.2);
        assert(c[q].1 == x.1 && c[q].2 == x.2);
        let p = choose|p: int| 0 <= p < old.len() && old[p] == c[q];
        if p < jx {
            assert(same_span(old[p], x));
        } else {
            assert(!key_le(old[p], x));
        }
    }
}

#[verifier::rlimit(60)]
proof fn lemma_stable_step(c: Seq<Candidate>, n: int, b: int)
    requires
        0 < n <= c.len(),
        stable_upto(c, n - 1),
        0 <= b < sort_by_key(c, n).len(),
        forall|a: int| 0 <= a < b ==> !same_span(#[trigger] sort_by_key(c, n)[a], sort_by_key(c, n)[b]),
    ensures
        ({
            let v = sort_by_key(c, n)[b];
            &&& first_idx(c, n, v.1, v.2) >= 0
            &&& v == c[first_idx(c, n, v.1, v.2)]
        }),
{
    let old = sort_by_key(c, n - 1);
    let x = c[n - 1];
    lemma_insert_point(old, x);
    let jx = insert_point(old, x);
    let new = sort_by_key(c, n);
    assert(new == old.insert(jx, x));
    let v = new[b];
    if b < jx {
        assert(new[b] == old[b]);
        assert forall|a: int| 0 <= a < b implies !same_span(#[trigger] old[a], old[b]) by {
            assert(new[a] == old[a]);
        }
        lemma_use_stable(c, n - 1, b);
        lemma_first_idx(c, n - 1, v.1, v.2);
        lemma_first_idx(c, n, v.1, v.2);
    } else if b == jx {
        assert(v == x);
        assert forall|a: int| 0 <= a < jx implies !same_span(#[trigger] old[a], x) by {
            assert(new[a] == old[a]);
        }
        lemma_stable_at(c, n);
    } else {
        assert(new[b] == old[b - 1]);
        assert forall|a: int| 0 <= a < b - 1 implies !same_span(#[trigger] old[a], old[b - 1]) by {
            if a < jx {
                assert(new[a] == old[a]);
            } else {
                assert(new[a + 1] == old[a]);
            }
        }
        lemma_use_stable(c, n - 1, b - 1);
        lemma_first_idx(c, n - 1, v.1, v.2);
        lemma_first_idx(c, n, v.1, v.2);
    }
}

/// The insertion sort is stable.
proof fn lemma_sort_stable(c: Seq<Candidate>, n: int)
    requires
        0 <= n <= c.len(),
    ensures
        stable_upto(c, n),
    decreases n,
{
    if n > 0 {
        lemma_sort_stable(c, n - 1);
        assert forall|b: int| #![trigger sort_by_key(c, n)[b]] 0 <= b < sort_by_key(c, n).len() && (forall|a: int|
            0 <= a < b ==> !same_span(#[trigger] sort_by_key(c, n)[a], sort_by_key(c, n)[b])) implies ({
            let v = sort_by_key(c, n)[b];
            &&& first_idx(c, n, v.1, v.2) >= 0
            &&& v == c[first_idx(c, n, v.1, v.2)]
        }) by {
            lemma_stable_step(c, n, b);
        }
    }
}

/// Each kept candidate comes from the sorted ones, after only candidates
/// that start before it.
proof fn lemma_dedup_first(s: Seq<Candidate>, n: int)
    requires
        0 <= n <= s.len(),
        key_sorted(s),
        spans_ordered(s, true),
    ensures
        forall|k: int| #![trigger dedup_overlaps(s, n)[k]] 0 <= k < dedup_overlaps(s, n).len() ==> exists|j: int|
            0 <= j < n && dedup_overlaps(s, n)[k] == s[j] && forall|i: int| 0 <= i < j ==> #[trigger] s[i].1 < s[j].1,
    decreases n,
{
    if n > 0 {
        lemma_dedup_first(s, n - 1);
        lemma_dedup_longest(s, n - 1);
        lemma_dedup_members(s, n - 1);
        let r = dedup_overlaps(s, n - 1);
        let x = s[n - 1];
        let t = dedup_overlaps(s, n);
        assert(x.1 < x.2);
        if r.len() > 0 && overlap(x, r.last()) {
            assert(t == r);
        } else {
            assert(t == r.push(x));
            assert forall|i: int| 0 <= i < n - 1 implies #[trigger] s[i].1 < x.1 by {
                assert(key_le(s[i], s[n - 1]));
                if s[i].1 == x.1 {
                    let l = r[r.len() - 1];
                    let jl = choose|j: int| 0 <= j < n - 1 && r[r.len() - 1] == s[j];
                    assert(key_le(s[jl], s[n - 1]));
                    assert(l.1 < l.2);
                    assert(overlap(x, r.last()));
                }
            }
            assert forall|k: int| #![trigger t[k]] 0 <= k < t.len() implies exists|j: int|
                0 <= j < n && t[k] == s[j] && forall|i: int| 0 <= i < j ==> #[trigger] s[i].1 < s[j].1 by {
                if k < r.len() {
                    assert(t[k] == r[k]);
                } else {
                    assert(t[k] == s[n - 1]);
                }
            }
        }
    }
}

/// The bytes `start..end` of `text` are a match of `pattern`.
pub open spec fn is_match(pattern: Seq<char>, text: Seq<char>, start: usize, end: usize) -> bool {
    regex_spans(pattern, text).contains((start, end))
}

/// The type of the first pattern, in the order email, URL, date, phone,
/// money, percent, identifier, number, that matches exactly the bytes
/// `start..end` of `text`; none when no pattern does.
pub open spec fn match_type(text: Seq<char>, start: usize, end: usize) -> Option<EntityType> {
    if is_match(EMAIL_PATTERN@, text, start, end) {
        Some(EntityType::Email)
    } else if is_match(URL_PATTERN@, text, start, end) {
        Some(EntityType::Url)
    } else if is_match(DATE_PATTERN@, text, start, end) {
        Some(EntityType::Date)
    } else if is_match(PHONE_PATTERN@, text, start, end) {
        Some(EntityType::Phone)
    } else if is_match(MONEY_PATTERN@, text, start, end) {
        Some(EntityType::Money)
    } else if is_match(PERCENT_PATTERN@, text, start, end) {
        Some(EntityType::Percent)
    } else if is_match(IDENTIFIER_PATTERN@, text, start, end) {
        Some(EntityType::Identifier)
    } else if is_match(NUMBER_PATTERN@, text, start, end) {
        Some(EntityType::Number)
    } else {
        None
    }
}

/// The patterns with their types, in order.
spec fn pattern_at(i: int) -> (EntityType, Seq<char>) {
    if i == 0 {
        (EntityType::Email, EMAIL_PATTERN@)
    } else if i == 1 {
        (EntityType::Url, URL_PATTERN@)
    } else if i == 2 {
        (EntityType::Date, DATE_PATTERN@)
    } else if i == 3 {
        (EntityType::Phone, PHONE_PATTERN@)
    } else if i == 4 {
        (EntityType::Money, MONEY_PATTERN@)
    } else if i == 5 {
        (EntityType::Percent, PERCENT_PATTERN@)
    } else if i == 6 {
        (EntityType::Identifier, IDENTIFIER_PATTERN@)
    } else {
        (EntityType::Number, NUMBER_PATTERN@)
    }
}

/// The typed matches of the first `i` patterns.
spec fn cands_upto(text: Seq<char>, i: int) -> Seq<Candidate>
    decreases i,
{
    if i <= 0 {
        Seq::empty()
    } else {
        cands_upto(text, i - 1) + typed_spans(pattern_at(i - 1).0, pattern_at(i - 1).1, text)
    }
}

/// The type of the first pattern from the `i`-th on that matches exactly.
spec fn type_from(text: Seq<char>, st: usize, en: usize, i: int) -> Option<EntityType>
    decreases 8 - i,
{
    if i >= 8 {
        None
    } else if is_match(pattern_at(i).1, text, st, en) {
        Some(pattern_at(i).0)
    } else {
        type_from(text, st, en, i + 1)
    }
}

proof fn lemma_cands_upto(text: Seq<char>)
    ensures
        candidates(text) == cands_upto(text, 8),
        forall|st: usize, en: usize| match_type(text, st, en) == #[trigger] type_from(text, st, en, 0),
{
    reveal_with_fuel(cands_upto, 9);
    assert(cands_upto(text, 1) =~= typed_spans(EntityType::Email, EMAIL_PATTERN@, text));
    assert(candidates(text) =~= cands_upto(text, 8));
    assert forall|st: usize, en: usize| match_type(text, st, en) == #[trigger] type_from(text, st, en, 0) by {
        reveal_with_fuel(type_from, 9);
    }
}

proof fn lemma_match_in_upto(text: Seq<char>, st: usize, en: usize, j: int, m: int)
    requires
        0 <= j < m <= 8,
        is_match(pattern_at(j).1, text, st, en),
    ensures
        exists|q: int| 0 <= q < cands_upto(text, m).len() && #[trigger] cands_upto(text, m)[q].1 == st
            && cands_upto(text, m)[q].2 == en,
    decreases m,
{
    let prev = cands_upto(text, m - 1);
    let t = typed_spans(pattern_at(m - 1).0, pattern_at(m - 1).1, text);
    let cur = cands_upto(text, m);
    assert(cur == prev + t);
    if m == j + 1 {
        let rs = regex_spans(pattern_at(j).1, text);
        let p = choose|p: int| 0 <= p < rs.len() && rs[p] == (st, en);
        assert(cur[prev.len() + p] == t[p]);
        assert(cur[prev.len() + p].1 == st);
    } else {
        lemma_match_in_upto(text, st, en, j, m - 1);
        let q = choose|q: int| 0 <= q < prev.len() && #[trigger] prev[q].1 == st && prev[q].2 == en;
        assert(cur[q] == prev[q]);
    }
}

proof fn lemma_type_skip(text: Seq<char>, st: usize, en: usize, j: int)
    requires
        0 <= j <= 8,
        forall|k: int| 0 <= k < j ==> !is_match(#[trigger] pattern_at(k).1, text, st, en),
    ensures
        type_from(text, st, en, 0) == type_from(text, st, en, j),
    decreases j,
{
    if j > 0 {
        lemma_type_skip(text, st, en, j - 1);
        assert(!is_match(pattern_at(j - 1).1, text, st, en));
    }
}

/// The first candidate with its span has the type of the first pattern
/// that matches that span.
proof fn lemma_first_cand_type(text: Seq<char>, i: int, q: int)
    requires
        0 <= i <= 8,
        0 <= q < cands_upto(text, i).len(),
        forall|r: int| 0 <= r < q ==> !same_span(#[trigger] cands_upto(text, i)[r], cands_upto(text, i)[q]),
    ensures
        type_from(text, cands_upto(text, i)[q].1, cands_upto(text, i)[q].2, 0) == Some(cands_upto(text, i)[q].0),
    decreases i,
{
    let prev = cands_upto(text, i - 1);
    let t = typed_spans(pattern_at(i - 1).0, pattern_at(i - 1).1, text);
    let cur = cands_upto(text, i);
    assert(cur == prev + t);
    let v = cur[q];
    if q < prev.len() {
        assert(v == prev[q]);
        assert forall|r: int| 0 <= r < q implies !same_span(#[trigger] prev[r], prev[q]) by {
            assert(cur[r] == prev[r]);
        }
        lemma_first_cand_type(text, i - 1, q);
    } else {
        let p = q - prev.len();
        let rs = regex_spans(pattern_at(i - 1).1, text);
        assert(v == t[p]);
        assert(rs[p] == (v.1, v.2));
        assert(is_match(pattern_at(i - 1).1, text, v.1, v.2));
        assert forall|k: int| 0 <= k < i - 1 implies !is_match(#[trigger] pattern_at(k).1, text, v.1, v.2) by {
            if is_match(pattern_at(k).1, text, v.1, v.2) {
                lemma_match_in_upto(text, v.1, v.2, k, i - 1);
                let r = choose|r: int| 0 <= r < prev.len() && #[trigger] prev[r].1 == v.1 && prev[r].2 == v.2;
                assert(cur[r] == prev[r]);
                assert(same_span(cur[r], cur[q]));
            }
        }
        lemma_type_skip(text, v.1, v.2, i - 1);
    }
}

/// Each kept match has the type of the first pattern, in the order email,
/// URL, date, phone, money, percent, identifier, number, that matches
/// exactly its span (when no match is empty).
pub proof fn entity_types(text: Seq<char>)
    requires
        spans_ordered(candidates(text), true),
    ensures
        forall|k: int| #![trigger kept_matches(text)[k]] 0 <= k < kept_matches(text).len() ==> match_type(
            text,
            kept_matches(text)[k].1,
            kept_matches(text)[k].2,
        ) == Some(kept_matches(text)[k].0),
{
    let c = candidates(text);
    let n = c.len() as int;
    lemma_cands_upto(text);
    lemma_sort_len(c, n);
    lemma_sort_members(c, n);
    lemma_sort_sorted(c, n, true);
    lemma_sort_stable(c, n);
    let sorted = sort_by_key(c, n);
    lemma_dedup_first(sorted, n);
    let kept = kept_matches(text);
    assert(kept == dedup_overlaps(sorted, n));
    assert forall|k: int| #![trigger kept_matches(text)[k]] 0 <= k < kept.len() implies match_type(text, kept[k].1, kept[k].2)
        == Some(kept[k].0) by {
        let j = choose|j: int| 0 <= j < n && kept[k] == sorted[j] && forall|i: int| 0 <= i < j ==> #[trigger] sorted[i].1 < sorted[j].1;
        assert forall|a: int| 0 <= a < j implies !same_span(#[trigger] sorted[a], sorted[j]) by {
            assert(sorted[a].1 < sorted[j].1);
        }
        let v = sorted[j];
        let f = first_idx(c, n, v.1, v.2);
        assert(v == c[f]);
        lemma_first_idx(c, n, v.1, v.2);
        assert forall|r: int| 0 <= r < f implies !same_span(#[trigger] cands_upto(text, 8)[r], cands_upto(text, 8)[f]) by {
            assert(!(c[r].1 == v.1 && c[r].2 == v.2));
        }
        lemma_first_cand_type(text, 8, f);
        assert(type_from(text, v.1, v.2, 0) == match_type(text, v.1, v.2));
    }
}

/// The bytes `start..end` of `text` fall on char boundaries and hold the
/// chars `value`.
pub open spec fn bytes_hold(text: Seq<char>, start: usize, end: usize, value: Seq<char>) -> bool {
    exists|a: int, b: int| #![trigger text.subrange(a, b)]
        0 <= a <= b <= text.len() && byte_len(text.take(a)) == start && byte_len(text.take(b)) == end
            && value == text.subrange(a, b)
}

/// Each entity spans the bytes of its value in `text`: its end is its start
/// plus the value's byte length, and the value is the text between them.
proof fn lemma_entities_bytes(text: Seq<char>, kept: Seq<Candidate>, out: Seq<Entity>)
    requires
        forall|q: int| 0 <= q < kept.len() ==> cand_ok(text, #[trigger] kept[q]),
        out.map_values(|e: Entity| entity_view(e)) == kept.map_values(|c: Candidate| match_entity(text, c)),
    ensures
        forall|i: int| #![trigger out[i]] 0 <= i < out.len() ==> out[i].end == out[i].start + byte_len(out[i].value@),
        forall|i: int| #![trigger out[i]] 0 <= i < out.len() ==> bytes_hold(text, out[i].start, out[i].end, out[i].value@),
{
    let v = out.map_values(|e: Entity| entity_view(e));
    assert(v.len() == kept.len());
    assert forall|i: int| 0 <= i < out.len() implies #[trigger] out[i].start == kept[i].1 && out[i].end == kept[i].2
        && out[i].value@ == text.subrange(kept[i].3 as int, kept[i].4 as int) by {
        assert(v[i] == entity_view(out[i]));
        assert(kept.map_values(|cc: Candidate| match_entity(text, cc))[i] == match_entity(text, kept[i]));
    }
    assert forall|i: int| #![trigger out[i]] 0 <= i < out.len() implies out[i].end == out[i].start + byte_len(out[i].value@) by {
        let c = kept[i];
        assert(cand_ok(text, c));
        lemma_byte_len_split(text, c.3 as int, c.4 as int);
    }
    assert forall|i: int| #![trigger out[i]] 0 <= i < out.len() implies bytes_hold(text, out[i].start, out[i].end, out[i].value@) by {
        let c = kept[i];
        assert(cand_ok(text, c));
        let a = c.3 as int;
        let b = c.4 as int;
        assert(0 <= a <= b <= text.len() && byte_len(text.take(a)) == out[i].start && byte_len(text.take(b)) == out[i].end
            && out[i].value@ == text.subrange(a, b));
    }
}

/// Collects the typed matches of `pattern` in `text` onto `out`.
fn push_matches(out: &mut Vec<Candidate>, chars: &Vec<char>, text: &str, ty: EntityType, pattern: &str)
    requires
        crate::patterns::known_pattern(pattern@),
        chars@ == text@,
        forall|k: int| 0 <= k < old(out)@.len() ==> cand_ok(text@, #[trigger] old(out)@[k]) && old(out)@[k].1 < old(out)@[k].2,
    ensures
        final(out)@ == old(out)@ + typed_spans(ty, pattern@, text@),
        forall|k: int| 0 <= k < final(out)@.len() ==> cand_ok(text@, #[trigger] final(out)@[k]) && final(out)@[k].1 < final(out)@[k].2,
{
    let spans = find_spans(pattern, text);
    let ghost start = out@;
    let mut i: usize = 0;
    while i < spans.len()
        invariant
            i <= spans@.len(),
            chars@ == text@,
            spans@ == regex_spans(pattern@, text@),
            forall|q: int|
                #![trigger spans@[q]]
                0 <= q < spans@.len() ==> spans@[q].0 < spans@[q].1 && crate::textutil::is_boundary(text@, spans@[q].0 as int)
                    && crate::textutil::is_boundary(text@, spans@[q].1 as int),
            out@ == start + typed_spans(ty, pattern@, text@).take(i as int),
            forall|k: int| 0 <= k < out@.len() ==> cand_ok(text@, #[trigger] out@[k]) && out@[k].1 < out@[k].2,
        decreases spans@.len() - i,
    {
        let (a, b) = spans[i];
        let ca = char_pos_of_byte(chars.as_slice(), a);
        let cb = char_pos_of_byte(chars.as_slice(), b);
        proof {
            if cb < ca {
                crate::textutil::lemma_byte_len_strict(text@, cb as int, ca as int);
            }
        }
        let ghost before = out@;
        out.push((ty, a, b, ca, cb));
        proof {
            assert(typed_spans(ty, pattern@, text@).take(i + 1) =~= typed_spans(ty, pattern@, text@).take(
                i as int,
            ).push((ty, a, b, ca, cb)));
            assert(out@ =~= start + typed_spans(ty, pattern@, text@).take(i + 1));
            assert forall|k: int| 0 <= k < out@.len() implies cand_ok(text@, #[trigger] out@[k]) && out@[k].1 < out@[k].2 by {
                if k < before.len() {
                    assert(out@[k] == before[k]);
                }
            }
        }
        i += 1;
    }
    assert(typed_spans(ty, pattern@, text@).take(i as int) =~= typed_spans(ty, pattern@, text@));
}

fn key_le_exec(a: &Candidate, b: &Candidate) -> (r: bool)
    ensures
        r == key_le(*a, *b),
{
    a.1 < b.1 || (a.1 == b.1 && (a.2 as u128) + (b.1 as u128) >= (b.2 as u128) + (a.1 as u128))
}

/// Extract all recognized entities from `text`, in order of appearance: the
/// matches of every pattern, sorted by position (longer first at the same
/// position, then in pattern order), each dropped that overlaps the one
/// kept before it.
pub fn extract_all(text: &str) -> (r: Vec<Entity>)
    ensures
        r@.map_values(|e: Entity| entity_view(e)) == kept_matches(text@).map_values(
            |c: Candidate| match_entity(text@, c),
        ),
        forall|i: int, j: int| #![trigger r@[i], r@[j]] 0 <= i < j < r@.len() ==> r@[i].start <= r@[j].start,
        forall|i: int, j: int| #![trigger r@[i], r@[j]] 0 <= i && j == i + 1 && j < r@.len() ==> !(r@[j].start < r@[i].end && r@[i].start < r@[j].end),
        forall|i: int| #![trigger r@[i]] 0 <= i < r@.len() ==> r@[i].start < r@[i].end,
        forall|i: int, j: int| #![trigger r@[i], r@[j]] 0 <= i < j < r@.len() ==> r@[i].end <= r@[j].start,
        forall|i: int| #![trigger candidates(text@)[i]] 0 <= i < candidates(text@).len() ==> exists|k: int|
            0 <= k < r@.len() && candidates(text@)[i].1 < r@[k].end && r@[k].start < candidates(text@)[i].2,
        forall|i: int, k: int| #![trigger candidates(text@)[i], r@[k]] 0 <= i < candidates(text@).len() && 0 <= k < r@.len()
            && candidates(text@)[i].1 == r@[k].start ==> candidates(text@)[i].2 <= r@[k].end,
        forall|i: int| #![trigger r@[i]] 0 <= i < r@.len() ==> r@[i].end == r@[i].start + byte_len(r@[i].value@),
        forall|i: int| #![trigger r@[i]] 0 <= i < r@.len() ==> bytes_hold(text@, r@[i].start, r@[i].end, r@[i].value@),
        forall|i: int| #![trigger r@[i]] 0 <= i < r@.len() ==> match_type(text@, r@[i].start, r@[i].end) == Some(r@[i].entity_type),
{
    let chars = chars_of(text);
    let mut all: Vec<Candidate> = Vec::new();
    push_matches(&mut all, &chars, text, EntityType::Email, EMAIL_PATTERN);
    push_matches(&mut all, &chars, text, EntityType::Url, URL_PATTERN);
    push_matches(&mut all, &chars, text, EntityType::Date, DATE_PATTERN);
    push_matches(&mut all, &chars, text, EntityType::Phone, PHONE_PATTERN);
    push_matches(&mut all, &chars, text, EntityType::Money, MONEY_PATTERN);
    push_matches(&mut all, &chars, text, EntityType::Percent, PERCENT_PATTERN);
    push_matches(&mut all, &chars, text, EntityType::Identifier, IDENTIFIER_PATTERN);
    push_matches(&mut all, &chars, text, EntityType::Number, NUMBER_PATTERN);
    assert(all@ =~= candidates(text@));
    // Stable insertion sort by (start, longer first).
    let mut sorted: Vec<Candidate> = Vec::new();
    let mut i: usize = 0;
    while i < all.len()
        invariant
            i <= all@.len(),
            all@ == candidates(text@),
            forall|k: int| 0 <= k < all@.len() ==> cand_ok(text@, #[trigger] all@[k]) && all@[k].1 < all@[k].2,
            sorted@ == sort_by_key(all@, i as int),
            forall|k: int| 0 <= k < sorted@.len() ==> cand_ok(text@, #[trigger] sorted@[k]),
        decreases all@.len() - i,
    {
        let x = all[i];
        let mut j = sorted.len();
        while j > 0 && !key_le_exec(&sorted[j - 1], &x)
            invariant
                j <= sorted@.len(),
                forall|k: int| j <= k < sorted@.len() ==> !key_le(#[trigger] sorted@[k], x),
            decreases j,
        {
            j -= 1;
        }
        proof {
            lemma_insert_pos(sorted@, x, j as int);
        }
        let ghost before = sorted@;
        sorted.insert(j, x);
        proof {
            assert forall|k: int| 0 <= k < sorted@.len() implies cand_ok(text@, #[trigger] sorted@[k]) by {
                if k < j {
                    assert(sorted@[k] == before[k]);
                } else if k > j {
                    assert(sorted@[k] == before[k - 1]);
                }
            }
        }
        i += 1;
    }
    // Drop matches that overlap the last one kept.
    let mut kept: Vec<Candidate> = Vec::new();
    let mut k: usize = 0;
    while k < sorted.len()
        invariant
            k <= sorted@.len(),
            sorted@ == sort_by_key(candidates(text@), candidates(text@).len() as int),
            forall|q: int| 0 <= q < sorted@.len() ==> cand_ok(text@, #[trigger] sorted@[q]),
            kept@ == dedup_overlaps(sorted@, k as int),
            forall|q: int| 0 <= q < kept@.len() ==> cand_ok(text@, #[trigger] kept@[q]),
        decreases sorted@.len() - k,
    {
        let c = sorted[k];
        let n = kept.len();
        if n > 0 && c.1 < kept[n - 1].2 && kept[n - 1].1 < c.2 {
        } else {
            let ghost before = kept@;
            kept.push(c);
            proof {
                assert forall|q: int| 0 <= q < kept@.len() implies cand_ok(text@, #[trigger] kept@[q]) by {
                    if q < before.len() {
                        assert(kept@[q] == before[q]);
                    }
                }
            }
        }
        k += 1;
    }
    // Materialize the entities.
    let mut out: Vec<Entity> = Vec::new();
    let mut m: usize = 0;
    while m < kept.len()
        invariant
            m <= kept@.len(),
            chars@ == text@,
            kept@ == kept_matches(text@),
            forall|q: int| 0 <= q < kept@.len() ==> cand_ok(text@, #[trigger] kept@[q]),
            out@.map_values(|e: Entity| entity_view(e)) == kept@.take(m as int).map_values(
                |c: Candidate| match_entity(text@, c),
            ),
        decreases kept@.len() - m,
    {
        let c = kept[m];
        let value = string_from_chars(vstd::slice::slice_subrange(chars.as_slice(), c.3, c.4));
        proof {
            lemma_byte_len_split(text@, c.3 as int, c.4 as int);
        }
        let e = Entity::new(c.0, value, c.1);
        let ghost before = out@.map_values(|e: Entity| entity_view(e));
        out.push(e);
        proof {
            assert(out@.map_values(|e: Entity| entity_view(e)) =~= before.push(entity_view(e)));
            assert(kept@.take(m + 1).map_values(|c: Candidate| match_entity(text@, c)) =~= kept@.take(
                m as int,
            ).map_values(|c: Candidate| match_entity(text@, c)).push(match_entity(text@, c)));
        }
        m += 1;
    }
    assert(kept@.take(m as int) =~= kept@);
    proof {
        assert(spans_ordered(all@, true));
        entity_order(all@, true);
        lemma_sort_len(all@, all@.len() as int);
        lemma_sort_sorted(all@, all@.len() as int, true);
        lemma_dedup(sort_by_key(all@, all@.len() as int), all@.len() as int, true);
        lemma_entities_in_order(text@, kept@, out@);
        lemma_entities_cover(text@, all@, kept@, out@);
        lemma_entities_bytes(text@, kept@, out@);
        entity_types(text@);
        let v = out@.map_values(|e: Entity| entity_view(e));
        assert forall|i: int| #![trigger out@[i]] 0 <= i < out@.len() implies match_type(text@, out@[i].start, out@[i].end)
            == Some(out@[i].entity_type) by {
            assert(v[i] == entity_view(out@[i]));
            assert(kept@.map_values(|cc: Candidate| match_entity(text@, cc))[i] == match_entity(text@, kept@[i]));
            assert(kept@[i] == kept_matches(text@)[i]);
        }
    }
    out
}

} // verus!
