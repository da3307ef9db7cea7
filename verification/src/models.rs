//! The data model of extraction: a document turned into structured records.
//! Confidences are in thousandths (`900` stands for 0.9).

use vstd::prelude::*;
use crate::entities::Entity;
use crate::textutil::strs_view;

verus! {

/// Options controlling what gets extracted.
#[derive(Debug, Clone, Copy, PartialEq, Eq, Structural)]
pub struct ExtractionOptions {
    pub extract_tables: bool,
    pub extract_key_values: bool,
    pub extract_entities: bool,
    /// If set, a configured vision-language model runs as well; the
    /// heuristic extractor runs regardless and serves as a fallback.
    pub use_vlm: bool,
}

/// The value an omitted extraction flag takes.
pub fn default_true() -> (b: bool)
    ensures
        b,
{
    true
}

impl Default for ExtractionOptions {
    fn default() -> (o: Self)
        ensures
            o.extract_tables,
            o.extract_key_values,
            o.extract_entities,
            !o.use_vlm,
    {
        ExtractionOptions {
            extract_tables: default_true(),
            extract_key_values: default_true(),
            extract_entities: default_true(),
            use_vlm: false,
        }
    }
}

/// The chars of each cell of each row.
pub open spec fn rows_view(rows: Seq<Vec<String>>) -> Seq<Seq<Seq<char>>> {
    rows.map_values(|r: Vec<String>| strs_view(r@))
}

/// A detected table.
#[derive(Debug, Clone, PartialEq)]
pub struct Table {
    pub rows: Vec<Vec<String>>,
    /// True if the first row is a header.
    pub has_header: bool,
    /// 1-based line number where the table starts in the source text.
    pub start_line: usize,
}

/// The largest length among `rows[..n]`, or 0.
pub open spec fn max_len_upto(rows: Seq<Vec<String>>, n: int) -> nat
    decreases n,
{
    if n <= 0 {
        0
    } else {
        let m = max_len_upto(rows, n - 1);
        if rows[n - 1]@.len() > m {
            rows[n - 1]@.len()
        } else {
            m
        }
    }
}

proof fn lemma_max_len_upto(rows: Seq<Vec<String>>, n: int)
    requires
        0 <= n <= rows.len(),
    ensures
        forall|i: int| 0 <= i < n ==> #[trigger] rows[i]@.len() <= max_len_upto(rows, n),
        n > 0 ==> exists|i: int| 0 <= i < n && #[trigger] rows[i]@.len() == max_len_upto(rows, n),
    decreases n,
{
    if n > 0 {
        lemma_max_len_upto(rows, n - 1);
        if n > 1 && rows[n - 1]@.len() <= max_len_upto(rows, n - 1) {
            let i = choose|i: int| 0 <= i < n - 1 && #[trigger] rows[i]@.len() == max_len_upto(rows, n - 1);
            assert(rows[i]@.len() == max_len_upto(rows, n));
        }
    }
}

impl Table {
    /// The header row, if the table has one.
    pub fn header(&self) -> (r: Option<&Vec<String>>)
        ensures
            r == (if self.has_header && self.rows@.len() > 0 {
                Some(&self.rows@[0])
            } else {
                None
            }),
    {
        if self.has_header && self.rows.len() > 0 {
            Some(&self.rows[0])
        } else {
            None
        }
    }

    /// The rows after the header.
    pub fn data_rows(&self) -> (r: &[Vec<String>])
        ensures
            r@ == (if !self.has_header {
                self.rows@
            } else if self.rows@.len() >= 1 {
                self.rows@.skip(1)
            } else {
                Seq::empty()
            }),
    {
        if self.has_header {
            if self.rows.len() >= 1 {
                vstd::slice::slice_subrange(self.rows.as_slice(), 1, self.rows.len())
            } else {
                vstd::slice::slice_subrange(self.rows.as_slice(), 0, 0)
            }
        } else {
            self.rows.as_slice()
        }
    }

    /// The number of rows, header included.
    pub fn row_count(&self) -> (n: usize)
        ensures
            n == self.rows@.len(),
    {
        self.rows.len()
    }

    /// The number of cells of the widest row.
    pub fn column_count(&self) -> (n: usize)
        ensures
            n == max_len_upto(self.rows@, self.rows@.len() as int),
            forall|i: int| 0 <= i < self.rows@.len() ==> #[trigger] self.rows@[i]@.len() <= n,
            self.rows@.len() > 0 ==> exists|i: int| 0 <= i < self.rows@.len() && #[trigger] self.rows@[i]@.len() == n,
    {
        let mut m: usize = 0;
        let mut i: usize = 0;
        while i < self.rows.len()
            invariant
                i <= self.rows@.len(),
                m == max_len_upto(self.rows@, i as int),
            decreases self.rows@.len() - i,
        {
            if self.rows[i].len() > m {
                m = self.rows[i].len();
            }
            i += 1;
        }
        proof {
            lemma_max_len_upto(self.rows@, self.rows@.len() as int);
        }
        m
    }
}

/// A single key-value field extracted from the document.
#[derive(Debug, Clone, PartialEq)]
pub struct Field {
    pub key: String,
    pub value: String,
    /// Heuristic confidence, in thousandths.
    pub confidence: u32,
}

/// The code of the ASCII lowercase of `c` (`char::to_ascii_lowercase`).
pub open spec fn ascii_lower(c: char) -> u32 {
    if 'A' <= c && c <= 'Z' {
        ((c as u32) + 32) as u32
    } else {
        c as u32
    }
}

/// `a` and `b` are equal up to ASCII case (`str::eq_ignore_ascii_case`).
pub open spec fn eq_ignore_ascii_case(a: Seq<char>, b: Seq<char>) -> bool {
    a.len() == b.len() && forall|i: int| 0 <= i < a.len() ==> #[trigger] ascii_lower(a[i]) == ascii_lower(b[i])
}

fn ascii_lower_exec(c: char) -> (r: u32)
    ensures
        r == ascii_lower(c),
{
    if 'A' <= c && c <= 'Z' {
        (c as u32) + 32
    } else {
        c as u32
    }
}

fn eq_ignore_case_exec(a: &[char], b: &[char]) -> (r: bool)
    ensures
        r == eq_ignore_ascii_case(a@, b@),
{
    if a.len() != b.len() {
        return false;
    }
    let mut i: usize = 0;
    while i < a.len()
        invariant
            a@.len() == b@.len(),
            i <= a@.len(),
            forall|j: int| 0 <= j < i ==> #[trigger] ascii_lower(a@[j]) == ascii_lower(b@[j]),
        decreases a@.len() - i,
    {
        if ascii_lower_exec(a[i]) != ascii_lower_exec(b[i]) {
            return false;
        }
        i += 1;
    }
    true
}

/// The index of the first of `fs[..n]` whose key equals `key` up to ASCII
/// case.
pub open spec fn first_key(fs: Seq<Field>, key: Seq<char>, n: int) -> Option<int>
    decreases n,
{
    if n <= 0 {
        None
    } else {
        match first_key(fs, key, n - 1) {
            Some(i) => Some(i),
            None => if eq_ignore_ascii_case(fs[n - 1].key@, key) {
                Some(n - 1)
            } else {
                None
            },
        }
    }
}

proof fn lemma_first_key_stable(fs: Seq<Field>, key: Seq<char>, i: int, n: int)
    requires
        0 <= i <= n <= fs.len(),
        first_key(fs, key, i) is Some,
    ensures
        first_key(fs, key, n) == first_key(fs, key, i),
    decreases n - i,
{
    if n > i {
        lemma_first_key_stable(fs, key, i, n - 1);
    }
}

/// `after` is `before` with the field `(key, value, confidence)` appended.
pub open spec fn inserted(before: Seq<Field>, after: Seq<Field>, key: Seq<char>, value: Seq<char>, confidence: u32) -> bool {
    &&& after.len() == before.len() + 1
    &&& after.take(before.len() as int) == before
    &&& after.last().key@ == key
    &&& after.last().value@ == value
    &&& after.last().confidence == confidence
}

proof fn lemma_first_key_prefix(a: Seq<Field>, b: Seq<Field>, key: Seq<char>, n: int)
    requires
        0 <= n <= a.len(),
        n <= b.len(),
        a.take(n) == b.take(n),
    ensures
        first_key(a, key, n) == first_key(b, key, n),
    decreases n,
{
    if n > 0 {
        assert(a.take(n - 1) =~= a.take(n).take(n - 1));
        assert(b.take(n - 1) =~= b.take(n).take(n - 1));
        assert(a[n - 1] == a.take(n)[n - 1]);
        assert(b[n - 1] == b.take(n)[n - 1]);
        lemma_first_key_prefix(a, b, key, n - 1);
    }
}

/// A lookup after an insert finds a field: the first one with an equal key
/// that was there before, or else the inserted one, with its value.
pub proof fn kv_insert_then_get(before: Seq<Field>, after: Seq<Field>, key: Seq<char>, value: Seq<char>, confidence: u32)
    requires
        inserted(before, after, key, value, confidence),
    ensures
        first_key(after, key, after.len() as int) is Some,
        first_key(before, key, before.len() as int) matches Some(i) ==> first_key(after, key, after.len() as int) == Some(i),
        first_key(before, key, before.len() as int) is None ==> (first_key(after, key, after.len() as int) == Some(before.len() as int)
            && after[before.len() as int].value@ == value),
{
    assert(before.take(before.len() as int) =~= before);
    lemma_first_key_prefix(before, after, key, before.len() as int);
    assert(eq_ignore_ascii_case(after[before.len() as int].key@, key));
}

/// A group of key-value fields, typically from a form or document header.
#[derive(Debug, Clone, PartialEq)]
pub struct KeyValueSet {
    pub fields: Vec<Field>,
}

impl Default for KeyValueSet {
    fn default() -> (s: Self)
        ensures
            s.fields@.len() == 0,
    {
        KeyValueSet { fields: Vec::new() }
    }
}

impl KeyValueSet {
    /// The first field whose key equals `key` up to ASCII case.
    pub fn get(&self, key: &str) -> (r: Option<&Field>)
        ensures
            match r {
                Some(f) => first_key(self.fields@, key@, self.fields@.len() as int) matches Some(i)
                    && self.fields@[i] == *f,
                None => first_key(self.fields@, key@, self.fields@.len() as int) is None,
            },
    {
        let k = crate::textutil::chars_of(key);
        let mut i: usize = 0;
        while i < self.fields.len()
            invariant
                i <= self.fields@.len(),
                k@ == key@,
                first_key(self.fields@, key@, i as int) is None,
            decreases self.fields@.len() - i,
        {
            let fk = crate::textutil::chars_of(self.fields[i].key.as_str());
            if eq_ignore_case_exec(fk.as_slice(), k.as_slice()) {
                proof {
                    lemma_first_key_stable(self.fields@, key@, i + 1, self.fields@.len() as int);
                }
                return Some(&self.fields[i]);
            }
            i += 1;
        }
        None
    }

    /// Appends a field.
    pub fn insert(&mut self, key: &str, value: &str, confidence: u32)
        ensures
            inserted(old(self).fields@, final(self).fields@, key@, value@, confidence),
    {
        self.fields.push(Field { key: key.to_owned(), value: value.to_owned(), confidence });
        assert(self.fields@.take(old(self).fields@.len() as int) =~= old(self).fields@);
    }
}

/// The complete extraction result: a document turned into data.
#[derive(Debug, Clone)]
pub struct ExtractionResult {
    pub tables: Vec<Table>,
    pub key_values: KeyValueSet,
    pub entities: Vec<Entity>,
    /// Total number of extracted fields (key-values and entities).
    pub field_count: usize,
    /// Overall confidence, in thousandths.
    pub confidence: u32,
    /// Which provider produced this ("heuristic", "vlm", "hybrid").
    pub provider: String,
}

impl ExtractionResult {
    /// The result with `field_count` recomputed (wrapping past `usize::MAX`).
    pub fn finalized(self) -> (r: Self)
        ensures
            r.field_count == (if self.key_values.fields@.len() + self.entities@.len() > usize::MAX {
                self.key_values.fields@.len() + self.entities@.len() - usize::MAX - 1
            } else {
                self.key_values.fields@.len() + self.entities@.len() + 0int
            }),
            r.tables == self.tables,
            r.key_values == self.key_values,
            r.entities == self.entities,
            r.confidence == self.confidence,
            r.provider == self.provider,
    {
        let mut r = self;
        r.field_count = r.key_values.fields.len().wrapping_add(r.entities.len());
        r
    }
}

} // verus!
