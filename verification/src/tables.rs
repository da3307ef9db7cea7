//! Table detection from plain-text layout: runs of consecutive lines that
//! split into the same number of columns (on pipes, tabs, or two or more
//! spaces). A header is inferred from a separator line of dashes or equals
//! signs under the first row, or from a first row of short, digit-free cells.

use vstd::prelude::*;
use crate::models::{Table, rows_view};
use crate::patterns::{find_spans, regex_spans, COLUMN_GAP_PATTERN};
use crate::textutil::{
    char_pos, char_pos_of_byte, has_char, is_boundary, split_on, split_spans, string_from_chars,
    strs_view, trim, trim_bounds, trim_char_bounds, trim_matches, text_lines, lines_of, chars_of,
    byte_len, byte_len_capped, is_digit, line_spans,
};

verus! {

/// The trimmed pieces of `s` at the given spans.
pub open spec fn trimmed_pieces(s: Seq<char>, spans: Seq<(usize, usize)>) -> Seq<Seq<char>> {
    spans.map_values(|p: (usize, usize)| trim(s.subrange(p.0 as int, p.1 as int)))
}

/// The non-empty trimmed pieces among the first `n` spans.
pub open spec fn nonempty_pieces(s: Seq<char>, spans: Seq<(usize, usize)>, n: int) -> Seq<Seq<char>>
    decreases n,
{
    if n <= 0 {
        Seq::empty()
    } else {
        let prev = nonempty_pieces(s, spans, n - 1);
        let t = trim(s.subrange(spans[n - 1].0 as int, spans[n - 1].1 as int));
        if t.len() > 0 {
            prev.push(t)
        } else {
            prev
        }
    }
}

/// The columns between the first `n` gaps of `line` (byte spans), and the
/// char position where the last of them ends.
pub open spec fn gap_columns_upto(line: Seq<char>, gaps: Seq<(usize, usize)>, n: int) -> (Seq<Seq<char>>, int)
    decreases n,
{
    if n <= 0 {
        (Seq::empty(), 0)
    } else {
        let (cols, last) = gap_columns_upto(line, gaps, n - 1);
        let gs = char_pos(line, gaps[n - 1].0 as int);
        let ge = char_pos(line, gaps[n - 1].1 as int);
        (if gs > last {
            cols.push(trim(line.subrange(last, gs)))
        } else {
            cols
        }, ge)
    }
}

/// The columns of a line aligned on runs of two or more spaces.
pub open spec fn gap_columns(line: Seq<char>) -> Seq<Seq<char>> {
    let gaps = regex_spans(COLUMN_GAP_PATTERN@, line);
    let (cols, last) = gap_columns_upto(line, gaps, gaps.len() as int);
    if last < line.len() && trim(line.subrange(last, line.len() as int)).len() > 0 {
        cols.push(trim(line.subrange(last, line.len() as int)))
    } else {
        cols
    }
}

/// A markdown-style row: it holds a pipe and starts with one once trimmed.
pub open spec fn pipe_row(line: Seq<char>) -> bool {
    line.contains('|') && trim(line).len() > 0 && trim(line)[0] == '|'
}

/// The cells of a line: split on pipes (empty cells dropped), on tabs, or
/// on runs of two or more spaces, each cell trimmed.
pub open spec fn columns(line: Seq<char>) -> Seq<Seq<char>> {
    if pipe_row(line) {
        let inner = trim_matches(trim(line), '|');
        let spans = split_spans(inner, '|');
        nonempty_pieces(inner, spans, spans.len() as int)
    } else if line.contains('\t') {
        trimmed_pieces(line, split_spans(line, '\t'))
    } else {
        gap_columns(line)
    }
}

/// The trimmed chars of `s[lo..hi]` as a string.
fn trimmed_string(s: &[char], lo: usize, hi: usize) -> (r: String)
    requires
        lo <= hi <= s@.len(),
    ensures
        r@ == trim(s@.subrange(lo as int, hi as int)),
{
    let (a, b) = trim_bounds(s, lo, hi);
    string_from_chars(vstd::slice::slice_subrange(s, a, b))
}

/// Split a line into cells on pipes, tabs, or two or more spaces.
pub fn split_columns(line: &[char]) -> (r: Vec<String>)
    ensures
        strs_view(r@) == columns(line@),
{
    let mut cols: Vec<String> = Vec::new();
    let (ta, tb) = trim_bounds(line, 0, line.len());
    assert(line@.subrange(0, line@.len() as int) =~= line@);
    if has_char(line, 0, line.len(), '|') && ta < tb && line[ta] == '|' {
        proof {
            assert(trim(line@)[0] == line@[ta as int]);
        }
        let (ia, ib) = trim_char_bounds(line, ta, tb, '|');
        let inner = vstd::slice::slice_subrange(line, ia, ib);
        let spans = split_on(inner, '|');
        let mut k: usize = 0;
        while k < spans.len()
            invariant
                k <= spans@.len(),
                spans@ == split_spans(inner@, '|'),
                forall|q: int| #![trigger spans@[q]] 0 <= q < spans@.len() ==> spans@[q].0 <= spans@[q].1 <= inner@.len(),
                strs_view(cols@) == nonempty_pieces(inner@, spans@, k as int),
            decreases spans@.len() - k,
        {
            let (a, b) = spans[k];
            let c = trimmed_string(inner, a, b);
            if !c.as_str().is_empty() {
                cols.push(c);
                assert(strs_view(cols@) =~= nonempty_pieces(inner@, spans@, k as int).push(c@));
            }
            k += 1;
        }
        proof {
            assert(inner@ == trim_matches(trim(line@), '|'));
        }
        return cols;
    }
    if has_char(line, 0, line.len(), '\t') {
        let spans = split_on(line, '\t');
        let mut k: usize = 0;
        while k < spans.len()
            invariant
                k <= spans@.len(),
                spans@ == split_spans(line@, '\t'),
                forall|q: int| #![trigger spans@[q]] 0 <= q < spans@.len() ==> spans@[q].0 <= spans@[q].1 <= line@.len(),
                strs_view(cols@) == trimmed_pieces(line@, spans@.take(k as int)),
            decreases spans@.len() - k,
        {
            let (a, b) = spans[k];
            let c = trimmed_string(line, a, b);
            let ghost prev = strs_view(cols@);
            let ghost old_cols = cols@;
            cols.push(c);
            proof {
                let want = trimmed_pieces(line@, spans@.take(k + 1));
                assert(want.len() == k + 1);
                assert(prev.len() == k);
                assert(old_cols.len() == k);
                assert(cols@.len() == k + 1);
                assert forall|j: int| 0 <= j < k + 1 implies #[trigger] strs_view(cols@)[j] == want[j] by {
                    if j < k {
                        assert(cols@[j] == old_cols[j]);
                        assert(prev[j] == old_cols[j]@);
                        assert(prev[j] == trimmed_pieces(line@, spans@.take(k as int))[j]);
                        assert(spans@.take(k + 1)[j] == spans@.take(k as int)[j]);
                    } else {
                        assert(cols@[j] == c);
                        assert(spans@.take(k + 1)[j] == spans@[k as int]);
                    }
                }
                assert(strs_view(cols@) =~= want);
            }
            k += 1;
        }
        assert(spans@.take(k as int) =~= spans@);
        return cols;
    }
    let text = string_from_chars(line);
    let gaps = find_spans(COLUMN_GAP_PATTERN, text.as_str());
    let mut last: usize = 0;
    let mut k: usize = 0;
    while k < gaps.len()
        invariant
            k <= gaps@.len(),
            text@ == line@,
            gaps@ == regex_spans(COLUMN_GAP_PATTERN@, line@),
            forall|i: int|
                #![trigger gaps@[i]]
                0 <= i < gaps@.len() ==> gaps@[i].0 <= gaps@[i].1 && is_boundary(line@, gaps@[i].0 as int)
                    && is_boundary(line@, gaps@[i].1 as int),
            (strs_view(cols@), last as int) == gap_columns_upto(line@, gaps@, k as int),
            last <= line@.len(),
        decreases gaps@.len() - k,
    {
        let (gb, ge) = gaps[k];
        let gs = char_pos_of_byte(line, gb);
        let gend = char_pos_of_byte(line, ge);
        if gs > last {
            let c = trimmed_string(line, last, gs);
            cols.push(c);
            assert(strs_view(cols@) =~= gap_columns_upto(line@, gaps@, k as int).0.push(c@));
        }
        last = gend;
        k += 1;
    }
    if last < line.len() {
        let c = trimmed_string(line, last, line.len());
        if !c.as_str().is_empty() {
            cols.push(c);
            assert(strs_view(cols@) =~= gap_columns_upto(line@, gaps@, gaps@.len() as int).0.push(c@));
        }
    }
    cols
}


/// A divider char of a separator line.
pub open spec fn divider_char(c: char) -> bool {
    c == '-' || c == '=' || c == '|' || c == ' ' || c == ':'
}

/// The number of `'-'` and `'='` among `t[..n]`.
pub open spec fn rule_count(t: Seq<char>, n: int) -> nat
    decreases n,
{
    if n <= 0 {
        0
    } else {
        rule_count(t, n - 1) + if t[n - 1] == '-' || t[n - 1] == '=' { 1nat } else { 0nat }
    }
}

/// A separator line under a header, such as `----`, `====` or `|---|---|`:
/// non-blank, made only of dashes, equals signs, pipes, spaces and colons,
/// with at least two dashes or equals signs.
pub open spec fn is_separator(line: Seq<char>) -> bool {
    let t = trim(line);
    &&& t.len() > 0
    &&& forall|i: int| 0 <= i < t.len() ==> divider_char(#[trigger] t[i])
    &&& rule_count(t, t.len() as int) >= 2
}

/// Cells that read as a header: each at most 20 bytes long and digit-free.
pub open spec fn header_like(cols: Seq<Seq<char>>) -> bool {
    forall|i: int|
        0 <= i < cols.len() ==> byte_len(#[trigger] cols[i]) <= 20 && forall|j: int|
            0 <= j < cols[i].len() ==> !is_digit(cols[i][j])
}

/// The rows of a table whose first line is `lines[start]`: the lines from
/// `start + off` on that split into `ncols` cells and are not blank, skipping
/// the separator line at offset 1 when there is one.
pub open spec fn table_rows(lines: Seq<Seq<char>>, start: int, off: int, has_sep: bool, ncols: nat) -> Seq<Seq<Seq<char>>>
    decreases lines.len() - (start + off),
{
    if start + off >= lines.len() || start + off < 0 {
        Seq::empty()
    } else if off == 1 && has_sep {
        table_rows(lines, start, off + 1, has_sep, ncols)
    } else {
        let lc = columns(lines[start + off]);
        if lc.len() == ncols && trim(lines[start + off]).len() > 0 {
            seq![lc] + table_rows(lines, start, off + 1, has_sep, ncols)
        } else {
            Seq::empty()
        }
    }
}

/// The table that starts at `lines[start]`, if one does: its rows, whether it
/// has a header, and its 1-based first line.
pub open spec fn table_at(lines: Seq<Seq<char>>, start: int, min_rows: nat) -> Option<(Seq<Seq<Seq<char>>>, bool, int)> {
    if start < 0 || start >= lines.len() {
        None
    } else {
        let cols = columns(lines[start]);
        let has_sep = start + 1 < lines.len() && is_separator(lines[start + 1]);
        let rows = table_rows(lines, start, 0, has_sep, cols.len());
        if cols.len() < 2 || rows.len() < min_rows {
            None
        } else {
            Some((rows, has_sep || header_like(cols), start + 1))
        }
    }
}

/// The line after `lines[start]` is a separator line.
pub open spec fn sep_under(lines: Seq<Seq<char>>, start: int) -> bool {
    0 <= start && start + 1 < lines.len() && is_separator(lines[start + 1])
}

/// The number of lines that a table of `rows` rows starting at
/// `lines[start]` spans: its rows, and its separator line when one was
/// skipped (at least one line).
pub open spec fn lines_taken(lines: Seq<Seq<char>>, start: int, rows: nat) -> int {
    let n = rows + if sep_under(lines, start) && rows > 0 { 1int } else { 0int };
    if n > 1 { n } else { 1 }
}

/// The tables found scanning `lines` from line `i`: after a table the scan
/// resumes on the first line after it.
pub open spec fn tables_from(lines: Seq<Seq<char>>, i: int, min_rows: nat) -> Seq<(Seq<Seq<Seq<char>>>, bool, int)>
    decreases if i < lines.len() { lines.len() - i } else { 0 },
{
    if i < 0 || i >= lines.len() {
        Seq::empty()
    } else {
        match table_at(lines, i, min_rows) {
            Some(t) => seq![t] + tables_from(lines, i + lines_taken(lines, i, t.0.len()), min_rows),
            None => tables_from(lines, i + 1, min_rows),
        }
    }
}

/// A table as rows of cells, header flag and first line.
pub open spec fn table_view(t: Table) -> (Seq<Seq<Seq<char>>>, bool, int) {
    (rows_view(t.rows@), t.has_header, t.start_line as int)
}

/// Whether the trimmed line is a separator line.
fn is_separator_line(line: &[char]) -> (r: bool)
    ensures
        r == is_separator(line@),
{
    let (a, b) = trim_bounds(line, 0, line.len());
    assert(line@.subrange(0, line@.len() as int) =~= line@);
    let ghost t = line@.subrange(a as int, b as int);
    if a == b {
        return false;
    }
    let mut k = a;
    let mut rules: usize = 0;
    while k < b
        invariant
            a <= k <= b <= line@.len(),
            t == line@.subrange(a as int, b as int),
            t == trim(line@),
            forall|i: int| 0 <= i < k - a ==> divider_char(#[trigger] t[i]),
            rules == rule_count(t, k - a),
            rules <= k - a,
        decreases b - k,
    {
        let c = line[k];
        if !(c == '-' || c == '=' || c == '|' || c == ' ' || c == ':') {
            assert(!divider_char(t[k - a]));
            return false;
        }
        if c == '-' || c == '=' {
            rules = rules + 1;
        }
        k += 1;
    }
    rules >= 2
}

/// Whether a first row reads as a header: short, digit-free cells.
fn looks_like_header(cols: &Vec<String>) -> (r: bool)
    ensures
        r == header_like(strs_view(cols@)),
{
    let mut i: usize = 0;
    while i < cols.len()
        invariant
            i <= cols@.len(),
            forall|p: int| 0 <= p < i ==> byte_len(#[trigger] strs_view(cols@)[p]) <= 20 && forall|j: int|
                0 <= j < strs_view(cols@)[p].len() ==> !is_digit(strs_view(cols@)[p][j]),
        decreases cols@.len() - i,
    {
        let c = chars_of(cols[i].as_str());
        assert(c@.subrange(0, c@.len() as int) =~= c@);
        match byte_len_capped(c.as_slice(), 0, c.len(), 20) {
            None => {
                assert(!(byte_len(strs_view(cols@)[i as int]) <= 20));
                return false;
            },
            Some(_) => {},
        }
        let mut j: usize = 0;
        while j < c.len()
            invariant
                j <= c@.len(),
                i < cols@.len(),
                c@ == strs_view(cols@)[i as int],
                forall|q: int| 0 <= q < j ==> !is_digit(c@[q]),
            decreases c@.len() - j,
        {
            if '0' <= c[j] && c[j] <= '9' {
                assert(is_digit(strs_view(cols@)[i as int][j as int]));
                return false;
            }
            j += 1;
        }
        i += 1;
    }
    true
}

/// Detects tables in text.
pub struct TableDetector {
    /// Minimum number of aligned rows to qualify as a table.
    pub min_rows: usize,
}

impl Default for TableDetector {
    fn default() -> (d: Self)
        ensures
            d.min_rows == 2,
    {
        TableDetector { min_rows: 2 }
    }
}

/// The line `k` of `text`, as chars.
fn line_at<'a>(text: &'a [char], spans: &Vec<(usize, usize)>, k: usize) -> (r: &'a [char])
    requires
        spans@ == line_spans(text@),
        k < spans@.len(),
        forall|q: int| #![trigger spans@[q]] 0 <= q < spans@.len() ==> spans@[q].0 <= spans@[q].1 <= text@.len(),
    ensures
        r@ == text_lines(text@)[k as int],
{
    let (a, b) = spans[k];
    vstd::slice::slice_subrange(text, a, b)
}

impl TableDetector {
    pub fn new() -> (d: Self)
        ensures
            d.min_rows == 2,
    {
        Self::default()
    }

    fn detect_starting_at(&self, text: &[char], spans: &Vec<(usize, usize)>, start: usize) -> (r: Option<Table>)
        requires
            spans@ == line_spans(text@),
            forall|q: int| #![trigger spans@[q]] 0 <= q < spans@.len() ==> spans@[q].0 <= spans@[q].1 <= text@.len(),
        ensures
            match r {
                Some(t) => table_at(text_lines(text@), start as int, self.min_rows as nat) == Some(table_view(t)),
                None => table_at(text_lines(text@), start as int, self.min_rows as nat) is None,
            },
    {
        let ghost lines = text_lines(text@);
        if start >= spans.len() {
            return None;
        }
        let first = line_at(text, spans, start);
        let cols = split_columns(first);
        let ghost ncols = columns(lines[start as int]).len();
        if cols.len() < 2 {
            return None;
        }
        let has_sep = start + 1 < spans.len() && is_separator_line(line_at(text, spans, start + 1));
        let mut rows: Vec<Vec<String>> = Vec::new();
        let mut off: usize = 0;
        let avail = spans.len() - start;
        while off < avail
            invariant
                spans@ == line_spans(text@),
                lines == text_lines(text@),
                lines.len() == spans@.len(),
                forall|q: int| #![trigger spans@[q]] 0 <= q < spans@.len() ==> spans@[q].0 <= spans@[q].1 <= text@.len(),
                start < spans@.len() <= usize::MAX,
                avail == spans@.len() - start,
                off <= avail,
                ncols == cols@.len(),
                table_rows(lines, start as int, 0, has_sep, ncols) == rows_view(rows@) + table_rows(
                    lines,
                    start as int,
                    off as int,
                    has_sep,
                    ncols,
                ),
            ensures
                table_rows(lines, start as int, 0, has_sep, ncols) == rows_view(rows@),
            decreases spans@.len() - (start + off),
        {
            if off == 1 && has_sep {
                off += 1;
            } else {
            assert(off < avail);
            assert(start + off < spans@.len());
            let line = line_at(text, spans, start + off);
            let lc = split_columns(line);
            let (ta, tb) = trim_bounds(line, 0, line.len());
            assert(line@.subrange(0, line@.len() as int) =~= line@);
            if lc.len() == cols.len() && ta < tb {
                let ghost before = rows_view(rows@);
                rows.push(lc);
                assert(rows_view(rows@) =~= before.push(strs_view(lc@)));
                assert(rows_view(rows@) + table_rows(lines, start as int, off + 1, has_sep, ncols) =~= before + (
                seq![strs_view(lc@)] + table_rows(lines, start as int, off + 1, has_sep, ncols)));
                off += 1;
            } else {
                assert(table_rows(lines, start as int, off as int, has_sep, ncols) =~= Seq::<Seq<Seq<char>>>::empty());
                assert(rows_view(rows@) + Seq::<Seq<Seq<char>>>::empty() =~= rows_view(rows@));
                break;
            }
            }
            proof {
                if off >= avail {
                    assert(rows_view(rows@) + table_rows(lines, start as int, off as int, has_sep, ncols) =~= rows_view(rows@));
                }
            }
        }
        proof {
            assert(first@ == lines[start as int]);
            assert(strs_view(cols@) == columns(lines[start as int]));
            assert(ncols == columns(lines[start as int]).len());
            assert(has_sep == (start + 1 < lines.len() && is_separator(lines[start + 1])));
            assert(rows_view(rows@) == table_rows(lines, start as int, 0, has_sep, ncols));
            assert(rows_view(rows@).len() == rows@.len());
        }
        if rows.len() < self.min_rows {
            return None;
        }
        let has_header = has_sep || looks_like_header(&cols);
        let t = Table { rows, has_header, start_line: start + 1 };
        assert(table_view(t) == (rows_view(rows@), has_header, start + 1));
        Some(t)
    }

    /// Scan `text` and return all detected tables.
    pub fn detect(&self, text: &str) -> (r: Vec<Table>)
        ensures
            r@.map_values(|t: Table| table_view(t)) == tables_from(text_lines(text@), 0, self.min_rows as nat),
    {
        let chars = chars_of(text);
        let spans = lines_of(chars.as_slice());
        let ghost lines = text_lines(chars@);
        let mut tables: Vec<Table> = Vec::new();
        let mut i: usize = 0;
        while i < spans.len()
            invariant
                chars@ == text@,
                spans@ == line_spans(chars@),
                lines == text_lines(chars@),
                lines.len() == spans@.len(),
                forall|q: int| #![trigger spans@[q]] 0 <= q < spans@.len() ==> spans@[q].0 <= spans@[q].1 <= chars@.len(),
                i <= spans@.len(),
                tables_from(lines, 0, self.min_rows as nat) == tables@.map_values(|t: Table| table_view(t))
                    + tables_from(lines, i as int, self.min_rows as nat),
            decreases spans@.len() - i,
        {
            let candidate = self.detect_starting_at(chars.as_slice(), &spans, i);
            match candidate {
                Some(table) => {
                    let row_count = table.rows.len();
                    let ghost tv = table_view(table);
                    let ghost before = tables@.map_values(|t: Table| table_view(t));
                    let sep = i + 1 < spans.len() && is_separator_line(line_at(chars.as_slice(), &spans, i + 1));
                    proof {
                        let cols = columns(lines[i as int]);
                        let has_sep = i + 1 < lines.len() && is_separator(lines[i + 1]);
                        assert(sep == sep_under(lines, i as int));
                        lemma_table_rows_bound(lines, i as int, 0, has_sep, cols.len());
                        if has_sep {
                            lemma_table_rows_bound_sep(lines, i as int, cols.len());
                        }
                    }
                    tables.push(table);
                    assert(tables@.map_values(|t: Table| table_view(t)) =~= before.push(tv));
                    let span = if sep && row_count > 0 { row_count + 1 } else { row_count };
                    let step = if span > 1 { span } else { 1 };
                    assert(step == lines_taken(lines, i as int, tv.0.len()));
                    assert(before.push(tv) + tables_from(lines, i + step, self.min_rows as nat) =~= before + (seq![tv] + tables_from(lines, i + step, self.min_rows as nat)));
                    i += step;
                },
                None => {
                    i += 1;
                },
            }
        }
        assert(tables@.map_values(|t: Table| table_view(t)) + tables_from(lines, i as int, self.min_rows as nat) =~= tables@.map_values(|t: Table| table_view(t)));
        tables
    }
}

proof fn lemma_table_rows_cells(lines: Seq<Seq<char>>, start: int, off: int, has_sep: bool, ncols: nat)
    ensures
        forall|k: int| #![trigger table_rows(lines, start, off, has_sep, ncols)[k]]
            0 <= k < table_rows(lines, start, off, has_sep, ncols).len()
            ==> table_rows(lines, start, off, has_sep, ncols)[k].len() == ncols,
    decreases lines.len() - (start + off),
{
    if start + off >= lines.len() || start + off < 0 {
    } else if off == 1 && has_sep {
        lemma_table_rows_cells(lines, start, off + 1, has_sep, ncols);
        assert(table_rows(lines, start, off, has_sep, ncols) == table_rows(lines, start, off + 1, has_sep, ncols));
    } else {
        lemma_table_rows_cells(lines, start, off + 1, has_sep, ncols);
        let lc = columns(lines[start + off]);
        if lc.len() == ncols && trim(lines[start + off]).len() > 0 {
            let rest = table_rows(lines, start, off + 1, has_sep, ncols);
            let all = table_rows(lines, start, off, has_sep, ncols);
            assert forall|k: int| #![trigger all[k]] 0 <= k < all.len() implies all[k].len() == ncols by {
                if k > 0 {
                    assert(all[k] == rest[k - 1]);
                }
            }
        }
    }
}

/// A table is well formed: at least `min_rows` rows, each of the same
/// number (at least two) of cells; its first row is its first line's cells;
/// and it has a header exactly when a separator line is under its first line
/// or that line's cells read as a header.
pub open spec fn table_ok(lines: Seq<Seq<char>>, t: (Seq<Seq<Seq<char>>>, bool, int), min_rows: nat) -> bool {
    &&& 1 <= t.2 <= lines.len()
    &&& t.0.len() >= min_rows
    &&& forall|r: int| #![trigger t.0[r]] 0 <= r < t.0.len() ==> t.0[r].len() == t.0[0].len() && t.0[r].len() >= 2
    &&& t.0.len() > 0 ==> t.0[0] == columns(lines[t.2 - 1])
    &&& t.1 == (sep_under(lines, t.2 - 1) || header_like(columns(lines[t.2 - 1])))
}

/// Every table found from line `i` on is well formed; the tables come in
/// order of their first line, after line `i`, and each starts after the last
/// line of the one before (its rows and its separator line).
pub proof fn table_laws(lines: Seq<Seq<char>>, i: int, min_rows: nat)
    requires
        0 <= i,
    ensures
        forall|k: int| #![trigger tables_from(lines, i, min_rows)[k]] 0 <= k < tables_from(lines, i, min_rows).len()
            ==> table_ok(lines, tables_from(lines, i, min_rows)[k], min_rows) && tables_from(lines, i, min_rows)[k].2 > i,
        forall|k: int, l: int| #![trigger tables_from(lines, i, min_rows)[k], tables_from(lines, i, min_rows)[l]]
            0 <= k < l < tables_from(lines, i, min_rows).len() ==> tables_from(lines, i, min_rows)[k].2
                + lines_taken(lines, tables_from(lines, i, min_rows)[k].2 - 1, tables_from(lines, i, min_rows)[k].0.len())
                <= tables_from(lines, i, min_rows)[l].2,
    decreases if i < lines.len() { lines.len() - i } else { 0 },
{
    if i < lines.len() {
        let ts = tables_from(lines, i, min_rows);
        match table_at(lines, i, min_rows) {
            Some(t) => {
                let step = lines_taken(lines, i, t.0.len());
                table_laws(lines, i + step, min_rows);
                let rest = tables_from(lines, i + step, min_rows);
                assert(ts == seq![t] + rest);
                let cols = columns(lines[i]);
                let has_sep = i + 1 < lines.len() && is_separator(lines[i + 1]);
                lemma_table_rows_cells(lines, i, 0, has_sep, cols.len());
                assert(t.0 == table_rows(lines, i, 0, has_sep, cols.len()));
                assert(cols.len() >= 2);
                if t.0.len() > 0 {
                    assert(t.0[0] == cols);
                }
                assert(table_ok(lines, t, min_rows));
                assert forall|k: int| #![trigger ts[k]] 0 <= k < ts.len() implies table_ok(lines, ts[k], min_rows) && ts[k].2 > i by {
                    if k > 0 {
                        assert(ts[k] == rest[k - 1]);
                    }
                }
                assert forall|k: int, l: int| #![trigger ts[k], ts[l]] 0 <= k < l < ts.len() implies ts[k].2
                    + lines_taken(lines, ts[k].2 - 1, ts[k].0.len()) <= ts[l].2 by {
                    assert(ts[l] == rest[l - 1]);
                    if k > 0 {
                        assert(ts[k] == rest[k - 1]);
                    }
                }
            },
            None => {
                table_laws(lines, i + 1, min_rows);
                assert(ts == tables_from(lines, i + 1, min_rows));
            },
        }
    }
}

/// The header rule: a table with a separator line under its first line
/// has a header; a table without one whose first row has a cell holding an
/// ASCII digit has none.
pub proof fn table_header_rule(lines: Seq<Seq<char>>, i: int, min_rows: nat)
    requires
        0 <= i,
    ensures
        forall|k: int| #![trigger tables_from(lines, i, min_rows)[k]] 0 <= k < tables_from(lines, i, min_rows).len()
            ==> {
            let t = tables_from(lines, i, min_rows)[k];
            &&& (t.2 < lines.len() && is_separator(lines[t.2])) ==> t.1
            &&& (t.0.len() > 0 && !(t.2 < lines.len() && is_separator(lines[t.2])) && exists|c: int, j: int|
                0 <= c < t.0[0].len() && 0 <= j < t.0[0][c].len() && '0' <= #[trigger] t.0[0][c][j] && t.0[0][c][j] <= '9')
                ==> !t.1
        },
{
    table_laws(lines, i, min_rows);
    let ts = tables_from(lines, i, min_rows);
    assert forall|k: int| #![trigger ts[k]] 0 <= k < ts.len() implies {
        let t = ts[k];
        &&& (t.2 < lines.len() && is_separator(lines[t.2])) ==> t.1
        &&& (t.0.len() > 0 && !(t.2 < lines.len() && is_separator(lines[t.2])) && exists|c: int, j: int|
            0 <= c < t.0[0].len() && 0 <= j < t.0[0][c].len() && '0' <= #[trigger] t.0[0][c][j] && t.0[0][c][j] <= '9')
            ==> !t.1
    } by {
        let t = ts[k];
        assert(table_ok(lines, t, min_rows));
        if t.0.len() > 0 && !(t.2 < lines.len() && is_separator(lines[t.2])) && exists|c: int, j: int|
            0 <= c < t.0[0].len() && 0 <= j < t.0[0][c].len() && '0' <= #[trigger] t.0[0][c][j] && t.0[0][c][j] <= '9' {
            let (c, j) = choose|c: int, j: int|
                0 <= c < t.0[0].len() && 0 <= j < t.0[0][c].len() && '0' <= #[trigger] t.0[0][c][j] && t.0[0][c][j] <= '9';
            let cols = columns(lines[t.2 - 1]);
            assert(t.0[0] == cols);
            assert(is_digit(cols[c][j]));
            assert(!header_like(cols));
        }
    }
}

proof fn lemma_table_rows_bound(lines: Seq<Seq<char>>, start: int, off: int, has_sep: bool, ncols: nat)
    requires
        0 <= start,
        0 <= off,
    ensures
        start + off <= lines.len() ==> table_rows(lines, start, off, has_sep, ncols).len() <= lines.len() - start - off,
    decreases lines.len() - start - off,
{
    if start + off < lines.len() {
        lemma_table_rows_bound(lines, start, off + 1, has_sep, ncols);
    }
}

proof fn lemma_table_rows_bound_sep(lines: Seq<Seq<char>>, start: int, ncols: nat)
    requires
        0 <= start,
        start + 1 < lines.len(),
    ensures
        table_rows(lines, start, 0, true, ncols).len() <= lines.len() - start - 1,
{
    lemma_table_rows_bound(lines, start, 2, true, ncols);
    assert(table_rows(lines, start, 1, true, ncols) == table_rows(lines, start, 2, true, ncols));
}

} // verus!
