//! The Markdown parser: headings, paragraphs, lists, code blocks and
//! blockquotes, from the CommonMark event stream of `pulldown_cmark`.

use vstd::prelude::*;
use crate::document::{Block, Document, DocumentFormat, Section};
use crate::parse::{
    blocks_view, doc_from_text, doc_view, opt_view, section_view, text_doc, BlockView,
    ParseError,
};
use pulldown_cmark::{CodeBlockKind, Event, Options, Parser, Tag, TagEnd};
use crate::textutil::{chars_of, decode_lossy, string_from_chars, trim, trim_bounds, utf8_lossy};

verus! {

/// A Markdown parser event, as plain values.
pub enum MdEvent {
    StartHeading(u8),
    StartParagraph,
    StartList,
    StartItem,
    StartCodeBlock(Option<Seq<char>>),
    StartBlockQuote,
    StartOther,
    EndHeading(u8),
    EndParagraph,
    EndItem,
    EndList,
    EndCodeBlock,
    EndBlockQuote,
    EndOther,
    Text(Seq<char>),
    Code(Seq<char>),
    InlineMath(Seq<char>),
    DisplayMath(Seq<char>),
    SoftBreak,
    HardBreak,
    Other,
}

/// The events of `pulldown_cmark::Parser::new_ext(text, opts)` with tables,
/// strikethrough and task lists enabled.
pub uninterp spec fn md_events(text: Seq<char>) -> Seq<MdEvent>;

/// The code of an opening tag event, or 0.
pub open spec fn start_code(e: MdEvent) -> u8 {
    match e {
        MdEvent::StartHeading(_) => 1,
        MdEvent::StartParagraph => 2,
        MdEvent::StartList => 3,
        MdEvent::StartItem => 4,
        MdEvent::StartCodeBlock(_) => 5,
        MdEvent::StartBlockQuote => 6,
        MdEvent::StartOther => 7,
        _ => 0,
    }
}

/// The code of a closing tag event, or 0.
pub open spec fn end_code(e: MdEvent) -> u8 {
    match e {
        MdEvent::EndHeading(_) => 8,
        MdEvent::EndParagraph => 9,
        MdEvent::EndItem => 10,
        MdEvent::EndList => 11,
        MdEvent::EndCodeBlock => 12,
        MdEvent::EndBlockQuote => 13,
        MdEvent::EndOther => 14,
        _ => 0,
    }
}

/// The code of any other event, or 0 for tag events.
pub open spec fn other_code(e: MdEvent) -> u8 {
    match e {
        MdEvent::Text(_) => 15,
        MdEvent::Code(_) => 16,
        MdEvent::InlineMath(_) => 17,
        MdEvent::DisplayMath(_) => 18,
        MdEvent::SoftBreak => 19,
        MdEvent::HardBreak => 20,
        MdEvent::Other => 21,
        _ => 0,
    }
}

/// The heading level of a heading event, or 0.
pub open spec fn level_of(e: MdEvent) -> u8 {
    match e {
        MdEvent::StartHeading(l) => l,
        MdEvent::EndHeading(l) => l,
        _ => 0,
    }
}

/// The text of a text event, or the language of a code block.
pub open spec fn payload_of(e: MdEvent) -> Option<Seq<char>> {
    match e {
        MdEvent::Text(t) => Some(t),
        MdEvent::Code(t) => Some(t),
        MdEvent::InlineMath(t) => Some(t),
        MdEvent::DisplayMath(t) => Some(t),
        MdEvent::StartCodeBlock(l) => l,
        _ => None,
    }
}

/// The event with the given code, level and payload.
pub open spec fn decode_event(code: u8, level: u8, payload: Option<Seq<char>>) -> MdEvent {
    let t = match payload {
        Some(t) => t,
        None => Seq::empty(),
    };
    if code == 1 {
        MdEvent::StartHeading(level)
    } else if code == 2 {
        MdEvent::StartParagraph
    } else if code == 3 {
        MdEvent::StartList
    } else if code == 4 {
        MdEvent::StartItem
    } else if code == 5 {
        MdEvent::StartCodeBlock(payload)
    } else if code == 6 {
        MdEvent::StartBlockQuote
    } else if code == 7 {
        MdEvent::StartOther
    } else if code == 8 {
        MdEvent::EndHeading(level)
    } else if code == 9 {
        MdEvent::EndParagraph
    } else if code == 10 {
        MdEvent::EndItem
    } else if code == 11 {
        MdEvent::EndList
    } else if code == 12 {
        MdEvent::EndCodeBlock
    } else if code == 13 {
        MdEvent::EndBlockQuote
    } else if code == 14 {
        MdEvent::EndOther
    } else if code == 15 {
        MdEvent::Text(t)
    } else if code == 16 {
        MdEvent::Code(t)
    } else if code == 17 {
        MdEvent::InlineMath(t)
    } else if code == 18 {
        MdEvent::DisplayMath(t)
    } else if code == 19 {
        MdEvent::SoftBreak
    } else if code == 20 {
        MdEvent::HardBreak
    } else {
        MdEvent::Other
    }
}

proof fn lemma_decode(e: MdEvent)
    ensures
        decode_event((start_code(e) + end_code(e) + other_code(e)) as u8, level_of(e), payload_of(e)) == e,
{
}

/// `pulldown_cmark::Parser::new_ext(text, opts)` with tables,
/// strikethrough and task lists, each event's opening-tag code (0 for other
/// events); the contract claims these are the codes of the events that
/// `md_events` stands for.
#[verifier::external_body]
fn md_start_codes(text: &str) -> (r: Vec<u8>)
    ensures
        r@ == md_events(text@).map_values(|e: MdEvent| start_code(e)),
{
    let opts = Options::ENABLE_TABLES | Options::ENABLE_STRIKETHROUGH | Options::ENABLE_TASKLISTS;
    Parser::new_ext(text, opts).map(|e| match e {
        Event::Start(Tag::Heading { .. }) => 1,
        Event::Start(Tag::Paragraph) => 2,
        Event::Start(Tag::List(_)) => 3,
        Event::Start(Tag::Item) => 4,
        Event::Start(Tag::CodeBlock(_)) => 5,
        Event::Start(Tag::BlockQuote(_)) => 6,
        Event::Start(_) => 7,
        _ => 0,
    }).collect()
}

/// The same events' closing-tag codes (0 for other events); the contract
/// claims these are the codes of the events that `md_events` stands for.
#[verifier::external_body]
fn md_end_codes(text: &str) -> (r: Vec<u8>)
    ensures
        r@ == md_events(text@).map_values(|e: MdEvent| end_code(e)),
{
    let opts = Options::ENABLE_TABLES | Options::ENABLE_STRIKETHROUGH | Options::ENABLE_TASKLISTS;
    Parser::new_ext(text, opts).map(|e| match e {
        Event::End(TagEnd::Heading(_)) => 8,
        Event::End(TagEnd::Paragraph) => 9,
        Event::End(TagEnd::Item) => 10,
        Event::End(TagEnd::List(_)) => 11,
        Event::End(TagEnd::CodeBlock) => 12,
        Event::End(TagEnd::BlockQuote(_)) => 13,
        Event::End(_) => 14,
        _ => 0,
    }).collect()
}

/// The same events' codes as text, code, math, breaks or other (0 for tag
/// events); the contract claims these are the codes of the events that
/// `md_events` stands for.
#[verifier::external_body]
fn md_other_codes(text: &str) -> (r: Vec<u8>)
    ensures
        r@ == md_events(text@).map_values(|e: MdEvent| other_code(e)),
{
    let opts = Options::ENABLE_TABLES | Options::ENABLE_STRIKETHROUGH | Options::ENABLE_TASKLISTS;
    Parser::new_ext(text, opts).map(|e| match e {
        Event::Text(_) => 15,
        Event::Code(_) => 16,
        Event::InlineMath(_) => 17,
        Event::DisplayMath(_) => 18,
        Event::SoftBreak => 19,
        Event::HardBreak => 20,
        Event::Start(_) | Event::End(_) => 0,
        _ => 21,
    }).collect()
}

/// The same events' heading levels (0 for non-heading events); the contract
/// claims these are the levels of the events that `md_events` stands for.
#[verifier::external_body]
fn md_levels(text: &str) -> (r: Vec<u8>)
    ensures
        r@ == md_events(text@).map_values(|e: MdEvent| level_of(e)),
{
    let opts = Options::ENABLE_TABLES | Options::ENABLE_STRIKETHROUGH | Options::ENABLE_TASKLISTS;
    Parser::new_ext(text, opts).map(|e| match e {
        Event::Start(Tag::Heading { level, .. }) => level as u8,
        Event::End(TagEnd::Heading(level)) => level as u8,
        _ => 0,
    }).collect()
}

/// The same events' texts, and the languages of fenced code blocks; the
/// contract claims these are the payloads of the events that `md_events`
/// stands for.
#[verifier::external_body]
fn md_payloads(text: &str) -> (r: Vec<Option<String>>)
    ensures
        r@.map_values(|o: Option<String>| opt_view(o)) == md_events(text@).map_values(|e: MdEvent| payload_of(e)),
{
    let opts = Options::ENABLE_TABLES | Options::ENABLE_STRIKETHROUGH | Options::ENABLE_TASKLISTS;
    Parser::new_ext(text, opts).map(|e| match e {
        Event::Text(t) | Event::Code(t) | Event::InlineMath(t) | Event::DisplayMath(t) => Some(t.into_string()),
        Event::Start(Tag::CodeBlock(CodeBlockKind::Fenced(l))) => Some(l.into_string()),
        _ => None,
    }).collect()
}

/// Which buffer is currently accumulating inline text.
#[derive(Debug, Clone, Copy, PartialEq, Eq, Structural)]
pub enum Scope {
    Outside,
    Heading,
    Paragraph,
    ListItem,
    Code,
    Quote,
}

/// The state of the Markdown fold.
pub struct MdState {
    pub title: Option<Seq<char>>,
    pub sections: Seq<(Option<Seq<char>>, u8, Seq<BlockView>)>,
    pub level: u8,
    pub blocks: Seq<BlockView>,
    pub scope: Scope,
    pub buf: Seq<char>,
    pub items: Seq<Seq<char>>,
    pub lang: Option<Seq<char>>,
}

/// The state before the first event.
pub open spec fn md_init() -> MdState {
    MdState {
        title: None,
        sections: Seq::empty(),
        level: 0,
        blocks: Seq::empty(),
        scope: Scope::Outside,
        buf: Seq::empty(),
        items: Seq::empty(),
        lang: None,
    }
}

/// The state with the pending blocks closed into a section (when there are
/// any) and a new section of level `level` begun.
pub open spec fn md_new_section(s: MdState, level: u8) -> MdState {
    MdState {
        sections: if s.blocks.len() > 0 { s.sections.push((None, s.level, s.blocks)) } else { s.sections },
        blocks: if s.blocks.len() > 0 { Seq::empty() } else { s.blocks },
        level,
        ..s
    }
}

/// One step of the fold.
pub open spec fn md_step(s: MdState, e: MdEvent) -> MdState {
    match e {
        MdEvent::StartHeading(l) => {
            let s2 = MdState { scope: Scope::Heading, buf: Seq::empty(), ..s };
            if l > 1 {
                md_new_section(s2, l)
            } else {
                s2
            }
        },
        MdEvent::StartParagraph => MdState { scope: Scope::Paragraph, buf: Seq::empty(), ..s },
        MdEvent::StartList => MdState { items: Seq::empty(), ..s },
        MdEvent::StartItem => MdState { scope: Scope::ListItem, buf: Seq::empty(), ..s },
        MdEvent::StartCodeBlock(lang) => MdState { scope: Scope::Code, buf: Seq::empty(), lang, ..s },
        MdEvent::StartBlockQuote => MdState { scope: Scope::Quote, buf: Seq::empty(), ..s },
        MdEvent::EndHeading(l) => {
            let t = trim(s.buf);
            MdState {
                title: if l == 1 && s.title is None { Some(t) } else { s.title },
                blocks: s.blocks.push(BlockView::Heading(l, t)),
                scope: Scope::Outside,
                ..s
            }
        },
        MdEvent::EndParagraph => MdState {
            blocks: if trim(s.buf).len() > 0 { s.blocks.push(BlockView::Paragraph(trim(s.buf))) } else { s.blocks },
            scope: Scope::Outside,
            ..s
        },
        MdEvent::EndItem => MdState { items: s.items.push(trim(s.buf)), scope: Scope::Outside, ..s },
        MdEvent::EndList => MdState {
            blocks: if s.items.len() > 0 { s.blocks.push(BlockView::List(s.items)) } else { s.blocks },
            items: Seq::empty(),
            scope: Scope::Outside,
            ..s
        },
        MdEvent::EndCodeBlock => MdState {
            blocks: s.blocks.push(BlockView::Code(s.lang, trim(s.buf))),
            lang: None,
            scope: Scope::Outside,
            ..s
        },
        MdEvent::EndBlockQuote => MdState {
            blocks: if trim(s.buf).len() > 0 { s.blocks.push(BlockView::Quote(trim(s.buf))) } else { s.blocks },
            scope: Scope::Outside,
            ..s
        },
        MdEvent::Text(t) => if s.scope != Scope::Outside { MdState { buf: s.buf + t, ..s } } else { s },
        MdEvent::Code(t) => if s.scope != Scope::Outside { MdState { buf: s.buf + t, ..s } } else { s },
        MdEvent::InlineMath(t) => if s.scope != Scope::Outside { MdState { buf: s.buf + t, ..s } } else { s },
        MdEvent::DisplayMath(t) => if s.scope != Scope::Outside { MdState { buf: s.buf + t, ..s } } else { s },
        MdEvent::SoftBreak | MdEvent::HardBreak => if s.scope == Scope::Paragraph || s.scope == Scope::Quote
            || s.scope == Scope::Heading || s.scope == Scope::ListItem {
            MdState { buf: s.buf.push(' '), ..s }
        } else if s.scope == Scope::Code {
            MdState { buf: s.buf.push('\n'), ..s }
        } else {
            s
        },
        _ => s,
    }
}

/// The state after the first `n` events.
pub open spec fn md_run(events: Seq<MdEvent>, n: int) -> MdState
    decreases n,
{
    if n <= 0 {
        md_init()
    } else {
        md_step(md_run(events, n - 1), events[n - 1])
    }
}

/// The sections of a final state, the pending blocks closed.
pub open spec fn md_sections(s: MdState) -> Seq<(Option<Seq<char>>, u8, Seq<BlockView>)> {
    if s.blocks.len() > 0 {
        s.sections.push((None, s.level, s.blocks))
    } else {
        s.sections
    }
}

/// The document of a Markdown text: from its events, or, when they make no
/// section, from its text as plain paragraphs.
pub open spec fn md_doc(text: Seq<char>) -> (Option<Seq<char>>, DocumentFormat, Seq<(Option<Seq<char>>, u8, Seq<BlockView>)>) {
    let ev = md_events(text);
    let s = md_run(ev, ev.len() as int);
    if md_sections(s).len() == 0 {
        text_doc(DocumentFormat::Markdown, text)
    } else {
        (s.title, DocumentFormat::Markdown, md_sections(s))
    }
}

/// The blocks of the sections, one section after the other.
pub open spec fn flat_blocks(secs: Seq<(Option<Seq<char>>, u8, Seq<BlockView>)>) -> Seq<BlockView>
    decreases secs.len(),
{
    if secs.len() == 0 {
        Seq::empty()
    } else {
        flat_blocks(secs.drop_last()) + secs.last().2
    }
}

/// Every block made so far: those of the closed sections, then the pending
/// ones.
pub open spec fn made_blocks(s: MdState) -> Seq<BlockView> {
    flat_blocks(s.sections) + s.blocks
}

/// `a` is a prefix of `b`.
pub open spec fn prefix_of(a: Seq<BlockView>, b: Seq<BlockView>) -> bool {
    a.len() <= b.len() && forall|p: int| 0 <= p < a.len() ==> #[trigger] b[p] == a[p]
}

proof fn lemma_flat_push(secs: Seq<(Option<Seq<char>>, u8, Seq<BlockView>)>, x: (Option<Seq<char>>, u8, Seq<BlockView>))
    ensures
        flat_blocks(secs.push(x)) == flat_blocks(secs) + x.2,
{
    assert(secs.push(x).drop_last() =~= secs);
}

/// A step of the fold keeps every block made so far, in place.
proof fn lemma_step_keeps(s: MdState, e: MdEvent)
    ensures
        prefix_of(made_blocks(s), made_blocks(md_step(s, e))),
{
    let t = md_step(s, e);
    let a = made_blocks(s);
    let b = made_blocks(t);
    match e {
        MdEvent::StartHeading(l) => {
            if l > 1 && s.blocks.len() > 0 {
                lemma_flat_push(s.sections, (None, s.level, s.blocks));
                assert(b =~= a);
            } else {
                assert(b =~= a);
            }
        },
        _ => {
            assert forall|p: int| 0 <= p < a.len() implies #[trigger] b[p] == a[p] by {
                if p < flat_blocks(s.sections).len() {
                    assert(t.sections == s.sections);
                } else {
                    assert(t.sections == s.sections);
                }
            }
        },
    }
}

proof fn lemma_run_keeps(ev: Seq<MdEvent>, a: int, b: int)
    requires
        0 <= a <= b <= ev.len(),
    ensures
        prefix_of(made_blocks(md_run(ev, a)), made_blocks(md_run(ev, b))),
    decreases b - a,
{
    if a < b {
        lemma_run_keeps(ev, a, b - 1);
        lemma_step_keeps(md_run(ev, b - 1), ev[b - 1]);
        let x = made_blocks(md_run(ev, a));
        let y = made_blocks(md_run(ev, b - 1));
        let z = made_blocks(md_run(ev, b));
        assert forall|p: int| 0 <= p < x.len() implies #[trigger] z[p] == x[p] by {
            assert(y[p] == x[p]);
            assert(z[p] == y[p]);
        }
    }
}

proof fn lemma_lang_kept(ev: Seq<MdEvent>, i: int, m: int, lang: Option<Seq<char>>)
    requires
        0 <= i < m <= ev.len(),
        ev[i] == MdEvent::StartCodeBlock(lang),
        forall|q: int| i < q < m ==> !(#[trigger] ev[q] is StartCodeBlock) && !(ev[q] is EndCodeBlock),
    ensures
        md_run(ev, m).lang == lang,
    decreases m - i,
{
    if m > i + 1 {
        lemma_lang_kept(ev, i, m - 1, lang);
        assert(!(ev[m - 1] is StartCodeBlock) && !(ev[m - 1] is EndCodeBlock));
    }
}

/// A fenced code block keeps its language: when the events of a text open a
/// code block with language `lang` (the fence's info string, or none) and
/// close it with no other code block between, the document has a code
/// block with that language.
pub proof fn md_code_keeps_language(text: Seq<char>, i: int, j: int, lang: Option<Seq<char>>)
    requires
        0 <= i < j < md_events(text).len(),
        md_events(text)[i] == MdEvent::StartCodeBlock(lang),
        md_events(text)[j] == MdEvent::EndCodeBlock,
        forall|q: int| i < q < j ==> !(#[trigger] md_events(text)[q] is StartCodeBlock) && !(md_events(text)[q] is EndCodeBlock),
    ensures
        exists|t: Seq<char>| flat_blocks(md_doc(text).2).contains(BlockView::Code(lang, t)),
{
    let ev = md_events(text);
    lemma_lang_kept(ev, i, j, lang);
    let sj = md_run(ev, j);
    let s1 = md_run(ev, j + 1);
    let code = BlockView::Code(lang, trim(sj.buf));
    assert(s1.blocks == sj.blocks.push(code));
    assert(s1.sections == sj.sections);
    let m1 = made_blocks(s1);
    assert(m1[m1.len() - 1] == code);
    lemma_run_keeps(ev, j + 1, ev.len() as int);
    let s = md_run(ev, ev.len() as int);
    let all = made_blocks(s);
    assert(all[m1.len() - 1] == code);
    if s.blocks.len() > 0 {
        lemma_flat_push(s.sections, (None, s.level, s.blocks));
        assert(flat_blocks(md_sections(s)) == all);
    } else {
        assert(all =~= flat_blocks(s.sections));
        assert(flat_blocks(md_sections(s)) == all);
        assert(s.sections.len() > 0);
    }
    assert(md_doc(text).2 == md_sections(s));
    assert(flat_blocks(md_doc(text).2).contains(code));
}

/// A copy of a string.
fn copy_string(s: &String) -> (r: String)
    ensures
        r@ == s@,
{
    s.clone()
}

/// The trimmed chars of `buf` as a string.
fn trimmed(buf: &Vec<char>) -> (r: String)
    ensures
        r@ == trim(buf@),
{
    let (a, b) = trim_bounds(buf.as_slice(), 0, buf.len());
    assert(buf@.subrange(0, buf@.len() as int) =~= buf@);
    string_from_chars(vstd::slice::slice_subrange(buf.as_slice(), a, b))
}

/// The chars of a string pushed onto `buf`.
fn push_str(buf: &mut Vec<char>, t: &String)
    ensures
        final(buf)@ == old(buf)@ + t@,
{
    let c = chars_of(t.as_str());
    let mut j: usize = 0;
    while j < c.len()
        invariant
            j <= c@.len(),
            buf@ == old(buf)@ + c@.take(j as int),
        decreases c@.len() - j,
    {
        buf.push(c[j]);
        j += 1;
        assert(buf@ =~= old(buf)@ + c@.take(j as int));
    }
    assert(c@.take(j as int) =~= c@);
}

/// Parse Markdown bytes (invalid UTF-8 replaced) into a document; level-2+
/// headings start new sections.
pub fn parse(input: &[u8]) -> (r: Result<Document, ParseError>)
    ensures
        r matches Ok(d) && doc_view(d) == md_doc(utf8_lossy(input@)),
{
    let text = decode_lossy(input);
    let starts = md_start_codes(text.as_str());
    let ends = md_end_codes(text.as_str());
    let others = md_other_codes(text.as_str());
    let levels = md_levels(text.as_str());
    let payloads = md_payloads(text.as_str());
    let ghost ev = md_events(text@);
    assert(payloads@.map_values(|o: Option<String>| opt_view(o)).len() == payloads@.len());
    let mut title: Option<String> = None;
    let mut sections: Vec<Section> = Vec::new();
    let mut level: u8 = 0;
    let mut blocks: Vec<Block> = Vec::new();
    let mut scope = Scope::Outside;
    let mut buf: Vec<char> = Vec::new();
    let mut items: Vec<String> = Vec::new();
    let mut lang: Option<String> = None;
    let mut i: usize = 0;
    while i < starts.len()
        invariant
            starts@ == ev.map_values(|e: MdEvent| start_code(e)),
            ends@ == ev.map_values(|e: MdEvent| end_code(e)),
            others@ == ev.map_values(|e: MdEvent| other_code(e)),
            levels@ == ev.map_values(|e: MdEvent| level_of(e)),
            payloads@.map_values(|o: Option<String>| opt_view(o)) == ev.map_values(|e: MdEvent| payload_of(e)),
            i <= ev.len(),
            payloads@.len() == ev.len(),
            ({
                let s = md_run(ev, i as int);
                &&& opt_view(title) == s.title
                &&& sections@.map_values(|x: Section| section_view(x)) == s.sections
                &&& level == s.level
                &&& blocks_view(blocks@) == s.blocks
                &&& scope == s.scope
                &&& buf@ == s.buf
                &&& items@.map_values(|x: String| x@) == s.items
                &&& opt_view(lang) == s.lang
            }),
        decreases ev.len() - i,
    {
        let code = starts[i] + ends[i] + others[i];
        let lvl = levels[i];
        proof {
            assert(starts@[i as int] == start_code(ev[i as int]));
            assert(ends@[i as int] == end_code(ev[i as int]));
            assert(others@[i as int] == other_code(ev[i as int]));
            assert(levels@[i as int] == level_of(ev[i as int]));
            assert(payloads@.map_values(|o: Option<String>| opt_view(o))[i as int] == opt_view(payloads@[i as int]));
            assert(opt_view(payloads@[i as int]) == payload_of(ev[i as int]));
            lemma_decode(ev[i as int]);
        }
        let ghost e = ev[i as int];
        let ghost s = md_run(ev, i as int);
        assert(e == decode_event(code, lvl, opt_view(payloads@[i as int])));
        assert(md_run(ev, i + 1) == md_step(s, e));
        let ghost bv = blocks_view(blocks@);
        if code == 1 {
            scope = Scope::Heading;
            buf = Vec::new();
            if lvl > 1 {
                if blocks.len() > 0 {
                    let mut done = Vec::new();
                    std::mem::swap(&mut done, &mut blocks);
                    let ghost sv = sections@.map_values(|x: Section| section_view(x));
                    let sec = Section { heading: None, level, blocks: done };
                    sections.push(sec);
                    assert(sections@.map_values(|x: Section| section_view(x)) =~= sv.push(section_view(sec)));
                }
                level = lvl;
            }
        } else if code == 2 {
            scope = Scope::Paragraph;
            buf = Vec::new();
        } else if code == 3 {
            items = Vec::new();
        } else if code == 4 {
            scope = Scope::ListItem;
            buf = Vec::new();
        } else if code == 5 {
            scope = Scope::Code;
            buf = Vec::new();
            lang = match &payloads[i] {
                Some(l) => Some(copy_string(l)),
                None => None,
            };
        } else if code == 6 {
            scope = Scope::Quote;
            buf = Vec::new();
        } else if code == 8 {
            let t = trimmed(&buf);
            if lvl == 1 && title.is_none() {
                title = Some(copy_string(&t));
            }
            let ghost tv = t@;
            blocks.push(Block::Heading { level: lvl, text: t });
            assert(blocks_view(blocks@) =~= bv.push(BlockView::Heading(lvl, tv)));
            scope = Scope::Outside;
        } else if code == 9 {
            let t = trimmed(&buf);
            if !t.as_str().is_empty() {
                let ghost tv = t@;
                blocks.push(Block::Paragraph { text: t });
                assert(blocks_view(blocks@) =~= bv.push(BlockView::Paragraph(tv)));
            }
            scope = Scope::Outside;
        } else if code == 10 {
            let t = trimmed(&buf);
            let ghost iv = items@.map_values(|x: String| x@);
            let ghost tv = t@;
            items.push(t);
            assert(items@.map_values(|x: String| x@) =~= iv.push(tv));
            scope = Scope::Outside;
        } else if code == 11 {
            if items.len() > 0 {
                let mut done = Vec::new();
                std::mem::swap(&mut done, &mut items);
                let ghost dv = done@.map_values(|x: String| x@);
                blocks.push(Block::List { items: done });
                assert(blocks_view(blocks@) =~= bv.push(BlockView::List(dv)));
            }
            scope = Scope::Outside;
        } else if code == 12 {
            let t = trimmed(&buf);
            let l = lang.take();
            let ghost lv = opt_view(l);
            let ghost tv = t@;
            blocks.push(Block::Code { language: l, text: t });
            assert(blocks_view(blocks@) =~= bv.push(BlockView::Code(lv, tv)));
            scope = Scope::Outside;
        } else if code == 13 {
            let t = trimmed(&buf);
            if !t.as_str().is_empty() {
                let ghost tv = t@;
                blocks.push(Block::Quote { text: t });
                assert(blocks_view(blocks@) =~= bv.push(BlockView::Quote(tv)));
            }
            scope = Scope::Outside;
        } else if 15 <= code && code <= 18 {
            if scope != Scope::Outside {
                match &payloads[i] {
                    Some(t) => push_str(&mut buf, t),
                    None => {},
                }
            }
        } else if code == 19 || code == 20 {
            if scope == Scope::Paragraph || scope == Scope::Quote || scope == Scope::Heading || scope
                == Scope::ListItem {
                buf.push(' ');
            } else if scope == Scope::Code {
                buf.push('\n');
            }
        }
        i += 1;
    }
    let ghost s = md_run(ev, ev.len() as int);
    if blocks.len() > 0 {
        let ghost sv = sections@.map_values(|x: Section| section_view(x));
        let sec = Section { heading: None, level, blocks };
        sections.push(sec);
        assert(sections@.map_values(|x: Section| section_view(x)) =~= sv.push(section_view(sec)));
    }
    assert(sections@.map_values(|x: Section| section_view(x)) == md_sections(s));
    if sections.len() == 0 {
        return Ok(doc_from_text(DocumentFormat::Markdown, text.as_str()));
    }
    let d = Document { title, format: DocumentFormat::Markdown, sections };
    Ok(d)
}

} // verus!
