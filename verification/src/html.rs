//! The HTML parser: headings, paragraphs, lists, code blocks and quotes,
//! from the elements that `scraper` selects, with tags, scripts and styles
//! left out.

use vstd::prelude::*;
use crate::document::{Block, Document, DocumentFormat, Section};
use crate::parse::{block_view, blocks_view, doc_from_text, doc_view, opt_view, section_view, text_doc, BlockView, ParseError};
use crate::textutil::{char_is_whitespace, chars_of, decode_lossy, is_ws, string_from_chars, trim, trim_bounds, utf8_lossy};
use scraper::{ElementRef, Html, Node, Selector};

verus! {

/// The block-level elements that become blocks.
pub const BLOCK_SELECTOR: &'static str = "h1, h2, h3, h4, h5, h6, p, pre, blockquote, ul, ol";

/// An element selected from a parsed HTML document, as plain values.
pub struct HtmlElem {
    /// The tag name.
    pub name: Seq<char>,
    /// The text of its descendants, concatenated.
    pub text: Seq<char>,
    /// Its ancestors, innermost first: the tag name of each element, `None`
    /// for any other node.
    pub ancestors: Seq<Option<Seq<char>>>,
    /// Its children: the tag name and text of each element, `None` for any
    /// other node.
    pub children: Seq<Option<(Seq<char>, Seq<char>)>>,
}

/// The elements, in the order `scraper` yields them, of
/// `Html::parse_document(html).select(&Selector::parse(selector))`.
pub uninterp spec fn html_select(html: Seq<char>, selector: Seq<char>) -> Seq<HtmlElem>;

/// The selectors this parser uses; each one parses.
pub open spec fn known_selector(s: Seq<char>) -> bool {
    s == "title"@ || s == "h1"@ || s == BLOCK_SELECTOR@
}

/// Optional tag names as chars.
pub open spec fn names_view(v: Seq<Option<String>>) -> Seq<Option<Seq<char>>> {
    v.map_values(|o: Option<String>| opt_view(o))
}

/// An optional tag name and text as chars.
pub open spec fn child_view(o: Option<(String, String)>) -> Option<(Seq<char>, Seq<char>)> {
    match o {
        Some((n, t)) => Some((n@, t@)),
        None => None,
    }
}

/// Optional tag names and texts as chars.
pub open spec fn children_view(v: Seq<Option<(String, String)>>) -> Seq<Option<(Seq<char>, Seq<char>)>> {
    v.map_values(|o: Option<(String, String)>| child_view(o))
}

/// `Html::parse_document(html).select(&Selector::parse(selector))`, each
/// element's `value().name()`. The contract claims that these are the names
/// of the elements `html_select` stands for, in order; the selector parses
/// (`known_selector`), so the `unwrap` does not panic.
#[verifier::external_body]
fn select_names(html: &str, selector: &str) -> (r: Vec<String>)
    requires
        known_selector(selector@),
    ensures
        r@.map_values(|s: String| s@) == html_select(html@, selector@).map_values(|e: HtmlElem| e.name),
{
    let sel = Selector::parse(selector).unwrap();
    Html::parse_document(html).select(&sel).map(|e| e.value().name().to_string()).collect()
}

/// The same selection, each element's `text()` concatenated; the contract
/// claims these are the texts of the elements `html_select` stands for.
#[verifier::external_body]
fn select_texts(html: &str, selector: &str) -> (r: Vec<String>)
    requires
        known_selector(selector@),
    ensures
        r@.map_values(|s: String| s@) == html_select(html@, selector@).map_values(|e: HtmlElem| e.text),
{
    let sel = Selector::parse(selector).unwrap();
    Html::parse_document(html).select(&sel).map(|e| e.text().collect::<String>()).collect()
}

/// The same selection, each element's `ancestors()`, innermost first, the
/// name of each element among them and `None` for other nodes; the contract
/// claims these are the ancestors of the elements `html_select` stands for.
#[verifier::external_body]
fn select_ancestors(html: &str, selector: &str) -> (r: Vec<Vec<Option<String>>>)
    requires
        known_selector(selector@),
    ensures
        r@.map_values(|v: Vec<Option<String>>| names_view(v@))
            == html_select(html@, selector@).map_values(|e: HtmlElem| e.ancestors),
{
    let sel = Selector::parse(selector).unwrap();
    Html::parse_document(html).select(&sel).map(|e| e.ancestors().map(|a| match a.value() {
        Node::Element(x) => Some(x.name().to_string()),
        _ => None,
    }).collect()).collect()
}

/// The same selection, each element's `children()`, the name and text of
/// each element child (`ElementRef::wrap`) and `None` for other nodes; the
/// contract claims these are the children of the elements `html_select`
/// stands for.
#[verifier::external_body]
fn select_children(html: &str, selector: &str) -> (r: Vec<Vec<Option<(String, String)>>>)
    requires
        known_selector(selector@),
    ensures
        r@.map_values(|v: Vec<Option<(String, String)>>| children_view(v@))
            == html_select(html@, selector@).map_values(|e: HtmlElem| e.children),
{
    let sel = Selector::parse(selector).unwrap();
    Html::parse_document(html).select(&sel).map(|e| e.children().map(|c| ElementRef::wrap(c).map(
        |x| (x.value().name().to_string(), x.text().collect::<String>()),
    )).collect()).collect()
}

/// A list, a quote or a preformatted block: elements whose text is taken
/// whole, so that the blocks inside them are not taken again.
pub open spec fn is_container(n: Seq<char>) -> bool {
    n == "ul"@ || n == "ol"@ || n == "blockquote"@ || n == "pre"@
}

/// Some ancestor of `e` is a container.
pub open spec fn nested(e: HtmlElem) -> bool {
    exists|k: int| #![trigger e.ancestors[k]] 0 <= k < e.ancestors.len() && (e.ancestors[k] matches Some(n) && is_container(n))
}

/// The level of an `h1`..`h6` tag, 0 for any other tag.
pub open spec fn heading_level(n: Seq<char>) -> u8 {
    if n == "h1"@ {
        1
    } else if n == "h2"@ {
        2
    } else if n == "h3"@ {
        3
    } else if n == "h4"@ {
        4
    } else if n == "h5"@ {
        5
    } else if n == "h6"@ {
        6
    } else {
        0
    }
}

/// The first `n` chars of `s` with each run of whitespace made one space and
/// leading whitespace dropped, and whether a run is pending.
pub open spec fn collapse_upto(s: Seq<char>, n: int) -> (Seq<char>, bool)
    decreases n,
{
    if n <= 0 {
        (Seq::empty(), false)
    } else {
        let (out, gap) = collapse_upto(s, n - 1);
        let c = s[n - 1];
        if is_ws(c) {
            (out, true)
        } else if gap && out.len() > 0 {
            (out.push(' ').push(c), false)
        } else {
            (out.push(c), false)
        }
    }
}

/// The words of `s` joined by single spaces
/// (`split_whitespace().collect::<Vec<_>>().join(" ")`).
pub open spec fn collapse_ws(s: Seq<char>) -> Seq<char> {
    collapse_upto(s, s.len() as int).0
}

/// The non-empty collapsed texts of the `li` elements among the first `n`
/// children.
pub open spec fn list_items(ch: Seq<Option<(Seq<char>, Seq<char>)>>, n: int) -> Seq<Seq<char>>
    decreases n,
{
    if n <= 0 {
        Seq::empty()
    } else {
        let prev = list_items(ch, n - 1);
        match ch[n - 1] {
            Some((name, text)) => if name == "li"@ && collapse_ws(text).len() > 0 {
                prev.push(collapse_ws(text))
            } else {
                prev
            },
            None => prev,
        }
    }
}

/// The block that one selected element gives, if any.
pub open spec fn elem_block(e: HtmlElem) -> Option<BlockView> {
    if nested(e) {
        None
    } else if heading_level(e.name) > 0 {
        if collapse_ws(e.text).len() > 0 {
            Some(BlockView::Heading(heading_level(e.name), collapse_ws(e.text)))
        } else {
            None
        }
    } else if e.name == "p"@ {
        if collapse_ws(e.text).len() > 0 {
            Some(BlockView::Paragraph(collapse_ws(e.text)))
        } else {
            None
        }
    } else if e.name == "pre"@ {
        if trim(e.text).len() > 0 {
            Some(BlockView::Code(None, trim(e.text)))
        } else {
            None
        }
    } else if e.name == "blockquote"@ {
        if collapse_ws(e.text).len() > 0 {
            Some(BlockView::Quote(collapse_ws(e.text)))
        } else {
            None
        }
    } else if e.name == "ul"@ || e.name == "ol"@ {
        let items = list_items(e.children, e.children.len() as int);
        if items.len() > 0 {
            Some(BlockView::List(items))
        } else {
            None
        }
    } else {
        None
    }
}

/// The blocks of the first `n` selected elements.
pub open spec fn html_blocks(es: Seq<HtmlElem>, n: int) -> Seq<BlockView>
    decreases n,
{
    if n <= 0 {
        Seq::empty()
    } else {
        match elem_block(es[n - 1]) {
            Some(b) => html_blocks(es, n - 1).push(b),
            None => html_blocks(es, n - 1),
        }
    }
}

/// The trimmed text of the first element, unless there is none or it is blank.
pub open spec fn first_trimmed(es: Seq<HtmlElem>) -> Option<Seq<char>> {
    if es.len() > 0 && trim(es[0].text).len() > 0 {
        Some(trim(es[0].text))
    } else {
        None
    }
}

/// The title: that of the first `title` element, or else that of the first
/// `h1` element.
pub open spec fn html_title(html: Seq<char>) -> Option<Seq<char>> {
    match first_trimmed(html_select(html, "title"@)) {
        Some(t) => Some(t),
        None => first_trimmed(html_select(html, "h1"@)),
    }
}

/// The first `n` chars of `s` outside `<...>`, and whether a tag is open.
pub open spec fn strip_upto(s: Seq<char>, n: int) -> (Seq<char>, bool)
    decreases n,
{
    if n <= 0 {
        (Seq::empty(), false)
    } else {
        let (out, in_tag) = strip_upto(s, n - 1);
        let c = s[n - 1];
        if c == '<' {
            (out, true)
        } else if c == '>' {
            (out, false)
        } else if !in_tag {
            (out.push(c), false)
        } else {
            (out, true)
        }
    }
}

/// The chars of `s` outside `<...>`.
pub open spec fn strip_tags(s: Seq<char>) -> Seq<char> {
    strip_upto(s, s.len() as int).0
}

/// The document of an HTML text: its blocks in one section, or, when no
/// element gives a block, its text without tags as plain paragraphs.
pub open spec fn html_doc(html: Seq<char>) -> (Option<Seq<char>>, DocumentFormat, Seq<(Option<Seq<char>>, u8, Seq<BlockView>)>) {
    let es = html_select(html, BLOCK_SELECTOR@);
    let bs = html_blocks(es, es.len() as int);
    if bs.len() == 0 {
        text_doc(DocumentFormat::Html, strip_tags(html))
    } else {
        (html_title(html), DocumentFormat::Html, seq![(None, 0u8, bs)])
    }
}

proof fn lemma_list_items_grow(ch: Seq<Option<(Seq<char>, Seq<char>)>>, m: int, n: int)
    requires
        0 <= m <= n <= ch.len(),
    ensures
        list_items(ch, m).len() <= list_items(ch, n).len(),
    decreases n - m,
{
    if m < n {
        lemma_list_items_grow(ch, m, n - 1);
    }
}

proof fn lemma_html_blocks_hold(es: Seq<HtmlElem>, k: int, n: int)
    requires
        0 <= k < n <= es.len(),
        elem_block(es[k]) is Some,
    ensures
        html_blocks(es, n).contains(elem_block(es[k])->0),
    decreases n,
{
    if n - 1 == k {
        let p = html_blocks(es, k);
        assert(html_blocks(es, n) == p.push(elem_block(es[k])->0));
        assert(html_blocks(es, n)[p.len() as int] == elem_block(es[k])->0);
    } else {
        lemma_html_blocks_hold(es, k, n - 1);
        let p = html_blocks(es, n - 1);
        let j = choose|j: int| 0 <= j < p.len() && p[j] == elem_block(es[k])->0;
        match elem_block(es[n - 1]) {
            Some(b) => {
                assert(html_blocks(es, n)[j] == p[j]);
            },
            None => {},
        }
    }
}

/// Lists give list blocks: an `ul` or `ol` element not inside a list, a
/// quote or a preformatted block, with an `li` child whose text is not
/// blank, gives a list block of the collapsed texts of its non-blank `li`
/// children, in the one section of the document.
pub proof fn html_lists_give_blocks(html: Seq<char>, k: int)
    requires
        0 <= k < html_select(html, BLOCK_SELECTOR@).len(),
        ({
            let e = html_select(html, BLOCK_SELECTOR@)[k];
            &&& e.name == "ul"@ || e.name == "ol"@
            &&& forall|a: int| 0 <= a < e.ancestors.len() ==> (#[trigger] e.ancestors[a] matches Some(n) ==> n != "ul"@
                && n != "ol"@ && n != "blockquote"@ && n != "pre"@)
            &&& exists|c: int| 0 <= c < e.children.len() && (#[trigger] e.children[c] matches Some((n, t)) && n == "li"@
                && collapse_ws(t).len() > 0)
        }),
    ensures
        html_doc(html).2.len() == 1,
        html_doc(html).2[0].2.contains(BlockView::List(
            list_items(html_select(html, BLOCK_SELECTOR@)[k].children, html_select(html, BLOCK_SELECTOR@)[k].children.len() as int),
        )),
{
    let es = html_select(html, BLOCK_SELECTOR@);
    let e = es[k];
    assert(!nested(e)) by {
        if nested(e) {
            let a = choose|a: int| #![trigger e.ancestors[a]] 0 <= a < e.ancestors.len() && (e.ancestors[a] matches Some(n) && is_container(n));
            assert(e.ancestors[a] matches Some(n) ==> n != "ul"@ && n != "ol"@ && n != "blockquote"@ && n != "pre"@);
        }
    }
    reveal_strlit("ul");
    reveal_strlit("ol");
    reveal_strlit("p");
    reveal_strlit("pre");
    reveal_strlit("blockquote");
    reveal_strlit("h1");
    reveal_strlit("h2");
    reveal_strlit("h3");
    reveal_strlit("h4");
    reveal_strlit("h5");
    reveal_strlit("h6");
    assert(e.name.len() == 2 && (e.name[0] == 'u' || e.name[0] == 'o'));
    assert(e.name != "h1"@ && e.name != "h2"@ && e.name != "h3"@) by {
        assert("h1"@[0] == 'h' && "h2"@[0] == 'h' && "h3"@[0] == 'h');
    }
    assert(e.name != "h4"@ && e.name != "h5"@ && e.name != "h6"@) by {
        assert("h4"@[0] == 'h' && "h5"@[0] == 'h' && "h6"@[0] == 'h');
    }
    assert(heading_level(e.name) == 0);
    assert(e.name != "p"@ && e.name != "pre"@ && e.name != "blockquote"@);
    let c = choose|c: int| 0 <= c < e.children.len() && (#[trigger] e.children[c] matches Some((n, t)) && n == "li"@
        && collapse_ws(t).len() > 0);
    assert(list_items(e.children, c + 1).len() > 0);
    lemma_list_items_grow(e.children, c + 1, e.children.len() as int);
    let items = list_items(e.children, e.children.len() as int);
    assert(elem_block(e) == Some(BlockView::List(items)));
    lemma_html_blocks_hold(es, k, es.len() as int);
    let bs = html_blocks(es, es.len() as int);
    assert(bs.len() > 0);
}

/// Whether a tag name is the given one.
fn is_tag(name: &String, tag: &str) -> (r: bool)
    ensures
        r == (name@ == tag@),
{
    *name == tag.to_owned()
}

/// The words of `s` joined by single spaces.
pub fn collapse(s: &str) -> (r: String)
    ensures
        r@ == collapse_ws(s@),
{
    let cs = chars_of(s);
    let mut out: Vec<char> = Vec::new();
    let mut gap = false;
    let mut i: usize = 0;
    while i < cs.len()
        invariant
            i <= cs@.len(),
            (out@, gap) == collapse_upto(cs@, i as int),
        decreases cs@.len() - i,
    {
        let c = cs[i];
        if char_is_whitespace(c) {
            gap = true;
        } else {
            if gap && out.len() > 0 {
                out.push(' ');
            }
            out.push(c);
            gap = false;
        }
        i += 1;
    }
    string_from_chars(out.as_slice())
}

/// The chars of `s` outside `<...>`.
pub fn strip_markup(s: &str) -> (r: String)
    ensures
        r@ == strip_tags(s@),
{
    let cs = chars_of(s);
    let mut out: Vec<char> = Vec::new();
    let mut in_tag = false;
    let mut i: usize = 0;
    while i < cs.len()
        invariant
            i <= cs@.len(),
            (out@, in_tag) == strip_upto(cs@, i as int),
        decreases cs@.len() - i,
    {
        let c = cs[i];
        if c == '<' {
            in_tag = true;
        } else if c == '>' {
            in_tag = false;
        } else if !in_tag {
            out.push(c);
        }
        i += 1;
    }
    string_from_chars(out.as_slice())
}

/// `s` trimmed.
fn trim_string(s: &String) -> (r: String)
    ensures
        r@ == trim(s@),
{
    let cs = chars_of(s.as_str());
    let (a, b) = trim_bounds(cs.as_slice(), 0, cs.len());
    assert(cs@.subrange(0, cs@.len() as int) =~= cs@);
    string_from_chars(vstd::slice::slice_subrange(cs.as_slice(), a, b))
}

/// Whether some ancestor is a container.
fn has_container(anc: &Vec<Option<String>>) -> (r: bool)
    ensures
        r == (exists|k: int| #![trigger names_view(anc@)[k]] 0 <= k < anc@.len()
            && (names_view(anc@)[k] matches Some(n) && is_container(n))),
{
    let mut i: usize = 0;
    while i < anc.len()
        invariant
            i <= anc@.len(),
            forall|k: int| #![trigger names_view(anc@)[k]] 0 <= k < i
                ==> !(names_view(anc@)[k] matches Some(n) && is_container(n)),
        decreases anc@.len() - i,
    {
        match &anc[i] {
            Some(n) => {
                if is_tag(n, "ul") || is_tag(n, "ol") || is_tag(n, "blockquote") || is_tag(n, "pre") {
                    assert(names_view(anc@)[i as int] == Some(n@));
                    return true;
                }
            },
            None => {},
        }
        assert(names_view(anc@)[i as int] == opt_view(anc@[i as int]));
        i += 1;
    }
    false
}

/// The non-empty collapsed texts of the `li` children.
fn items_of(kids: &Vec<Option<(String, String)>>) -> (r: Vec<String>)
    ensures
        r@.map_values(|s: String| s@) == list_items(children_view(kids@), kids@.len() as int),
{
    let ghost cv = children_view(kids@);
    let mut items: Vec<String> = Vec::new();
    let mut i: usize = 0;
    while i < kids.len()
        invariant
            i <= kids@.len(),
            cv == children_view(kids@),
            items@.map_values(|s: String| s@) == list_items(cv, i as int),
        decreases kids@.len() - i,
    {
        assert(cv[i as int] == child_view(kids@[i as int]));
        match &kids[i] {
            Some((n, t)) => {
                if is_tag(n, "li") {
                    let c = collapse(t.as_str());
                    if !c.as_str().is_empty() {
                        let ghost before = items@.map_values(|s: String| s@);
                        let ghost cvw = c@;
                        items.push(c);
                        assert(items@.map_values(|s: String| s@) =~= before.push(cvw));
                    }
                }
            },
            None => {},
        }
        i += 1;
    }
    items
}

/// The heading level of a tag.
fn level_of_tag(name: &String) -> (r: u8)
    ensures
        r == heading_level(name@),
{
    if is_tag(name, "h1") {
        1
    } else if is_tag(name, "h2") {
        2
    } else if is_tag(name, "h3") {
        3
    } else if is_tag(name, "h4") {
        4
    } else if is_tag(name, "h5") {
        5
    } else if is_tag(name, "h6") {
        6
    } else {
        0
    }
}

/// The block that one selected element gives, if any.
fn block_of(
    name: &String,
    text: &String,
    anc: &Vec<Option<String>>,
    kids: &Vec<Option<(String, String)>>,
) -> (r: Option<Block>)
    ensures
        match r {
            Some(b) => elem_block((HtmlElem { name: name@, text: text@, ancestors: names_view(anc@), children: children_view(kids@) })) == Some(block_view(b)),
            None => elem_block((HtmlElem { name: name@, text: text@, ancestors: names_view(anc@), children: children_view(kids@) })) is None,
        },
{
    let ghost e = HtmlElem { name: name@, text: text@, ancestors: names_view(anc@), children: children_view(kids@) };
    if has_container(anc) {
        assert(nested(e));
        return None;
    }
    assert(!nested(e));
    let level = level_of_tag(name);
    if level > 0 {
        let t = collapse(text.as_str());
        if t.as_str().is_empty() {
            return None;
        }
        return Some(Block::Heading { level, text: t });
    }
    if is_tag(name, "p") {
        let t = collapse(text.as_str());
        if t.as_str().is_empty() {
            return None;
        }
        return Some(Block::Paragraph { text: t });
    }
    if is_tag(name, "pre") {
        let t = trim_string(text);
        if t.as_str().is_empty() {
            return None;
        }
        return Some(Block::Code { language: None, text: t });
    }
    if is_tag(name, "blockquote") {
        let t = collapse(text.as_str());
        if t.as_str().is_empty() {
            return None;
        }
        return Some(Block::Quote { text: t });
    }
    if is_tag(name, "ul") || is_tag(name, "ol") {
        let items = items_of(kids);
        if items.len() == 0 {
            return None;
        }
        return Some(Block::List { items });
    }
    None
}

/// The trimmed text of the first element that `selector` selects, unless
/// there is none or it is blank.
fn first_text(html: &str, selector: &str) -> (r: Option<String>)
    requires
        known_selector(selector@),
    ensures
        opt_view(r) == first_trimmed(html_select(html@, selector@)),
{
    let texts = select_texts(html, selector);
    let ghost es = html_select(html@, selector@);
    assert(texts@.map_values(|s: String| s@).len() == es.len());
    if texts.len() == 0 {
        return None;
    }
    assert(texts@.map_values(|s: String| s@)[0] == es[0].text);
    let t = trim_string(&texts[0]);
    if t.as_str().is_empty() {
        None
    } else {
        Some(t)
    }
}

/// Parse HTML bytes (invalid UTF-8 replaced) into a document: one section of
/// the blocks of the block-level elements not inside a list, a quote or a
/// preformatted block, titled by `<title>` or else the first `<h1>`.
pub fn parse(input: &[u8]) -> (r: Result<Document, ParseError>)
    ensures
        r matches Ok(d) && doc_view(d) == html_doc(utf8_lossy(input@)),
{
    let html = decode_lossy(input);
    let h = html.as_str();
    let mut title = first_text(h, "title");
    if title.is_none() {
        title = first_text(h, "h1");
    }
    let names = select_names(h, BLOCK_SELECTOR);
    let texts = select_texts(h, BLOCK_SELECTOR);
    let ancs = select_ancestors(h, BLOCK_SELECTOR);
    let kids = select_children(h, BLOCK_SELECTOR);
    let ghost es = html_select(html@, BLOCK_SELECTOR@);
    assert(names@.map_values(|s: String| s@).len() == es.len());
    assert(texts@.map_values(|s: String| s@).len() == es.len());
    assert(ancs@.map_values(|v: Vec<Option<String>>| names_view(v@)).len() == es.len());
    assert(kids@.map_values(|v: Vec<Option<(String, String)>>| children_view(v@)).len() == es.len());
    let mut blocks: Vec<Block> = Vec::new();
    let mut i: usize = 0;
    while i < names.len()
        invariant
            i <= es.len(),
            names@.len() == es.len(),
            texts@.len() == es.len(),
            ancs@.len() == es.len(),
            kids@.len() == es.len(),
            names@.map_values(|s: String| s@) == es.map_values(|e: HtmlElem| e.name),
            texts@.map_values(|s: String| s@) == es.map_values(|e: HtmlElem| e.text),
            ancs@.map_values(|v: Vec<Option<String>>| names_view(v@)) == es.map_values(|e: HtmlElem| e.ancestors),
            kids@.map_values(|v: Vec<Option<(String, String)>>| children_view(v@)) == es.map_values(|e: HtmlElem| e.children),
            blocks_view(blocks@) == html_blocks(es, i as int),
        decreases es.len() - i,
    {
        proof {
            assert(names@.map_values(|s: String| s@)[i as int] == es[i as int].name);
            assert(texts@.map_values(|s: String| s@)[i as int] == es[i as int].text);
            assert(ancs@.map_values(|v: Vec<Option<String>>| names_view(v@))[i as int] == es[i as int].ancestors);
            assert(kids@.map_values(|v: Vec<Option<(String, String)>>| children_view(v@))[i as int] == es[i as int].children);
        }
        let ghost e = HtmlElem {
            name: names@[i as int]@,
            text: texts@[i as int]@,
            ancestors: names_view(ancs@[i as int]@),
            children: children_view(kids@[i as int]@),
        };
        assert(e == es[i as int]);
        let ghost before = blocks_view(blocks@);
        match block_of(&names[i], &texts[i], &ancs[i], &kids[i]) {
            Some(b) => {
                let ghost bv = block_view(b);
                blocks.push(b);
                assert(blocks_view(blocks@) =~= before.push(bv));
            },
            None => {},
        }
        i += 1;
    }
    if blocks.len() == 0 {
        let stripped = strip_markup(h);
        return Ok(doc_from_text(DocumentFormat::Html, stripped.as_str()));
    }
    let d = Document {
        title,
        format: DocumentFormat::Html,
        sections: vec![Section { heading: None, level: 0, blocks }],
    };
    assert(d.sections@.map_values(|s: Section| section_view(s)) =~= seq![(None, 0u8, html_blocks(es, es.len() as int))]);
    Ok(d)
}

} // verus!
