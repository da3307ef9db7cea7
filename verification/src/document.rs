//! The document model that the parsers produce: a title, a source format,
//! and sections of blocks.

use vstd::prelude::*;
use crate::parse::{block_view, blocks_view, doc_view, opt_view, section_view, BlockView};
use crate::textutil::{count_words, strs_view, word_count};

verus! {

/// The format of a source document.
#[derive(Debug, Clone, Copy, PartialEq, Eq, Hash, Structural)]
pub enum DocumentFormat {
    PlainText,
    Markdown,
    Html,
    Pdf,
    Docx,
    Epub,
    Unknown,
}

/// A block of content.
#[derive(Debug)]
pub enum Block {
    Heading { level: u8, text: String },
    Paragraph { text: String },
    List { items: Vec<String> },
    Code { language: Option<String>, text: String },
    Quote { text: String },
    Plain { text: String },
}

/// A run of blocks, optionally under a heading.
#[derive(Debug)]
pub struct Section {
    pub heading: Option<String>,
    pub level: u8,
    pub blocks: Vec<Block>,
}

/// A parsed document.
#[derive(Debug)]
pub struct Document {
    pub title: Option<String>,
    pub format: DocumentFormat,
    pub sections: Vec<Section>,
}

/// The texts a block holds: its text, or the items of a list.
pub open spec fn block_texts(b: Block) -> Seq<Seq<char>> {
    match b {
        Block::List { items } => items@.map_values(|s: String| s@),
        Block::Heading { text, .. } => seq![text@],
        Block::Paragraph { text } => seq![text@],
        Block::Code { text, .. } => seq![text@],
        Block::Quote { text } => seq![text@],
        Block::Plain { text } => seq![text@],
    }
}

/// The sum of the word counts of `texts[..n]`.
pub open spec fn words_of_texts(texts: Seq<Seq<char>>, n: int) -> nat
    decreases n,
{
    if n <= 0 {
        0
    } else {
        words_of_texts(texts, n - 1) + word_count(texts[n - 1])
    }
}

/// The words of a block.
pub open spec fn block_words(b: Block) -> nat {
    words_of_texts(block_texts(b), block_texts(b).len() as int)
}

/// The words of `blocks[..n]`.
pub open spec fn blocks_words(blocks: Seq<Block>, n: int) -> nat
    decreases n,
{
    if n <= 0 {
        0
    } else {
        blocks_words(blocks, n - 1) + block_words(blocks[n - 1])
    }
}

/// The words of `sections[..n]`.
pub open spec fn sections_words(sections: Seq<Section>, n: int) -> nat
    decreases n,
{
    if n <= 0 {
        0
    } else {
        sections_words(sections, n - 1) + blocks_words(sections[n - 1].blocks@, sections[n - 1].blocks@.len() as int)
    }
}

/// The number of whitespace-separated words in a document's blocks.
pub open spec fn doc_words(d: Document) -> nat {
    sections_words(d.sections@, d.sections@.len() as int)
}

/// The words of `s`, saturating at `usize::MAX`.
fn words_in(s: &String) -> (n: usize)
    ensures
        n == word_count(s@),
{
    let c = crate::textutil::chars_of(s.as_str());
    assert(c@.subrange(0, c@.len() as int) =~= c@);
    count_words(c.as_slice(), 0, c.len())
}

impl Block {
    /// The number of whitespace-separated words of this block, saturating.
    pub fn word_count(&self) -> (n: usize)
        ensures
            n == (if block_words(*self) > usize::MAX { usize::MAX as nat } else { block_words(*self) }),
    {
        match self {
            Block::List { items } => {
                let mut total: usize = 0;
                let mut i: usize = 0;
                let ghost texts = block_texts(*self);
                while i < items.len()
                    invariant
                        i <= items@.len(),
                        texts == items@.map_values(|s: String| s@),
                        texts == block_texts(*self),
                        total == (if words_of_texts(texts, i as int) > usize::MAX { usize::MAX as nat } else { words_of_texts(texts, i as int) }),
                    decreases items@.len() - i,
                {
                    let w = words_in(&items[i]);
                    assert(texts[i as int] == items@[i as int]@);
                    total = total.saturating_add(w);
                    i += 1;
                }
                assert(texts.len() == items@.len());
                assert(i == texts.len());
                assert(block_words(*self) == words_of_texts(texts, texts.len() as int));
                assert(block_words(*self) == words_of_texts(texts, i as int));
                assert(total == (if block_words(*self) > usize::MAX { usize::MAX as nat } else { block_words(*self) }));
                return total;
            },
            Block::Heading { text, .. } => {
                let w = words_in(text);
                assert(block_texts(*self) =~= seq![text@]);
                assert(words_of_texts(seq![text@], 0) == 0);
                assert(block_words(*self) == word_count(text@));
                w
            },
            Block::Paragraph { text } => {
                let w = words_in(text);
                assert(block_texts(*self) =~= seq![text@]);
                assert(words_of_texts(seq![text@], 0) == 0);
                assert(block_words(*self) == word_count(text@));
                w
            },
            Block::Code { text, .. } => {
                let w = words_in(text);
                assert(block_texts(*self) =~= seq![text@]);
                assert(words_of_texts(seq![text@], 0) == 0);
                assert(block_words(*self) == word_count(text@));
                w
            },
            Block::Quote { text } => {
                let w = words_in(text);
                assert(block_texts(*self) =~= seq![text@]);
                assert(words_of_texts(seq![text@], 0) == 0);
                assert(block_words(*self) == word_count(text@));
                w
            },
            Block::Plain { text } => {
                let w = words_in(text);
                assert(block_texts(*self) =~= seq![text@]);
                assert(words_of_texts(seq![text@], 0) == 0);
                assert(block_words(*self) == word_count(text@));
                w
            },
        }
    }
}

impl Document {
    /// The number of whitespace-separated words in the document's blocks,
    /// saturating at `usize::MAX`.
    pub fn word_count(&self) -> (n: usize)
        ensures
            n == (if doc_words(*self) > usize::MAX { usize::MAX as nat } else { doc_words(*self) }),
    {
        let mut n: usize = 0;
        let mut i: usize = 0;
        while i < self.sections.len()
            invariant
                i <= self.sections@.len(),
                n == (if sections_words(self.sections@, i as int) > usize::MAX { usize::MAX as nat } else { sections_words(self.sections@, i as int) }),
            decreases self.sections@.len() - i,
        {
            let blocks = &self.sections[i].blocks;
            let mut m: usize = 0;
            let mut j: usize = 0;
            while j < blocks.len()
                invariant
                    j <= blocks@.len(),
                    m == (if blocks_words(blocks@, j as int) > usize::MAX { usize::MAX as nat } else { blocks_words(blocks@, j as int) }),
                decreases blocks@.len() - j,
            {
                m = m.saturating_add(blocks[j].word_count());
                j += 1;
            }
            n = n.saturating_add(m);
            i += 1;
        }
        n
    }
}

/// The texts a block holds, as plain values.
pub open spec fn view_block_texts(b: BlockView) -> Seq<Seq<char>> {
    match b {
        BlockView::Heading(_, t) => seq![t],
        BlockView::Paragraph(t) => seq![t],
        BlockView::List(items) => items,
        BlockView::Code(_, t) => seq![t],
        BlockView::Quote(t) => seq![t],
        BlockView::Plain(t) => seq![t],
    }
}

/// The texts of `bs[..n]`, in order.
pub open spec fn view_blocks_texts(bs: Seq<BlockView>, n: int) -> Seq<Seq<char>>
    decreases n,
{
    if n <= 0 {
        Seq::empty()
    } else {
        view_blocks_texts(bs, n - 1) + view_block_texts(bs[n - 1])
    }
}

/// The texts of `ss[..n]`: each section's heading, then its blocks' texts.
pub open spec fn view_sections_texts(ss: Seq<(Option<Seq<char>>, u8, Seq<BlockView>)>, n: int) -> Seq<Seq<char>>
    decreases n,
{
    if n <= 0 {
        Seq::empty()
    } else {
        let heading = match ss[n - 1].0 {
            Some(h) => seq![h],
            None => Seq::empty(),
        };
        view_sections_texts(ss, n - 1) + heading + view_blocks_texts(ss[n - 1].2, ss[n - 1].2.len() as int)
    }
}

/// The texts of a document, in order.
pub open spec fn doc_texts(dv: (Option<Seq<char>>, DocumentFormat, Seq<(Option<Seq<char>>, u8, Seq<BlockView>)>)) -> Seq<Seq<char>> {
    view_sections_texts(dv.2, dv.2.len() as int)
}

/// Texts joined by blank lines.
pub open spec fn join_blank(texts: Seq<Seq<char>>) -> Seq<char>
    decreases texts.len(),
{
    if texts.len() == 0 {
        Seq::empty()
    } else if texts.len() == 1 {
        texts[0]
    } else {
        join_blank(texts.drop_last()) + seq!['\n', '\n'] + texts.last()
    }
}

/// A copy of a string.
fn copy_str(s: &String) -> (r: String)
    ensures
        r@ == s@,
{
    s.clone()
}

/// The texts of one block pushed onto `out`.
fn push_block_texts(out: &mut Vec<String>, b: &Block)
    ensures
        strs_view(final(out)@) == strs_view(old(out)@) + view_block_texts(block_view(*b)),
{
    let ghost before = strs_view(out@);
    match b {
        Block::List { items } => {
            let mut i: usize = 0;
            while i < items.len()
                invariant
                    i <= items@.len(),
                    strs_view(out@) == before + strs_view(items@).take(i as int),
                decreases items@.len() - i,
            {
                let ghost mid = strs_view(out@);
                let t = copy_str(&items[i]);
                let ghost tv = t@;
                out.push(t);
                assert(strs_view(out@) =~= mid.push(tv));
                assert(strs_view(items@)[i as int] == items@[i as int]@);
                assert(strs_view(items@).take(i + 1) =~= strs_view(items@).take(i as int).push(tv));
                i += 1;
                assert(strs_view(out@) =~= before + strs_view(items@).take(i as int));
            }
            assert(strs_view(items@).take(i as int) =~= strs_view(items@));
        },
        Block::Heading { text, .. } | Block::Paragraph { text } | Block::Code { text, .. } | Block::Quote { text } | Block::Plain { text } => {
            let t = copy_str(text);
            out.push(t);
            assert(strs_view(out@) =~= before + seq![text@]);
        },
    }
}

impl Document {
    /// The texts of the document (section headings and block texts, list
    /// items one by one), joined by blank lines.
    pub fn full_text(&self) -> (r: String)
        ensures
            r@ == join_blank(doc_texts(doc_view(*self))),
    {
        let ghost ss = self.sections@.map_values(|s: Section| section_view(s));
        let mut texts: Vec<String> = Vec::new();
        let mut i: usize = 0;
        while i < self.sections.len()
            invariant
                ss == self.sections@.map_values(|s: Section| section_view(s)),
                i <= self.sections@.len(),
                strs_view(texts@) == view_sections_texts(ss, i as int),
            decreases self.sections@.len() - i,
        {
            let sec = &self.sections[i];
            assert(ss[i as int] == section_view(*sec));
            let ghost before = strs_view(texts@);
            match &sec.heading {
                Some(h) => {
                    let t = copy_str(h);
                    texts.push(t);
                    assert(strs_view(texts@) =~= before + seq![h@]);
                },
                None => {
                    assert(strs_view(texts@) =~= before + Seq::<Seq<char>>::empty());
                },
            }
            let ghost mid = strs_view(texts@);
            let ghost bv = blocks_view(sec.blocks@);
            let mut j: usize = 0;
            while j < sec.blocks.len()
                invariant
                    j <= sec.blocks@.len(),
                    bv == blocks_view(sec.blocks@),
                    strs_view(texts@) == mid + view_blocks_texts(bv, j as int),
                decreases sec.blocks@.len() - j,
            {
                push_block_texts(&mut texts, &sec.blocks[j]);
                assert(bv[j as int] == block_view(sec.blocks@[j as int]));
                assert(strs_view(texts@) =~= mid + view_blocks_texts(bv, j + 1));
                j += 1;
            }
            assert(opt_view(sec.heading) == ss[i as int].0);
            assert(bv == ss[i as int].2);
            assert(strs_view(texts@) =~= view_sections_texts(ss, i + 1));
            i += 1;
        }
        let ghost all = strs_view(texts@);
        let mut out: Vec<char> = Vec::new();
        let mut k: usize = 0;
        while k < texts.len()
            invariant
                all == strs_view(texts@),
                k <= texts@.len(),
                out@ == join_blank(all.take(k as int)),
            decreases texts@.len() - k,
        {
            let cs = crate::textutil::chars_of(texts[k].as_str());
            if k > 0 {
                out.push('\n');
                out.push('\n');
            }
            let mut q: usize = 0;
            let ghost base = out@;
            while q < cs.len()
                invariant
                    q <= cs@.len(),
                    out@ == base + cs@.take(q as int),
                decreases cs@.len() - q,
            {
                out.push(cs[q]);
                q += 1;
                assert(out@ =~= base + cs@.take(q as int));
            }
            assert(cs@.take(q as int) =~= cs@);
            assert(all.take(k + 1).drop_last() =~= all.take(k as int));
            assert(all[k as int] == texts@[k as int]@);
            if k == 0 {
                assert(all.take(1) =~= seq![all[0]]);
            }
            assert(out@ =~= join_blank(all.take(k + 1)));
            k += 1;
        }
        assert(all.take(k as int) =~= all);
        crate::textutil::string_from_chars(out.as_slice())
    }

    /// The number of blocks in all sections, saturating at `usize::MAX`.
    pub fn block_count(&self) -> (n: usize)
        ensures
            n == (if sections_blocks(self.sections@, self.sections@.len() as int) > usize::MAX {
                usize::MAX as nat
            } else {
                sections_blocks(self.sections@, self.sections@.len() as int)
            }),
    {
        let mut n: usize = 0;
        let mut i: usize = 0;
        while i < self.sections.len()
            invariant
                i <= self.sections@.len(),
                n == (if sections_blocks(self.sections@, i as int) > usize::MAX { usize::MAX as nat } else { sections_blocks(self.sections@, i as int) }),
            decreases self.sections@.len() - i,
        {
            n = n.saturating_add(self.sections[i].blocks.len());
            i += 1;
        }
        n
    }
}

/// The number of blocks of `ss[..n]`.
pub open spec fn sections_blocks(ss: Seq<Section>, n: int) -> nat
    decreases n,
{
    if n <= 0 {
        0
    } else {
        sections_blocks(ss, n - 1) + ss[n - 1].blocks@.len()
    }
}

} // verus!
