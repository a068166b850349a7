//! The document model of a formatted model reply: block segments, tables,
//! lists and inline spans, with their mathematical views.

use vstd::prelude::*;

verus! {

/// Alignment of a table column, from its separator cell.
#[derive(Clone, Copy, Debug, PartialEq, Eq, Structural)]
pub enum TableAlignment {
    Unaligned,
    Left,
    Center,
    Right,
}

/// One block of a reply.
#[derive(Debug, PartialEq)]
pub enum ContentSegment {
    Paragraph(String),
    Header { level: usize, text: String },
    CodeBlock { language: String, code: String },
    FormulaBlock(String),
    Table(TableBlock),
    List(ListBlock),
    Blockquote(Vec<ContentSegment>),
    HorizontalRule,
}

#[derive(Clone, Debug, PartialEq)]
pub struct TableBlock {
    pub headers: Vec<String>,
    pub alignments: Vec<TableAlignment>,
    pub rows: Vec<Vec<String>>,
}

#[derive(Debug, PartialEq)]
pub struct ListBlock {
    pub ordered: bool,
    pub items: Vec<ListItem>,
}

#[derive(Debug, PartialEq)]
pub struct ListItem {
    pub text: String,
    pub children: Vec<ListBlock>,
}

/// One span of inline text.
#[derive(Debug, PartialEq)]
pub enum InlineSegment {
    Text(String),
    Bold(Vec<InlineSegment>),
    Italic(Vec<InlineSegment>),
    BoldItalic(Vec<InlineSegment>),
    Link { text: Vec<InlineSegment>, url: String },
    InlineCode(String),
    Formula(String),
}

// ---------------------------------------------------------------------------
// Mathematical model

pub enum Block {
    Paragraph(Seq<char>),
    Header { level: nat, text: Seq<char> },
    CodeBlock { language: Seq<char>, code: Seq<char> },
    FormulaBlock(Seq<char>),
    Table(Table),
    List(List),
    Blockquote(Seq<Block>),
    HorizontalRule,
}

pub struct Table {
    pub headers: Seq<Seq<char>>,
    pub alignments: Seq<TableAlignment>,
    pub rows: Seq<Seq<Seq<char>>>,
}

pub struct List {
    pub ordered: bool,
    pub items: Seq<Item>,
}

pub struct Item {
    pub text: Seq<char>,
    pub children: Seq<List>,
}

pub enum Span {
    Text(Seq<char>),
    Bold(Seq<Span>),
    Italic(Seq<Span>),
    BoldItalic(Seq<Span>),
    Link { text: Seq<Span>, url: Seq<char> },
    InlineCode(Seq<char>),
    Formula(Seq<char>),
}

pub open spec fn strings_view(v: Seq<String>) -> Seq<Seq<char>> {
    Seq::new(v.len(), |i: int| v[i]@)
}

pub open spec fn rows_view(v: Seq<Vec<String>>) -> Seq<Seq<Seq<char>>> {
    Seq::new(v.len(), |i: int| strings_view(v[i]@))
}

pub open spec fn table_view(t: TableBlock) -> Table {
    Table { headers: strings_view(t.headers@), alignments: t.alignments@, rows: rows_view(t.rows@) }
}

pub open spec fn list_view(l: ListBlock) -> List
    decreases l,
{
    List { ordered: l.ordered, items: items_view(l.items) }
}

pub open spec fn items_view(v: Vec<ListItem>) -> Seq<Item>
    decreases v,
{
    Seq::new(
        v.len() as nat,
        |i: int|
            if 0 <= i < v.len() {
                item_view(v@[i])
            } else {
                Item { text: seq![], children: seq![] }
            },
    )
}

pub open spec fn item_view(it: ListItem) -> Item
    decreases it,
{
    Item { text: it.text@, children: lists_view(it.children) }
}

pub open spec fn lists_view(v: Vec<ListBlock>) -> Seq<List>
    decreases v,
{
    Seq::new(
        v.len() as nat,
        |i: int|
            if 0 <= i < v.len() {
                list_view(v@[i])
            } else {
                List { ordered: false, items: seq![] }
            },
    )
}

pub open spec fn block_view(s: ContentSegment) -> Block
    decreases s,
{
    match s {
        ContentSegment::Paragraph(t) => Block::Paragraph(t@),
        ContentSegment::Header { level, text } => Block::Header { level: level as nat, text: text@ },
        ContentSegment::CodeBlock { language, code } => Block::CodeBlock {
            language: language@,
            code: code@,
        },
        ContentSegment::FormulaBlock(t) => Block::FormulaBlock(t@),
        ContentSegment::Table(t) => Block::Table(table_view(t)),
        ContentSegment::List(l) => Block::List(list_view(l)),
        ContentSegment::Blockquote(v) => Block::Blockquote(blocks_view(v)),
        ContentSegment::HorizontalRule => Block::HorizontalRule,
    }
}

pub open spec fn blocks_view(v: Vec<ContentSegment>) -> Seq<Block>
    decreases v,
{
    Seq::new(
        v.len() as nat,
        |i: int|
            if 0 <= i < v.len() {
                block_view(v@[i])
            } else {
                Block::HorizontalRule
            },
    )
}

pub open spec fn span_view(s: InlineSegment) -> Span
    decreases s,
{
    match s {
        InlineSegment::Text(t) => Span::Text(t@),
        InlineSegment::Bold(v) => Span::Bold(spans_view(v)),
        InlineSegment::Italic(v) => Span::Italic(spans_view(v)),
        InlineSegment::BoldItalic(v) => Span::BoldItalic(spans_view(v)),
        InlineSegment::Link { text, url } => Span::Link { text: spans_view(text), url: url@ },
        InlineSegment::InlineCode(t) => Span::InlineCode(t@),
        InlineSegment::Formula(t) => Span::Formula(t@),
    }
}

pub open spec fn spans_view(v: Vec<InlineSegment>) -> Seq<Span>
    decreases v,
{
    Seq::new(
        v.len() as nat,
        |i: int|
            if 0 <= i < v.len() {
                span_view(v@[i])
            } else {
                Span::Text(seq![])
            },
    )
}

impl View for ContentSegment {
    type V = Block;

    open spec fn view(&self) -> Block {
        block_view(*self)
    }
}

impl View for TableBlock {
    type V = Table;

    open spec fn view(&self) -> Table {
        table_view(*self)
    }
}

impl View for ListBlock {
    type V = List;

    open spec fn view(&self) -> List {
        list_view(*self)
    }
}

impl View for ListItem {
    type V = Item;

    open spec fn view(&self) -> Item {
        item_view(*self)
    }
}

impl View for InlineSegment {
    type V = Span;

    open spec fn view(&self) -> Span {
        span_view(*self)
    }
}

} // verus!
