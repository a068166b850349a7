//! The block structure of a reply: code and formula blocks, tables, lists,
//! block quotes, headers, rules and paragraphs.

use vstd::prelude::*;
use crate::markdown::{
    Block, ContentSegment, blocks_view, block_view, ListBlock, ListItem, items_view, lists_view,
    list_view, item_view, Item, List, Table, TableBlock, strings_view, rows_view,
};
use crate::md_line::{
    is_horizontal_rule, parse_header, leading_indent_width, list_marker,
    block_start_step, list_marker_step, parse_table_row, parse_table_separator, normalize_table_cells, block_start,
    fit_cells, header, indent_width, is_rule, line_fits, marker_step, table_row, table_separator,
    hash_run, trim_end_hashes,
};
use crate::text::{
    is_ws, join, replace_all, split_char, starts_with, ends_with, trim, trim_start, trim_end, index_of,
    lemma_index_of_some, lemma_trim_start_len, lemma_trim_starts_with, lemma_replace_all_len,
    view_lines, trim_start_from, trim_range, trimmed, slice_of, join_range, char_is_ws, string_of,
    starts_with_from, replace_all_exec, split_char_exec, chars_of,
};

verus! {

pub open spec fn nl() -> Seq<char> {
    seq!['\n']
}

/// Total size of the text the lines came from: each line with its newline.
pub open spec fn lines_size(lines: Seq<Seq<char>>) -> nat
    decreases lines.len(),
{
    if lines.len() == 0 {
        0
    } else {
        lines[0].len() + 1 + lines_size(lines.drop_first())
    }
}

/// The lines are short enough for the recognisers.
pub open spec fn lines_fit(lines: Seq<Seq<char>>) -> bool {
    4 * lines_size(lines) <= usize::MAX
}

/// A reply is short enough for the recognisers.
pub open spec fn text_fits(t: Seq<char>) -> bool {
    4 * (t.len() + 1) <= usize::MAX
}

// ---------------------------------------------------------------------------
// Fenced code and formula blocks

pub open spec fn is_fence_line(l: Seq<char>) -> bool {
    starts_with(trim_start(l), seq!['`', '`', '`'])
}

/// The first line at or after `i` that opens with a fence, or the end.
pub open spec fn fence_close(lines: Seq<Seq<char>>, i: int) -> nat
    decreases lines.len() - i,
{
    if i < 0 || i >= lines.len() {
        lines.len()
    } else if is_fence_line(lines[i]) {
        i as nat
    } else {
        fence_close(lines, i + 1)
    }
}

/// Length of the run of non-white-space characters at the start of `s`.
pub open spec fn word_len(s: Seq<char>) -> nat
    decreases s.len(),
{
    if s.len() == 0 || is_ws(s[0]) {
        0
    } else {
        1 + word_len(s.drop_first())
    }
}

/// The first white-space-separated word of `s`, or nothing.
pub open spec fn first_word(s: Seq<char>) -> Seq<char> {
    let r = trim_start(s);
    r.take(word_len(r) as int)
}

/// A fenced code block opening at line `start`: its language is the first
/// word after the fence; its code, the lines up to the closing fence or the
/// end; the block ends after the closing fence.
pub open spec fn code_block(lines: Seq<Seq<char>>, start: int) -> Option<(Block, nat)> {
    if start < 0 || start >= lines.len() {
        None
    } else {
        let o = trim_start(lines[start]);
        if !starts_with(o, seq!['`', '`', '`']) {
            None
        } else {
            let j = fence_close(lines, start + 1);
            Some(
                (
                    Block::CodeBlock {
                        language: first_word(o.skip(3)),
                        code: join(lines.subrange(start + 1, j as int), nl()),
                    },
                    if j < lines.len() {
                        j + 1
                    } else {
                        j
                    },
                ),
            )
        }
    }
}

/// The first line at or after `i` that is `$$` alone, or the end.
pub open spec fn formula_close(lines: Seq<Seq<char>>, i: int) -> nat
    decreases lines.len() - i,
{
    if i < 0 || i >= lines.len() {
        lines.len()
    } else if trim(lines[i]) == seq!['$', '$'] {
        i as nat
    } else {
        formula_close(lines, i + 1)
    }
}

/// A display formula at line `start`: between a `$$` line and the next one
/// (or the end), or on one line between `$$` and `$$`.
pub open spec fn formula_block(lines: Seq<Seq<char>>, start: int) -> Option<(Block, nat)> {
    if start < 0 || start >= lines.len() {
        None
    } else {
        let t = trim(lines[start]);
        let dd = seq!['$', '$'];
        if t == dd {
            let j = formula_close(lines, start + 1);
            Some(
                (
                    Block::FormulaBlock(trim(join(lines.subrange(start + 1, j as int), nl()))),
                    if j < lines.len() {
                        j + 1
                    } else {
                        j
                    },
                ),
            )
        } else if starts_with(t, dd) && ends_with(t, dd) && t.len() > 4 {
            Some((Block::FormulaBlock(trim(t.subrange(2, t.len() - 2))), (start + 1) as nat))
        } else {
            None
        }
    }
}

// ---------------------------------------------------------------------------
// Block quotes

/// `s` without its leading `>`s.
pub open spec fn strip_gt(s: Seq<char>) -> Seq<char>
    decreases s.len(),
{
    if s.len() > 0 && s[0] == '>' {
        strip_gt(s.drop_first())
    } else {
        s
    }
}

pub open spec fn is_quote_line(l: Seq<char>) -> bool {
    starts_with(trim_start(l), seq!['>'])
}

/// What a line of a quote contributes: its text after the `>`s and one space;
/// a blank line contributes an empty line.
pub open spec fn quote_text(l: Seq<char>) -> Seq<char> {
    if is_quote_line(l) {
        let t = strip_gt(trim_start(l));
        if t.len() > 0 && t[0] == ' ' {
            t.drop_first()
        } else {
            t
        }
    } else {
        seq![]
    }
}

/// The first line at or after `i` that is neither a quote line nor blank.
pub open spec fn quote_end(lines: Seq<Seq<char>>, i: int) -> nat
    decreases lines.len() - i,
{
    if i < 0 || i >= lines.len() {
        lines.len()
    } else if is_quote_line(lines[i]) || trim_start(lines[i]).len() == 0 {
        quote_end(lines, i + 1)
    } else {
        i as nat
    }
}

pub open spec fn quote_lines(lines: Seq<Seq<char>>, start: int, end: int) -> Seq<Seq<char>> {
    Seq::new((end - start) as nat, |k: int| quote_text(lines[start + k]))
}

// ---------------------------------------------------------------------------
// Paragraphs

/// The trimmed lines of a paragraph from line `i` on, and where it ends: at a
/// blank line, or at a line after the first that starts another block.
pub open spec fn para(lines: Seq<Seq<char>>, start: int, i: int) -> Option<(Seq<Seq<char>>, nat)>
    decreases lines.len() - i,
{
    if i < 0 || i >= lines.len() {
        Some((seq![], lines.len()))
    } else {
        let t = trim(lines[i]);
        if t.len() == 0 {
            Some((seq![], i as nat))
        } else {
            let stop = if i != start {
                block_start(lines[i])
            } else {
                Some(false)
            };
            match stop {
                None => None,
                Some(true) => Some((seq![], i as nat)),
                Some(false) => match para(lines, start, i + 1) {
                    None => None,
                    Some((ps, k)) => Some((seq![t] + ps, k)),
                },
            }
        }
    }
}

// ---------------------------------------------------------------------------
// Tables

/// The body rows of a table from line `i` on, fitted to `n` columns, and
/// where the table ends.
pub open spec fn table_rows(lines: Seq<Seq<char>>, i: int, n: nat) -> Option<
    (Seq<Seq<Seq<char>>>, nat),
>
    decreases lines.len() - i,
{
    if i < 0 || i >= lines.len() {
        Some((seq![], lines.len()))
    } else if trim(lines[i]).len() == 0 {
        Some((seq![], i as nat))
    } else {
        match block_start(lines[i]) {
            None => None,
            Some(true) => Some((seq![], i as nat)),
            Some(false) => match table_row(lines[i]) {
                None => Some((seq![], i as nat)),
                Some(row) => match table_rows(lines, i + 1, n) {
                    None => None,
                    Some((rs, k)) => Some((seq![fit_cells(row, n)] + rs, k)),
                },
            },
        }
    }
}

/// A table at line `start`: a header row, a separator row with as many cells,
/// and body rows; `Some(None)` where there is none, `None` where a line it
/// reads is one this reader does not accept.
pub open spec fn table(lines: Seq<Seq<char>>, start: int) -> Option<Option<(Table, nat)>> {
    if start < 0 || start + 1 >= lines.len() {
        Some(None)
    } else {
        match (table_row(lines[start]), table_separator(lines[start + 1])) {
            (Some(h), Some(a)) => if h.len() == 0 || a.len() == 0 || h.len() != a.len() {
                Some(None)
            } else {
                match table_rows(lines, start + 2, h.len()) {
                    None => None,
                    Some((rows, k)) => Some(
                        Some((Table { headers: h, alignments: a, rows: rows }, k)),
                    ),
                }
            },
            _ => Some(None),
        }
    }
}

// ---------------------------------------------------------------------------
// Lists

/// The first line at or after `i` that is not blank.
pub open spec fn next_non_empty(lines: Seq<Seq<char>>, i: int) -> Option<nat>
    decreases lines.len() - i,
{
    if i < 0 || i >= lines.len() {
        None
    } else if trim(lines[i]).len() > 0 {
        Some(i as nat)
    } else {
        next_non_empty(lines, i + 1)
    }
}

/// The items of a list with markers of indentation `base` and kind `ordered`,
/// from line `i` on, and where the list ends.
pub open spec fn list_items(lines: Seq<Seq<char>>, i: int, base: nat, ordered: bool) -> Option<
    (Seq<Item>, nat),
>
    decreases lines.len() - i, 0nat,
{
    if i < 0 || i >= lines.len() {
        Some((seq![], lines.len()))
    } else {
        match marker_step(lines[i]) {
            None => None,
            Some(mo) => match mo {
                Some(m) => if m.indent == base && m.ordered == ordered {
                    let p0 = if m.content.len() > 0 {
                        seq![m.content]
                    } else {
                        seq![]
                    };
                    match item_body(lines, i + 1, base, ordered) {
                        None => None,
                        Some((parts, children, k)) => if i < k <= lines.len() {
                            match list_items(lines, k as int, base, ordered) {
                                None => None,
                                Some((items, e)) => Some(
                                    (
                                        seq![
                                            Item {
                                                text: join(p0 + parts, seq![' ']),
                                                children: children,
                                            },
                                        ] + items,
                                        e,
                                    ),
                                ),
                            }
                        } else {
                            None
                        },
                    }
                } else {
                    Some((seq![], i as nat))
                },
                None => Some((seq![], i as nat)),
            },
        }
    }
}

/// The rest of a list item from line `i` on: its continuation lines, its
/// nested lists, and where the item ends.
pub open spec fn item_body(lines: Seq<Seq<char>>, i: int, base: nat, ordered: bool) -> Option<
    (Seq<Seq<char>>, Seq<List>, nat),
>
    decreases lines.len() - i, 1nat,
{
    if i < 0 || i >= lines.len() {
        Some((seq![], seq![], lines.len()))
    } else if trim(lines[i]).len() == 0 {
        match next_non_empty(lines, i + 1) {
            None => Some((seq![], seq![], lines.len())),
            Some(n) => match marker_step(lines[n as int]) {
                None => None,
                Some(Some(m)) => if m.indent == base && m.ordered == ordered {
                    Some((seq![], seq![], n))
                } else if m.indent > base && i < n < lines.len() {
                    item_body(lines, n as int, base, ordered)
                } else {
                    Some((seq![], seq![], n))
                },
                Some(None) => Some((seq![], seq![], n)),
            },
        }
    } else {
        match marker_step(lines[i]) {
            None => None,
            Some(mo) => if mo is Some && mo->0.indent == base && mo->0.ordered == ordered {
                Some((seq![], seq![], i as nat))
            } else if mo is Some && mo->0.indent > base {
                let m = mo->0;
                match list_items(lines, i, m.indent, m.ordered) {
                    None => None,
                    Some((items, k)) => if i < k <= lines.len() {
                        match item_body(lines, k as int, base, ordered) {
                            None => None,
                            Some((ps, cs, e)) => Some(
                                (ps, seq![List { ordered: m.ordered, items: items }] + cs, e),
                            ),
                        }
                    } else {
                        None
                    },
                }
            } else if indent_width(lines[i]) > base {
                match item_body(lines, i + 1, base, ordered) {
                    None => None,
                    Some((ps, cs, e)) => Some((seq![trim(lines[i])] + ps, cs, e)),
                }
            } else {
                Some((seq![], seq![], i as nat))
            },
        }
    }
}

// ---------------------------------------------------------------------------
// Blocks

pub open spec fn prepend(b: Block, rest: Option<Seq<Block>>) -> Option<Seq<Block>> {
    match rest {
        None => None,
        Some(bs) => Some(seq![b] + bs),
    }
}

/// `\r\n` and lone `\r` turned into `\n`.
pub open spec fn normalize_newlines(t: Seq<char>) -> Seq<char> {
    replace_all(replace_all(t, seq!['\r', '\n'], seq!['\n']), seq!['\r'], seq!['\n'])
}

/// The blocks of a reply; `None` where it holds a line this reader does not
/// accept.
pub open spec fn parse_message(t: Seq<char>) -> Option<Seq<Block>>
    decreases t.len() + 1, 1nat, 0int,
{
    let n = normalize_newlines(t);
    if trim(n).len() == 0 {
        Some(seq![])
    } else {
        let lines = split_char(n, '\n');
        if lines_size(lines) <= t.len() + 1 {
            blocks(lines, 0)
        } else {
            None
        }
    }
}

/// The blocks from line `i` on; `None` where they hold a line this reader
/// does not accept.
pub open spec fn blocks(lines: Seq<Seq<char>>, i: int) -> Option<Seq<Block>>
    decreases lines_size(lines), 0nat, lines.len() - i,
{
    if i < 0 || i >= lines.len() {
        Some(seq![])
    } else {
        let line = lines[i];
        let t = trim(line);
        if t.len() == 0 {
            blocks(lines, i + 1)
        } else if code_block(lines, i) is Some {
            let (b, k) = code_block(lines, i)->0;
            if i < k <= lines.len() {
                prepend(b, blocks(lines, k as int))
            } else {
                None
            }
        } else if formula_block(lines, i) is Some {
            let (b, k) = formula_block(lines, i)->0;
            if i < k <= lines.len() {
                prepend(b, blocks(lines, k as int))
            } else {
                None
            }
        } else {
            match table(lines, i) {
                None => None,
                Some(Some((tb, k))) => if i < k <= lines.len() {
                    prepend(Block::Table(tb), blocks(lines, k as int))
                } else {
                    None
                },
                Some(None) => if is_rule(t) {
                    prepend(Block::HorizontalRule, blocks(lines, i + 1))
                } else if header(t) is Some {
                    let (level, text) = header(t)->0;
                    prepend(Block::Header { level, text }, blocks(lines, i + 1))
                } else if starts_with(t, seq!['>']) {
                    let k = quote_end(lines, i);
                    let sub = join(quote_lines(lines, i, k as int), nl());
                    if sub.len() + 1 < lines_size(lines) && i < k <= lines.len() {
                        match parse_message(sub) {
                            None => None,
                            Some(bs) => prepend(Block::Blockquote(bs), blocks(lines, k as int)),
                        }
                    } else {
                        None
                    }
                } else {
                    match marker_step(line) {
                        None => None,
                        Some(Some(m)) => match list_items(lines, i, m.indent, m.ordered) {
                            None => None,
                            Some((items, k)) => if i < k <= lines.len() {
                                prepend(
                                    Block::List(List { ordered: m.ordered, items: items }),
                                    blocks(lines, k as int),
                                )
                            } else {
                                None
                            },
                        },
                        Some(None) => match para(lines, i, i) {
                            None => None,
                            Some((ps, k)) => if i < k <= lines.len() {
                                let p = join(ps, nl());
                                if p.len() > 0 {
                                    prepend(Block::Paragraph(p), blocks(lines, k as int))
                                } else {
                                    blocks(lines, k as int)
                                }
                            } else {
                                None
                            },
                        },
                    }
                }
            }
        }
    }
}

// ---------------------------------------------------------------------------
// Lemmas on sizes

// ---------------------------------------------------------------------------
// Blank replies

/// Every character of `s` is white space.
pub open spec fn all_ws(s: Seq<char>) -> bool {
    forall|i: int| 0 <= i < s.len() ==> is_ws(#[trigger] s[i])
}

proof fn lemma_trim_start_blank(s: Seq<char>)
    ensures
        trim_start(s).len() == 0 <==> all_ws(s),
        trim_start(s).len() > 0 ==> !is_ws(trim_start(s)[0]),
    decreases s.len(),
{
    if s.len() > 0 && is_ws(s[0]) {
        lemma_trim_start_blank(s.drop_first());
        assert forall|i: int| 0 < i < s.len() implies s[i] == s.drop_first()[i - 1] by {}
    }
}

proof fn lemma_trim_end_blank(s: Seq<char>)
    ensures
        trim_end(s).len() == 0 <==> all_ws(s),
    decreases s.len(),
{
    if s.len() > 0 && is_ws(s.last()) {
        lemma_trim_end_blank(s.drop_last());
        assert forall|i: int| 0 <= i < s.len() - 1 implies s[i] == s.drop_last()[i] by {}
    }
}

/// A text trims to nothing exactly when it is all white space.
pub proof fn lemma_trim_blank(s: Seq<char>)
    ensures
        trim(s).len() == 0 <==> all_ws(s),
{
    lemma_trim_start_blank(s);
    let x = trim_start(s);
    lemma_trim_end_blank(x);
}

proof fn lemma_replace_blank(s: Seq<char>, p: Seq<char>, r: Seq<char>)
    requires
        p.len() > 0,
        all_ws(p),
        all_ws(r),
    ensures
        all_ws(replace_all(s, p, r)) <==> all_ws(s),
    decreases s.len(),
{
    if s.len() == 0 {
    } else if starts_with(s, p) {
        let rest = s.skip(p.len() as int);
        lemma_replace_blank(rest, p, r);
        assert(s =~= p + rest);
        let out = r + replace_all(rest, p, r);
        assert forall|i: int| 0 <= i < replace_all(rest, p, r).len() implies out[r.len() + i] == replace_all(rest, p, r)[i] by {}
        if all_ws(replace_all(rest, p, r)) {
            assert forall|i: int| 0 <= i < s.len() implies is_ws(#[trigger] s[i]) by {
                if i >= p.len() {
                    assert(s[i] == rest[i - p.len()]);
                } else {
                    assert(s[i] == p[i]);
                }
            }
        }
        if all_ws(s) {
            assert forall|i: int| 0 <= i < rest.len() implies is_ws(#[trigger] rest[i]) by {
                assert(rest[i] == s[i + p.len()]);
            }
        }
        if all_ws(out) {
            assert forall|i: int| 0 <= i < replace_all(rest, p, r).len() implies is_ws(#[trigger] replace_all(rest, p, r)[i]) by {
                assert(out[r.len() + i] == replace_all(rest, p, r)[i]);
            }
        }
    } else {
        let rest = s.drop_first();
        lemma_replace_blank(rest, p, r);
        let out = seq![s[0]] + replace_all(rest, p, r);
        assert forall|i: int| 0 <= i < replace_all(rest, p, r).len() implies out[1 + i] == replace_all(rest, p, r)[i] by {}
        if all_ws(out) {
            assert(is_ws(out[0]));
            assert forall|i: int| 0 <= i < replace_all(rest, p, r).len() implies is_ws(#[trigger] replace_all(rest, p, r)[i]) by {
                assert(out[1 + i] == replace_all(rest, p, r)[i]);
            }
            assert forall|i: int| 0 <= i < s.len() implies is_ws(#[trigger] s[i]) by {
                if i > 0 {
                    assert(s[i] == rest[i - 1]);
                }
            }
        }
        if all_ws(s) {
            assert forall|i: int| 0 <= i < rest.len() implies is_ws(#[trigger] rest[i]) by {
                assert(rest[i] == s[i + 1]);
            }
            assert(is_ws(s[0]));
        }
    }
}

/// Lines joined by newlines make a blank text when every line is blank.
proof fn lemma_join_blank(parts: Seq<Seq<char>>)
    requires
        forall|i: int| 0 <= i < parts.len() ==> all_ws(#[trigger] parts[i]),
    ensures
        all_ws(join(parts, nl())),
    decreases parts.len(),
{
    if parts.len() > 1 {
        let pre = parts.drop_last();
        assert forall|i: int| 0 <= i < pre.len() implies all_ws(#[trigger] pre[i]) by {
            assert(pre[i] == parts[i]);
        }
        lemma_join_blank(pre);
        let a = join(pre, nl());
        let j = a + nl() + parts.last();
        assert(all_ws(parts[parts.len() - 1]));
        assert forall|i: int| 0 <= i < j.len() implies is_ws(#[trigger] j[i]) by {
            if i < a.len() {
                assert(j[i] == a[i]);
            } else if i == a.len() {
                assert(j[i] == '\n');
            } else {
                assert(j[i] == parts.last()[i - a.len() - 1]);
            }
        }
    } else if parts.len() == 1 {
        assert(all_ws(parts[0]));
    }
}

proof fn lemma_join_len_first(parts: Seq<Seq<char>>, sep: Seq<char>)
    requires
        parts.len() > 0,
    ensures
        join(parts, sep).len() >= parts[0].len(),
    decreases parts.len(),
{
    if parts.len() > 1 {
        lemma_join_len_first(parts.drop_last(), sep);
    }
}

/// Blocks from line `i` on, when a line from there is not blank, are not
/// none.
proof fn lemma_blocks_nonempty(lines: Seq<Seq<char>>, i: int, j: int)
    requires
        0 <= i <= j < lines.len(),
        trim(lines[j]).len() > 0,
        blocks(lines, i) is Some,
    ensures
        blocks(lines, i)->0.len() > 0,
    decreases j - i,
{
    let t = trim(lines[i]);
    if t.len() == 0 {
        lemma_blocks_nonempty(lines, i + 1, j);
    } else if code_block(lines, i) is Some || formula_block(lines, i) is Some {
    } else {
        match table(lines, i) {
            Some(None) => {
                if is_rule(t) || header(t) is Some || starts_with(t, seq!['>']) {
                } else {
                    match marker_step(lines[i]) {
                        Some(None) => {
                            match para(lines, i, i) {
                                Some((ps, k)) => {
                                    assert(para(lines, i, i + 1) is Some);
                                    assert(ps[0] == t);
                                    lemma_join_len_first(ps, nl());
                                },
                                None => {},
                            }
                        },
                        _ => {},
                    }
                }
            },
            _ => {},
        }
    }
}

/// A reply reads as no blocks exactly when it is blank.
pub proof fn lemma_blank_iff_empty(t: Seq<char>)
    requires
        parse_message(t) is Some,
    ensures
        parse_message(t)->0.len() == 0 <==> trim(t).len() == 0,
{
    let a = replace_all(t, seq!['\r', '\n'], seq!['\n']);
    let n = normalize_newlines(t);
    let crlf = seq!['\r', '\n'];
    assert(all_ws(crlf)) by {
        assert forall|i: int| 0 <= i < 2 implies is_ws(#[trigger] crlf[i]) by {}
    }
    assert(all_ws(seq!['\n']));
    assert(all_ws(seq!['\r']));
    lemma_replace_blank(t, seq!['\r', '\n'], seq!['\n']);
    lemma_replace_blank(a, seq!['\r'], seq!['\n']);
    lemma_trim_blank(t);
    lemma_trim_blank(n);
    if trim(n).len() > 0 {
        let lines = split_char(n, '\n');
        crate::session_names::lemma_join_split(n, '\n');
        assert(nl() == seq!['\n']);
        if forall|i: int| 0 <= i < lines.len() ==> trim(#[trigger] lines[i]).len() == 0 {
            assert forall|i: int| 0 <= i < lines.len() implies all_ws(#[trigger] lines[i]) by {
                lemma_trim_blank(lines[i]);
            }
            lemma_join_blank(lines);
        } else {
            let j = choose|i: int| 0 <= i < lines.len() && trim(#[trigger] lines[i]).len() > 0;
            lemma_blocks_nonempty(lines, 0, j);
        }
    }
}

// ---------------------------------------------------------------------------
// The shape of what is read

/// A list has an item, and so does every list inside it, at any depth.
pub open spec fn list_ok(l: List) -> bool
    decreases l,
{
    &&& l.items.len() >= 1
    &&& forall|i: int, j: int|
        0 <= i < l.items.len() && 0 <= j < l.items[i].children.len() ==> list_ok(
            #[trigger] l.items[i].children[j],
        )
}

/// The shape of a block, at any depth: paragraphs are not empty; headers
/// have a level from 1 to 6 and a trimmed, non-empty text; tables have as
/// many alignments as headers, at least one, and rows of that width; lists
/// have items; quotes hold blocks of that shape.
pub open spec fn block_ok(b: Block) -> bool
    decreases b,
{
    match b {
        Block::Paragraph(p) => p.len() > 0,
        Block::Header { level, text } => 1 <= level <= 6 && text.len() > 0 && trim(text) == text,
        Block::Table(t) => {
            &&& t.headers.len() == t.alignments.len()
            &&& t.headers.len() >= 1
            &&& forall|r: int| 0 <= r < t.rows.len() ==> (#[trigger] t.rows[r]).len() == t.headers.len()
        },
        Block::List(l) => list_ok(l),
        Block::Blockquote(bs) => forall|i: int| 0 <= i < bs.len() ==> block_ok(#[trigger] bs[i]),
        _ => true,
    }
}

pub open spec fn blocks_ok(bs: Seq<Block>) -> bool {
    forall|i: int| 0 <= i < bs.len() ==> block_ok(#[trigger] bs[i])
}

proof fn lemma_trim_end_last(s: Seq<char>)
    ensures
        trim_end(s).len() > 0 ==> !is_ws(trim_end(s).last()),
    decreases s.len(),
{
    if s.len() > 0 && is_ws(s.last()) {
        lemma_trim_end_last(s.drop_last());
    }
}

/// Trimming twice is trimming once.
pub proof fn lemma_trim_twice(x: Seq<char>)
    ensures
        trim(trim(x)) == trim(x),
{
    let z = trim_start(x);
    let y = trim(x);
    lemma_trim_start_blank(x);
    crate::text::lemma_trim_end_prefix(z);
    lemma_trim_end_last(z);
    if y.len() > 0 {
        assert(y[0] == z[0]);
        assert(trim_start(y) == y);
        assert(trim_end(y) == y);
    } else {
        assert(trim_start(y) == y);
    }
}

proof fn lemma_header_ok(t: Seq<char>)
    ensures
        header(t) matches Some((level, text)) ==> 1 <= level <= 6 && text.len() > 0 && trim(text) == text,
{
    let h = hash_run(t);
    if header(t) is Some {
        let level: nat = if h < 6 {
            h
        } else {
            6
        };
        lemma_trim_twice(trim_end_hashes(trim(t.skip(level as int))));
    }
}

proof fn lemma_table_rows_width(lines: Seq<Seq<char>>, i: int, n: nat)
    ensures
        table_rows(lines, i, n) matches Some((rows, k)) ==> forall|r: int| 0 <= r < rows.len() ==> (#[trigger] rows[r]).len() == n,
    decreases lines.len() - i,
{
    if 0 <= i < lines.len() && trim(lines[i]).len() > 0 && block_start(lines[i]) == Some(false) {
        match table_row(lines[i]) {
            Some(row) => {
                lemma_table_rows_width(lines, i + 1, n);
                let f = fit_cells(row, n);
                assert(f.len() == n);
                match table_rows(lines, i + 1, n) {
                    Some((rs, k)) => {
                        let all = seq![f] + rs;
                        assert forall|r: int| 0 <= r < all.len() implies (#[trigger] all[r]).len() == n by {
                            if r > 0 {
                                assert(all[r] == rs[r - 1]);
                            }
                        }
                    },
                    None => {},
                }
            },
            None => {},
        }
    }
}

/// Every list read from line `i` on has lists of items inside its items;
/// when the marker at `i` starts the list, it has an item.
proof fn lemma_list_items_ok(lines: Seq<Seq<char>>, i: int, base: nat, ordered: bool)
    ensures
        list_items(lines, i, base, ordered) matches Some((items, e)) ==> {
            &&& forall|a: int, b: int| 0 <= a < items.len() && 0 <= b < items[a].children.len() ==> list_ok(
                #[trigger] items[a].children[b],
            )
            &&& (marker_step(lines[i]) matches Some(Some(m)) && 0 <= i < lines.len() && m.indent == base && m.ordered == ordered) ==> items.len() >= 1
        },
    decreases lines.len() - i, 0nat,
{
    if 0 <= i < lines.len() {
        match marker_step(lines[i]) {
            Some(Some(m)) => {
                if m.indent == base && m.ordered == ordered {
                    lemma_item_body_ok(lines, i + 1, base, ordered);
                    match item_body(lines, i + 1, base, ordered) {
                        Some((parts, children, k)) => {
                            if i < k <= lines.len() {
                                lemma_list_items_ok(lines, k as int, base, ordered);
                                match list_items(lines, k as int, base, ordered) {
                                    Some((items, e)) => {
                                        let p0 = if m.content.len() > 0 {
                                            seq![m.content]
                                        } else {
                                            seq![]
                                        };
                                        let it = Item { text: join(p0 + parts, seq![' ']), children: children };
                                        let all = seq![it] + items;
                                        assert forall|a: int, b: int| 0 <= a < all.len() && 0 <= b < all[a].children.len() implies list_ok(
                                            #[trigger] all[a].children[b],
                                        ) by {
                                            if a > 0 {
                                                assert(all[a] == items[a - 1]);
                                            }
                                        }
                                    },
                                    None => {},
                                }
                            }
                        },
                        None => {},
                    }
                }
            },
            _ => {},
        }
    }
}

proof fn lemma_item_body_ok(lines: Seq<Seq<char>>, i: int, base: nat, ordered: bool)
    ensures
        item_body(lines, i, base, ordered) matches Some((ps, cs, e)) ==> forall|j: int| 0 <= j < cs.len() ==> list_ok(#[trigger] cs[j]),
    decreases lines.len() - i, 1nat,
{
    if 0 <= i < lines.len() {
        if trim(lines[i]).len() == 0 {
            match next_non_empty(lines, i + 1) {
                None => {},
                Some(n) => match marker_step(lines[n as int]) {
                    Some(Some(m)) => {
                        if !(m.indent == base && m.ordered == ordered) && m.indent > base && i < n < lines.len() {
                            lemma_item_body_ok(lines, n as int, base, ordered);
                        }
                    },
                    _ => {},
                },
            }
        } else {
            match marker_step(lines[i]) {
                None => {},
                Some(mo) => {
                    if mo is Some && mo->0.indent == base && mo->0.ordered == ordered {
                    } else if mo is Some && mo->0.indent > base {
                        let m = mo->0;
                        lemma_list_items_ok(lines, i, m.indent, m.ordered);
                        match list_items(lines, i, m.indent, m.ordered) {
                            Some((items, k)) => {
                                if i < k <= lines.len() {
                                    lemma_item_body_ok(lines, k as int, base, ordered);
                                    match item_body(lines, k as int, base, ordered) {
                                        Some((ps, cs, e)) => {
                                            let l = List { ordered: m.ordered, items: items };
                                            assert(list_ok(l));
                                            let all = seq![l] + cs;
                                            assert forall|j: int| 0 <= j < all.len() implies list_ok(#[trigger] all[j]) by {
                                                if j > 0 {
                                                    assert(all[j] == cs[j - 1]);
                                                }
                                            }
                                        },
                                        None => {},
                                    }
                                }
                            },
                            None => {},
                        }
                    } else if indent_width(lines[i]) > base {
                        lemma_item_body_ok(lines, i + 1, base, ordered);
                    }
                },
            }
        }
    }
}

proof fn lemma_prepend_ok(b: Block, rest: Option<Seq<Block>>)
    requires
        block_ok(b),
        rest matches Some(bs) ==> blocks_ok(bs),
    ensures
        prepend(b, rest) matches Some(bs) ==> blocks_ok(bs),
{
    match rest {
        Some(bs) => {
            let all = seq![b] + bs;
            assert forall|i: int| 0 <= i < all.len() implies block_ok(#[trigger] all[i]) by {
                if i > 0 {
                    assert(all[i] == bs[i - 1]);
                }
            }
        },
        None => {},
    }
}

/// Every block read from a reply has the shape `block_ok` describes, at
/// every depth.
pub proof fn lemma_message_ok(t: Seq<char>)
    ensures
        parse_message(t) matches Some(bs) ==> blocks_ok(bs),
    decreases t.len() + 1, 1nat, 0int,
{
    let n = normalize_newlines(t);
    if trim(n).len() > 0 {
        let lines = split_char(n, '\n');
        if lines_size(lines) <= t.len() + 1 {
            lemma_blocks_ok(lines, 0);
        }
    }
}

proof fn lemma_blocks_ok(lines: Seq<Seq<char>>, i: int)
    ensures
        blocks(lines, i) matches Some(bs) ==> blocks_ok(bs),
    decreases lines_size(lines), 0nat, lines.len() - i,
{
    if 0 <= i < lines.len() {
        let line = lines[i];
        let t = trim(line);
        if t.len() == 0 {
            lemma_blocks_ok(lines, i + 1);
        } else if code_block(lines, i) is Some {
            let (b, k) = code_block(lines, i)->0;
            if i < k <= lines.len() {
                lemma_blocks_ok(lines, k as int);
                lemma_prepend_ok(b, blocks(lines, k as int));
            }
        } else if formula_block(lines, i) is Some {
            let (b, k) = formula_block(lines, i)->0;
            if i < k <= lines.len() {
                lemma_blocks_ok(lines, k as int);
                lemma_prepend_ok(b, blocks(lines, k as int));
            }
        } else {
            match table(lines, i) {
                None => {},
                Some(Some((tb, k))) => {
                    if i < k <= lines.len() {
                        let h = table_row(lines[i])->0;
                        lemma_table_rows_width(lines, i + 2, h.len());
                        lemma_blocks_ok(lines, k as int);
                        lemma_prepend_ok(Block::Table(tb), blocks(lines, k as int));
                    }
                },
                Some(None) => {
                    if is_rule(t) {
                        lemma_blocks_ok(lines, i + 1);
                        lemma_prepend_ok(Block::HorizontalRule, blocks(lines, i + 1));
                    } else if header(t) is Some {
                        let (level, text) = header(t)->0;
                        lemma_header_ok(t);
                        lemma_blocks_ok(lines, i + 1);
                        lemma_prepend_ok(Block::Header { level, text }, blocks(lines, i + 1));
                    } else if starts_with(t, seq!['>']) {
                        let k = quote_end(lines, i);
                        let sub = join(quote_lines(lines, i, k as int), nl());
                        if sub.len() + 1 < lines_size(lines) && i < k <= lines.len() {
                            lemma_message_ok(sub);
                            lemma_blocks_ok(lines, k as int);
                            match parse_message(sub) {
                                Some(bs) => lemma_prepend_ok(Block::Blockquote(bs), blocks(lines, k as int)),
                                None => {},
                            }
                        }
                    } else {
                        match marker_step(line) {
                            Some(Some(m)) => {
                                lemma_list_items_ok(lines, i, m.indent, m.ordered);
                                match list_items(lines, i, m.indent, m.ordered) {
                                    Some((items, k)) => {
                                        if i < k <= lines.len() {
                                            lemma_blocks_ok(lines, k as int);
                                            lemma_prepend_ok(
                                                Block::List(List { ordered: m.ordered, items: items }),
                                                blocks(lines, k as int),
                                            );
                                        }
                                    },
                                    None => {},
                                }
                            },
                            Some(None) => {
                                match para(lines, i, i) {
                                    Some((ps, k)) => {
                                        if i < k <= lines.len() {
                                            lemma_blocks_ok(lines, k as int);
                                            let p = join(ps, nl());
                                            if p.len() > 0 {
                                                lemma_prepend_ok(Block::Paragraph(p), blocks(lines, k as int));
                                            }
                                        }
                                    },
                                    None => {},
                                }
                            },
                            None => {},
                        }
                    }
                },
            }
        }
    }
}

pub proof fn lemma_size_concat(a: Seq<Seq<char>>, b: Seq<Seq<char>>)
    ensures
        lines_size(a + b) == lines_size(a) + lines_size(b),
    decreases a.len(),
{
    if a.len() > 0 {
        assert((a + b).drop_first() =~= a.drop_first() + b);
        lemma_size_concat(a.drop_first(), b);
    } else {
        assert(a + b =~= b);
    }
}

pub proof fn lemma_size_single(x: Seq<char>)
    ensures
        lines_size(seq![x]) == x.len() + 1,
{
    assert(seq![x].drop_first() =~= Seq::<Seq<char>>::empty());
    assert(lines_size(Seq::<Seq<char>>::empty()) == 0);
}

pub proof fn lemma_size_push(a: Seq<Seq<char>>, x: Seq<char>)
    ensures
        lines_size(a.push(x)) == lines_size(a) + x.len() + 1,
{
    lemma_size_concat(a, seq![x]);
    assert(a.push(x) =~= a + seq![x]);
    lemma_size_single(x);
}

pub proof fn lemma_size_split(s: Seq<char>, c: char)
    ensures
        lines_size(split_char(s, c)) == s.len() + 1,
    decreases s.len(),
{
    lemma_index_of_some(s, c);
    match index_of(s, c) {
        None => {
            lemma_size_single(s);
        },
        Some(i) => {
            if i < s.len() {
                lemma_size_split(s.skip(i + 1 as int), c);
                let rest = split_char(s.skip(i + 1 as int), c);
                lemma_size_concat(seq![s.take(i as int)], rest);
                lemma_size_single(s.take(i as int));
            } else {
                lemma_size_single(s);
            }
        },
    }
}

pub proof fn lemma_size_line(lines: Seq<Seq<char>>, i: int)
    requires
        0 <= i < lines.len(),
    ensures
        lines[i].len() + 1 <= lines_size(lines),
    decreases lines.len(),
{
    if i > 0 {
        lemma_size_line(lines.drop_first(), i - 1);
    }
}

pub proof fn lemma_size_subrange(lines: Seq<Seq<char>>, i: int, k: int)
    requires
        0 <= i <= k <= lines.len(),
    ensures
        lines_size(lines.subrange(i, k)) <= lines_size(lines),
{
    assert(lines =~= lines.take(i) + lines.subrange(i, k) + lines.skip(k));
    lemma_size_concat(lines.take(i) + lines.subrange(i, k), lines.skip(k));
    lemma_size_concat(lines.take(i), lines.subrange(i, k));
}

/// Each line of `lines` fits when they fit together.
pub proof fn lemma_lines_fit_line(lines: Seq<Seq<char>>, i: int)
    requires
        lines_fit(lines),
        0 <= i < lines.len(),
    ensures
        line_fits(lines[i]),
{
    lemma_size_line(lines, i);
}

pub proof fn lemma_join_size(q: Seq<Seq<char>>)
    requires
        q.len() > 0,
    ensures
        join(q, nl()).len() + 1 == lines_size(q),
    decreases q.len(),
{
    if q.len() == 1 {
        assert(q =~= seq![q[0]]);
        lemma_size_single(q[0]);
    } else {
        lemma_join_size(q.drop_last());
        lemma_size_push(q.drop_last(), q.last());
        assert(q.drop_last().push(q.last()) =~= q);
    }
}

pub proof fn lemma_size_pointwise(a: Seq<Seq<char>>, b: Seq<Seq<char>>)
    requires
        a.len() == b.len(),
        forall|j: int| 0 <= j < a.len() ==> a[j].len() <= b[j].len(),
    ensures
        lines_size(a) <= lines_size(b),
        a.len() > 0 && a[0].len() < b[0].len() ==> lines_size(a) < lines_size(b),
    decreases a.len(),
{
    if a.len() > 0 {
        assert forall|j: int| 0 <= j < a.drop_first().len() implies a.drop_first()[j].len()
            <= b.drop_first()[j].len() by {
            assert(a.drop_first()[j] == a[j + 1]);
        }
        lemma_size_pointwise(a.drop_first(), b.drop_first());
    }
}

pub proof fn lemma_strip_gt_len(s: Seq<char>)
    ensures
        strip_gt(s).len() <= s.len(),
        s.len() > 0 && s[0] == '>' ==> strip_gt(s).len() < s.len(),
    decreases s.len(),
{
    if s.len() > 0 && s[0] == '>' {
        lemma_strip_gt_len(s.drop_first());
    }
}

pub proof fn lemma_quote_text_len(l: Seq<char>)
    ensures
        quote_text(l).len() <= l.len(),
        is_quote_line(l) ==> quote_text(l).len() < l.len(),
{
    lemma_trim_start_len(l);
    if is_quote_line(l) {
        let t = trim_start(l);
        assert(t[0] == '>') by {
            assert(t.take(1)[0] == seq!['>'][0]);
        }
        lemma_strip_gt_len(t);
    }
}

/// The text of a block quote is shorter than the text of the lines.
pub proof fn lemma_quote_size(lines: Seq<Seq<char>>, i: int, k: int)
    requires
        0 <= i < k <= lines.len(),
        is_quote_line(lines[i]),
    ensures
        join(quote_lines(lines, i, k), nl()).len() + 1 < lines_size(lines),
{
    let q = quote_lines(lines, i, k);
    let b = lines.subrange(i, k);
    assert forall|j: int| 0 <= j < q.len() implies q[j].len() <= b[j].len() by {
        lemma_quote_text_len(lines[i + j]);
    }
    lemma_quote_text_len(lines[i]);
    lemma_size_pointwise(q, b);
    lemma_size_subrange(lines, i, k);
    lemma_join_size(q);
}

/// The lines of a reply hold its normalised text.
pub proof fn lemma_message_lines(t: Seq<char>)
    ensures
        lines_size(split_char(normalize_newlines(t), '\n')) <= t.len() + 1,
{
    let a = replace_all(t, seq!['\r', '\n'], seq!['\n']);
    lemma_replace_all_len(t, seq!['\r', '\n'], seq!['\n']);
    lemma_replace_all_len(a, seq!['\r'], seq!['\n']);
    lemma_size_split(normalize_newlines(t), '\n');
}

// ---------------------------------------------------------------------------
// Executable block readers

/// Whether `l` opens with a fence after its indentation.
fn is_fence_exec(l: &Vec<char>) -> (r: bool)
    ensures
        r == is_fence_line(l@),
{
    let a = trim_start_from(l, 0, l.len());
    assert(l@.subrange(0, l@.len() as int) =~= l@);
    let f = vec!['`', '`', '`'];
    assert(f@ =~= seq!['`', '`', '`']);
    starts_with_from(l, a, &f)
}

/// `lines[lo..hi]` joined with newlines, as a `String`.
fn join_lines_string(lines: &Vec<Vec<char>>, lo: usize, hi: usize) -> (s: String)
    requires
        lo <= hi <= lines.len(),
    ensures
        s@ == join(view_lines(lines@).subrange(lo as int, hi as int), nl()),
{
    let sep = vec!['\n'];
    assert(sep@ =~= nl());
    let j = join_range(lines, lo, hi, &sep);
    string_of(&j)
}

/// A fenced code block opening at line `start`, and the line after it.
fn parse_fenced_code_block(lines: &Vec<Vec<char>>, start: usize) -> (r: Option<
    (ContentSegment, usize),
>)
    ensures
        match r {
            Some((seg, k)) => code_block(view_lines(lines@), start as int) == Some((seg@, k as nat))
                && start < k <= lines.len(),
            None => code_block(view_lines(lines@), start as int) is None,
        },
{
    let ghost lv = view_lines(lines@);
    if start >= lines.len() {
        return None;
    }
    let line = &lines[start];
    let n = line.len();
    assert(lv[start as int] == line@);
    let a = trim_start_from(line, 0, n);
    assert(line@.subrange(0, n as int) =~= line@);
    let f = vec!['`', '`', '`'];
    assert(f@ =~= seq!['`', '`', '`']);
    if !starts_with_from(line, a, &f) {
        return None;
    }
    let b = trim_start_from(line, a + 3, n);
    assert(line@.subrange(a as int, n as int).skip(3) =~= line@.subrange(a + 3, n as int));
    let mut e = b;
    assert(line@.subrange(b as int, n as int).skip(0) =~= line@.subrange(b as int, n as int));
    while e < n && !char_is_ws(line[e])
        invariant
            b <= e <= n == line.len(),
            word_len(line@.subrange(b as int, n as int)) == (e - b) + word_len(
                line@.subrange(e as int, n as int),
            ),
        decreases n - e,
    {
        assert(line@.subrange(e as int, n as int).drop_first() =~= line@.subrange(e + 1, n as int));
        e = e + 1;
    }
    assert(line@.subrange(b as int, n as int).take((e - b) as int) =~= line@.subrange(
        b as int,
        e as int,
    ));
    let language = slice_of(line, b, e);
    let mut j = start + 1;
    while j < lines.len() && !is_fence_exec(&lines[j])
        invariant
            start + 1 <= j <= lines.len(),
            lv == view_lines(lines@),
            fence_close(lv, start + 1) == fence_close(lv, j as int),
        decreases lines.len() - j,
    {
        j = j + 1;
    }
    let code = join_lines_string(lines, start + 1, j);
    let next = if j < lines.len() {
        j + 1
    } else {
        j
    };
    let seg = ContentSegment::CodeBlock { language: string_of(&language), code };
    Some((seg, next))
}

/// Whether `l` is `$$` alone.
fn is_formula_close(l: &Vec<char>) -> (r: bool)
    ensures
        r == (trim(l@) == seq!['$', '$']),
{
    let u = trimmed(l, 0, l.len());
    assert(l@.subrange(0, l@.len() as int) =~= l@);
    let close = u.len() == 2 && u[0] == '$' && u[1] == '$';
    assert(close == (u@ == seq!['$', '$'])) by {
        if u@.len() == 2 && u@[0] == '$' && u@[1] == '$' {
            assert(u@ =~= seq!['$', '$']);
        }
    }
    close
}

/// A display formula at line `start`, and the line after it.
fn parse_formula_block(lines: &Vec<Vec<char>>, start: usize) -> (r: Option<
    (ContentSegment, usize),
>)
    ensures
        match r {
            Some((seg, k)) => formula_block(view_lines(lines@), start as int) == Some(
                (seg@, k as nat),
            ) && start < k <= lines.len(),
            None => formula_block(view_lines(lines@), start as int) is None,
        },
{
    let ghost lv = view_lines(lines@);
    if start >= lines.len() {
        return None;
    }
    let line = &lines[start];
    assert(lv[start as int] == line@);
    let t = trimmed(line, 0, line.len());
    assert(line@.subrange(0, line@.len() as int) =~= line@);
    let is_dd = t.len() == 2 && t[0] == '$' && t[1] == '$';
    assert(is_dd == (t@ == seq!['$', '$'])) by {
        if t@.len() == 2 && t@[0] == '$' && t@[1] == '$' {
            assert(t@ =~= seq!['$', '$']);
        }
    }
    if is_dd {
        let mut j = start + 1;
        while j < lines.len() && !is_formula_close(&lines[j])
            invariant
                start + 1 <= j <= lines.len(),
                lv == view_lines(lines@),
                formula_close(lv, start + 1) == formula_close(lv, j as int),
            decreases lines.len() - j,
        {
            j = j + 1;
        }
        let sep = vec!['\n'];
        assert(sep@ =~= nl());
        let body = join_range(lines, start + 1, j, &sep);
        let f = trimmed(&body, 0, body.len());
        assert(body@.subrange(0, body@.len() as int) =~= body@);
        let next = if j < lines.len() {
            j + 1
        } else {
            j
        };
        return Some((ContentSegment::FormulaBlock(string_of(&f)), next));
    }
    let tl = t.len();
    let one_line = tl > 4 && t[0] == '$' && t[1] == '$' && t[tl - 2] == '$' && t[tl - 1] == '$';
    assert(one_line == (starts_with(t@, seq!['$', '$']) && ends_with(t@, seq!['$', '$'])
        && t@.len() > 4)) by {
        if t@.len() > 4 {
            assert(t@.take(2) =~= seq![t@[0], t@[1]]);
            assert(t@.skip(t@.len() - 2) =~= seq![t@[tl - 2], t@[tl - 1]]);
            if !(t@[0] == '$' && t@[1] == '$') {
                assert(t@.take(2) != seq!['$', '$']) by {
                    if t@[0] != '$' {
                        assert(t@.take(2)[0] != seq!['$', '$'][0]);
                    } else {
                        assert(t@.take(2)[1] != seq!['$', '$'][1]);
                    }
                }
            }
            if !(t@[tl - 2] == '$' && t@[tl - 1] == '$') {
                assert(t@.skip(t@.len() - 2) != seq!['$', '$']) by {
                    if t@[tl - 2] != '$' {
                        assert(t@.skip(t@.len() - 2)[0] != seq!['$', '$'][0]);
                    } else {
                        assert(t@.skip(t@.len() - 2)[1] != seq!['$', '$'][1]);
                    }
                }
            }
        }
    }
    if one_line {
        let f = trimmed(&t, 2, tl - 2);
        return Some((ContentSegment::FormulaBlock(string_of(&f)), start + 1));
    }
    None
}

/// The trimmed lines of a paragraph starting at line `start`, joined with
/// newlines, and the line after it.
fn parse_paragraph(lines: &Vec<Vec<char>>, start: usize) -> (r: Option<(Vec<char>, usize)>)
    requires
        start < lines.len(),
        lines_fit(view_lines(lines@)),
        trim(view_lines(lines@)[start as int]).len() > 0,
    ensures
        match r {
            Some((text, k)) => para(view_lines(lines@), start as int, start as int) is Some && ({
                let (ps, e) = para(view_lines(lines@), start as int, start as int)->0;
                text@ == join(ps, nl()) && k == e
            }) && start < k <= lines.len(),
            None => para(view_lines(lines@), start as int, start as int) is None,
        },
{
    let ghost lv = view_lines(lines@);
    let mut parts: Vec<Vec<char>> = Vec::new();
    let mut index = start;
    while index < lines.len()
        invariant
            start <= index <= lines.len(),
            start < lines.len(),
            lv == view_lines(lines@),
            lines_fit(lv),
            index == start ==> parts.len() == 0,
            index == start ==> trim(lv[start as int]).len() > 0,
            para(lv, start as int, start as int) == (match para(lv, start as int, index as int) {
                None => None,
                Some((ps, k)) => Some((view_lines(parts@) + ps, k)),
            }),
        ensures
            start < index <= lines.len(),
            para(lv, start as int, index as int) == Some((Seq::<Seq<char>>::empty(), index as nat)),
            para(lv, start as int, start as int) == (match para(lv, start as int, index as int) {
                None => None,
                Some((ps, k)) => Some((view_lines(parts@) + ps, k)),
            }),
        decreases lines.len() - index,
    {
        let line = &lines[index];
        assert(lv[index as int] == line@);
        let t = trimmed(line, 0, line.len());
        assert(line@.subrange(0, line@.len() as int) =~= line@);
        if t.len() == 0 {
            break;
        }
        if index != start {
            proof {
                lemma_lines_fit_line(lv, index as int);
            }
            match block_start_step(line) {
                None => {
                    return None;
                },
                Some(true) => {
                    break;
                },
                Some(false) => {},
            }
        }
        let ghost before = view_lines(parts@);
        let ghost tv = t@;
        parts.push(t);
        assert(view_lines(parts@) =~= before.push(tv));
        proof {
            match para(lv, start as int, index + 1) {
                None => {},
                Some((ps, k)) => {
                    assert(before + (seq![tv] + ps) =~= before.push(tv) + ps);
                },
            }
        }
        index = index + 1;
    }
    assert(view_lines(parts@).subrange(0, parts@.len() as int) =~= view_lines(parts@));
    assert(view_lines(parts@) + Seq::<Seq<char>>::empty() =~= view_lines(parts@));
    let sep = vec!['\n'];
    assert(sep@ =~= nl());
    let text = join_range(&parts, 0, parts.len(), &sep);
    Some((text, index))
}

/// Vectors of characters as strings.
fn strings_of(v: &Vec<Vec<char>>) -> (r: Vec<String>)
    ensures
        strings_view(r@) == view_lines(v@),
{
    let mut r: Vec<String> = Vec::new();
    let mut i: usize = 0;
    while i < v.len()
        invariant
            i <= v.len(),
            r.len() == i,
            forall|j: int| 0 <= j < i ==> r@[j]@ == v@[j]@,
        decreases v.len() - i,
    {
        r.push(string_of(&v[i]));
        i = i + 1;
    }
    assert(strings_view(r@) =~= view_lines(v@));
    r
}

/// A table starting at line `start`, and the line after it.
fn parse_table(lines: &Vec<Vec<char>>, start: usize) -> (r: Option<Option<(ContentSegment, usize)>>)
    requires
        lines_fit(view_lines(lines@)),
    ensures
        match r {
            Some(Some((seg, k))) => table(view_lines(lines@), start as int) == Some(
                Some((seg@->Table_0, k as nat)),
            ) && seg is Table && start + 2 <= k <= lines.len(),
            Some(None) => table(view_lines(lines@), start as int) == Some(None::<(Table, nat)>),
            None => table(view_lines(lines@), start as int) is None,
        },
{
    let ghost lv = view_lines(lines@);
    if start >= lines.len() || start + 1 >= lines.len() {
        return Some(None);
    }
    assert(lv[start as int] == lines@[start as int]@);
    assert(lv[start + 1] == lines@[start + 1]@);
    let headers = match parse_table_row(&lines[start]) {
        Some(h) => h,
        None => {
            return Some(None);
        },
    };
    let alignments = match parse_table_separator(&lines[start + 1]) {
        Some(a) => a,
        None => {
            return Some(None);
        },
    };
    if headers.len() == 0 || alignments.len() == 0 || headers.len() != alignments.len() {
        return Some(None);
    }
    let n = headers.len();
    let mut rows: Vec<Vec<String>> = Vec::new();
    let mut index = start + 2;
    while index < lines.len()
        invariant
            start + 2 <= index <= lines.len(),
            lv == view_lines(lines@),
            lines_fit(lv),
            table_rows(lv, start + 2, n as nat) is None ==> table(lv, start as int) is None,
            table_rows(lv, start + 2, n as nat) == (match table_rows(lv, index as int, n as nat) {
                None => None,
                Some((rs, k)) => Some((rows_view(rows@) + rs, k)),
            }),
        ensures
            start + 2 <= index <= lines.len(),
            table_rows(lv, index as int, n as nat) == Some(
                (Seq::<Seq<Seq<char>>>::empty(), index as nat),
            ),
            table_rows(lv, start + 2, n as nat) == (match table_rows(lv, index as int, n as nat) {
                None => None,
                Some((rs, k)) => Some((rows_view(rows@) + rs, k)),
            }),
        decreases lines.len() - index,
    {
        let line = &lines[index];
        assert(lv[index as int] == line@);
        let (a, b) = trim_range(line, 0, line.len());
        assert(line@.subrange(0, line@.len() as int) =~= line@);
        if a == b {
            assert(trim(line@).len() == 0);
            break;
        }
        proof {
            lemma_lines_fit_line(lv, index as int);
        }
        match block_start_step(line) {
            None => {
                assert(table_rows(lv, index as int, n as nat) is None);
                return None;
            },
            Some(true) => {
                break;
            },
            Some(false) => {},
        }
        let mut row = match parse_table_row(line) {
            Some(r) => r,
            None => {
                break;
            },
        };
        normalize_table_cells(&mut row, n);
        let ghost before = rows_view(rows@);
        let srow = strings_of(&row);
        let ghost rv = strings_view(srow@);
        rows.push(srow);
        assert(rows_view(rows@) =~= before.push(rv));
        proof {
            match table_rows(lv, index + 1, n as nat) {
                None => {},
                Some((rs, k)) => {
                    assert(before + (seq![rv] + rs) =~= before.push(rv) + rs);
                },
            }
        }
        index = index + 1;
    }
    assert(rows_view(rows@) + Seq::<Seq<Seq<char>>>::empty() =~= rows_view(rows@));
    let tb = TableBlock { headers: strings_of(&headers), alignments, rows };
    Some(Some((ContentSegment::Table(tb), index)))
}

/// The first line at or after `start` that is not blank.
fn find_next_non_empty_line(lines: &Vec<Vec<char>>, start: usize) -> (r: Option<usize>)
    ensures
        match r {
            Some(j) => next_non_empty(view_lines(lines@), start as int) == Some(j as nat) && start
                <= j < lines.len(),
            None => next_non_empty(view_lines(lines@), start as int) is None,
        },
{
    let ghost lv = view_lines(lines@);
    let mut j = start;
    while j < lines.len()
        invariant
            start <= j,
            lv == view_lines(lines@),
            next_non_empty(lv, start as int) == next_non_empty(lv, j as int),
        decreases lines.len() - j,
    {
        let l = &lines[j];
        assert(lv[j as int] == l@);
        let (a, b) = trim_range(l, 0, l.len());
        assert(l@.subrange(0, l@.len() as int) =~= l@);
        if a < b {
            return Some(j);
        }
        j = j + 1;
    }
    None
}

pub open spec fn items_step(
    acc: Seq<Item>,
    r: Option<(Seq<Item>, nat)>,
) -> Option<(Seq<Item>, nat)> {
    match r {
        None => None,
        Some((its, e)) => Some((acc + its, e)),
    }
}

pub open spec fn body_step(
    acc: Seq<Seq<char>>,
    ch: Seq<List>,
    r: Option<(Seq<Seq<char>>, Seq<List>, nat)>,
) -> Option<(Seq<Seq<char>>, Seq<List>, nat)> {
    match r {
        None => None,
        Some((ps, cs, e)) => Some((acc + ps, ch + cs, e)),
    }
}

pub open spec fn marker_matches(lines: Seq<Seq<char>>, i: int, base: nat, ordered: bool) -> bool {
    0 <= i < lines.len() && list_marker(lines[i]) is Some && list_marker(lines[i])->0.indent
        == base && list_marker(lines[i])->0.ordered == ordered
}

/// The rest of a list item from line `ib` on: continuation lines, nested
/// lists, and the line where the item ends.
fn parse_item_body(lines: &Vec<Vec<char>>, ib: usize, base_indent: usize, ordered: bool) -> (r: Option<(
    Vec<Vec<char>>,
    Vec<ListBlock>,
    usize,
)>)
    requires
        0 < ib <= lines.len(),
        lines_fit(view_lines(lines@)),
    ensures
        match r {
            Some((parts, children, k)) => item_body(view_lines(lines@), ib as int, base_indent as nat, ordered) == Some(
                (view_lines(parts@), lists_view(children), k as nat),
            ) && ib <= k <= lines.len(),
            None => item_body(view_lines(lines@), ib as int, base_indent as nat, ordered) is None,
        },
    decreases lines.len() - ib + 1, 0nat,
{
    let ghost lv = view_lines(lines@);
    let ghost base = base_indent as nat;
    let mut index = ib;
    let mut parts: Vec<Vec<char>> = Vec::new();
    let mut children: Vec<ListBlock> = Vec::new();
    assert(view_lines(parts@) =~= Seq::<Seq<char>>::empty());
    assert(lists_view(children) =~= Seq::<List>::empty());
    assert(body_step(view_lines(parts@), lists_view(children), item_body(lv, ib as int, base, ordered)) =~~= item_body(lv, ib as int, base, ordered)) by {
        match item_body(lv, ib as int, base, ordered) {
            None => {},
            Some((ps, cs, e)) => {
                assert(view_lines(parts@) + ps =~= ps);
                assert(lists_view(children) + cs =~= cs);
            },
        }
    }
    while index < lines.len()
        invariant_except_break
            item_body(lv, ib as int, base, ordered) == body_step(
                view_lines(parts@),
                lists_view(children),
                item_body(lv, index as int, base, ordered),
            ),
        invariant
            ib <= index <= lines.len(),
            0 < ib,
            lv == view_lines(lines@),
            lines_fit(lv),
            base == base_indent as nat,
        ensures
            ib <= index <= lines.len(),
            item_body(lv, ib as int, base, ordered) == Some((view_lines(parts@), lists_view(children), index as nat)),
        decreases lines.len() - index,
    {
        let line = &lines[index];
        assert(lv[index as int] == line@);
        proof {
            lemma_lines_fit_line(lv, index as int);
        }
        let (a, b) = trim_range(line, 0, line.len());
        assert(line@.subrange(0, line@.len() as int) =~= line@);
        if a == b {
            let next_non_empty_idx = find_next_non_empty_line(lines, index + 1);
            match next_non_empty_idx {
                None => {
                    index = lines.len();
                    proof {
                        assert(view_lines(parts@) + Seq::<Seq<char>>::empty() =~= view_lines(parts@));
                        assert(lists_view(children) + Seq::<List>::empty() =~= lists_view(children));
                    }
                    break;
                },
                Some(nxt) => {
                    assert(lv[nxt as int] == lines@[nxt as int]@);
                    proof {
                        lemma_lines_fit_line(lv, nxt as int);
                        assert(view_lines(parts@) + Seq::<Seq<char>>::empty() =~= view_lines(parts@));
                        assert(lists_view(children) + Seq::<List>::empty() =~= lists_view(children));
                    }
                    let nm = match list_marker_step(&lines[nxt]) {
                        Some(nm) => nm,
                        None => {
                            return None;
                        },
                    };
                    match nm {
                        Some(m) => {
                            if m.indent == base_indent && m.ordered == ordered {
                                index = nxt;
                                break;
                            }
                            if m.indent > base_indent {
                                index = nxt;
                                continue;
                            }
                            index = nxt;
                            break;
                        },
                        None => {
                            index = nxt;
                            break;
                        },
                    }
                },
            }
        }
        proof {
            assert(view_lines(parts@) + Seq::<Seq<char>>::empty() =~= view_lines(parts@));
            assert(lists_view(children) + Seq::<List>::empty() =~= lists_view(children));
        }
        let nm = match list_marker_step(line) {
            Some(nm) => nm,
            None => {
                return None;
            },
        };
        match nm {
            Some(m) => {
                if m.indent == base_indent && m.ordered == ordered {
                    break;
                }
                if m.indent > base_indent {
                    let (nested, k) = match parse_list(lines, index, m.indent, m.ordered) {
                        Some(r) => r,
                        None => {
                            return None;
                        },
                    };
                    let ghost before = lists_view(children);
                    let ghost nv = list_view(nested);
                    children.push(nested);
                    assert(lists_view(children) =~= before.push(nv));
                    proof {
                        match item_body(lv, k as int, base, ordered) {
                            None => {},
                            Some((ps, cs, e)) => {
                                assert(before + (seq![nv] + cs) =~= before.push(nv) + cs);
                            },
                        }
                    }
                    index = k;
                    continue;
                }
            },
            None => {},
        }
        if leading_indent_width(line) > base_indent {
            let t = trimmed(line, 0, line.len());
            let ghost tv = t@;
            let ghost pv = view_lines(parts@);
            parts.push(t);
            assert(view_lines(parts@) =~= pv.push(tv));
            proof {
                match item_body(lv, index + 1, base, ordered) {
                    None => {},
                    Some((ps, cs, e)) => {
                        assert(pv + (seq![tv] + ps) =~= pv.push(tv) + ps);
                    },
                }
            }
            index = index + 1;
            continue;
        }
        break;
    }
    Some((parts, children, index))
}

/// The list whose markers have indentation `base_indent` and kind `ordered`,
/// starting at line `start`, and the line after it.
fn parse_list(lines: &Vec<Vec<char>>, start: usize, base_indent: usize, ordered: bool) -> (r: Option<(
    ListBlock,
    usize,
)>)
    requires
        start <= lines.len(),
        lines_fit(view_lines(lines@)),
    ensures
        match r {
            Some((lb, k)) => list_items(view_lines(lines@), start as int, base_indent as nat, ordered) is Some && ({
                let (its, e) = list_items(view_lines(lines@), start as int, base_indent as nat, ordered)->0;
                lb@ == List { ordered, items: its } && k == e
            }) && start <= k <= lines.len() && (marker_matches(view_lines(lines@), start as int, base_indent as nat, ordered) ==> start < k
                && list_ok(lb@)),
            None => list_items(view_lines(lines@), start as int, base_indent as nat, ordered) is None,
        },
    decreases lines.len() - start, 1nat,
{
    proof {
        lemma_list_items_ok(view_lines(lines@), start as int, base_indent as nat, ordered);
    }
    let ghost lv = view_lines(lines@);
    let ghost base = base_indent as nat;
    let mut items: Vec<ListItem> = Vec::new();
    let mut index = start;
    assert(items_view(items) + Seq::<Item>::empty() =~= Seq::<Item>::empty());
    assert(items_step(items_view(items), list_items(lv, start as int, base, ordered)) =~~= list_items(lv, start as int, base, ordered)) by {
        match list_items(lv, start as int, base, ordered) {
            None => {},
            Some((its, e)) => { assert(items_view(items) + its =~= its); },
        }
    }
    while index < lines.len()
        invariant
            start <= index <= lines.len(),
            lv == view_lines(lines@),
            lines_fit(lv),
            base == base_indent as nat,
            list_items(lv, start as int, base, ordered) == items_step(
                items_view(items),
                list_items(lv, index as int, base, ordered),
            ),
            marker_matches(lv, start as int, base, ordered) ==> (index > start || items.len() == 0),
            index == start ==> items.len() == 0,
        ensures
            start <= index <= lines.len(),
            list_items(lv, index as int, base, ordered) == Some((Seq::<Item>::empty(), index as nat)),
            list_items(lv, start as int, base, ordered) == items_step(
                items_view(items),
                list_items(lv, index as int, base, ordered),
            ),
            marker_matches(lv, start as int, base, ordered) ==> index > start,
        decreases lines.len() - index,
    {
        let ghost i0 = index as int;
        assert(lv[i0] == lines@[i0]@);
        proof {
            lemma_lines_fit_line(lv, i0);
        }
        let marker = match list_marker_step(&lines[index]) {
            None => {
                return None;
            },
            Some(Some(m)) => m,
            Some(None) => {
                break;
            },
        };
        if !(marker.indent == base_indent && marker.ordered == ordered) {
            break;
        }
        let ghost p0: Seq<Seq<char>> = if marker.content@.len() > 0 {
            seq![marker.content@]
        } else {
            seq![]
        };
        let mut text_parts: Vec<Vec<char>> = Vec::new();
        if marker.content.len() > 0 {
            text_parts.push(marker.content);
        }
        assert(view_lines(text_parts@) =~= p0);
        index = index + 1;
        let (more, children, k) = match parse_item_body(lines, index, base_indent, ordered) {
            Some(r) => r,
            None => {
                return None;
            },
        };
        let ghost before_parts = view_lines(text_parts@);
        let mut q: usize = 0;
        while q < more.len()
            invariant
                q <= more.len(),
                view_lines(text_parts@) == before_parts + view_lines(more@).take(q as int),
            decreases more.len() - q,
        {
            let ghost tp = view_lines(text_parts@);
            text_parts.push(slice_of(&more[q], 0, more[q].len()));
            assert(more@[q as int]@.subrange(0, more@[q as int]@.len() as int) =~= more@[q as int]@);
            assert(view_lines(text_parts@) =~= tp.push(more@[q as int]@));
            q = q + 1;
            assert(view_lines(more@).take(q as int) =~= view_lines(more@).take(q - 1).push(more@[q - 1]@));
            assert(view_lines(text_parts@) =~= before_parts + view_lines(more@).take(q as int));
        }
        assert(view_lines(more@).take(more@.len() as int) =~= view_lines(more@));
        index = k;
        let sp = vec![' '];
        assert(sp@ =~= seq![' ']);
        let text = join_range(&text_parts, 0, text_parts.len(), &sp);
        assert(view_lines(text_parts@).subrange(0, text_parts@.len() as int) =~= view_lines(text_parts@));
        let ghost iv = Item { text: text@, children: lists_view(children) };
        let ghost before = items_view(items);
        let item = ListItem { text: string_of(&text), children };
        assert(item_view(item) == iv);
        items.push(item);
        assert(items_view(items) =~= before.push(iv));
        proof {
            match list_items(lv, index as int, base, ordered) {
                None => {},
                Some((its, e)) => {
                    assert(before + (seq![iv] + its) =~= before.push(iv) + its);
                },
            }
        }
    }
    proof {
        assert(items_view(items) + Seq::<Item>::empty() =~= items_view(items));
    }
    let lb = ListBlock { ordered, items };
    Some((lb, index))
}

pub open spec fn blocks_step(acc: Seq<Block>, r: Option<Seq<Block>>) -> Option<Seq<Block>> {
    match r {
        None => None,
        Some(bs) => Some(acc + bs),
    }
}

/// The text of the block quote starting at line `start`, and the line after it.
fn quote_body(lines: &Vec<Vec<char>>, start: usize) -> (r: (Vec<char>, usize))
    requires
        start < lines.len(),
        is_quote_line(view_lines(lines@)[start as int]),
    ensures
        r.1 == quote_end(view_lines(lines@), start as int),
        r.0@ == join(quote_lines(view_lines(lines@), start as int, r.1 as int), nl()),
        start < r.1 <= lines.len(),
{
    let ghost lv = view_lines(lines@);
    let mut q: Vec<Vec<char>> = Vec::new();
    let mut i = start;
    let gt = vec!['>'];
    assert(gt@ =~= seq!['>']);
    assert(view_lines(q@) =~= quote_lines(lv, start as int, start as int));
    while i < lines.len()
        invariant
            start <= i <= lines.len(),
            lv == view_lines(lines@),
            gt@ == seq!['>'],
            quote_end(lv, start as int) == quote_end(lv, i as int),
            view_lines(q@) == quote_lines(lv, start as int, i as int),
            start < lines.len(),
            is_quote_line(lv[start as int]),
        ensures
            start < i <= lines.len(),
            quote_end(lv, start as int) == i,
            view_lines(q@) == quote_lines(lv, start as int, i as int),
        decreases lines.len() - i,
    {
        let line = &lines[i];
        assert(lv[i as int] == line@);
        let n = line.len();
        let a = trim_start_from(line, 0, n);
        assert(line@.subrange(0, n as int) =~= line@);
        let is_q = starts_with_from(line, a, &gt);
        let ghost qv = view_lines(q@);
        if is_q {
            let mut b = a;
            while b < n && line[b] == '>'
                invariant
                    a <= b <= n == line.len(),
                    strip_gt(line@.subrange(a as int, n as int)) == strip_gt(line@.subrange(b as int, n as int)),
                decreases n - b,
            {
                assert(line@.subrange(b as int, n as int).drop_first() =~= line@.subrange(b + 1, n as int));
                b = b + 1;
            }
            if b < n && line[b] == ' ' {
                assert(line@.subrange(b as int, n as int).drop_first() =~= line@.subrange(b + 1, n as int));
                b = b + 1;
            }
            q.push(slice_of(line, b, n));
        } else if a == n {
            q.push(Vec::new());
        } else {
            break;
        }
        assert(view_lines(q@) =~= quote_lines(lv, start as int, i + 1)) by {
            assert(quote_lines(lv, start as int, i + 1) =~= qv.push(quote_text(lv[i as int])));
        }
        i = i + 1;
    }
    let sep = vec!['\n'];
    assert(sep@ =~= nl());
    let text = join_range(&q, 0, q.len(), &sep);
    assert(view_lines(q@).subrange(0, q@.len() as int) =~= view_lines(q@));
    (text, i)
}

/// A block quote starting at line `start`, and the line after it.
fn parse_blockquote(lines: &Vec<Vec<char>>, start: usize) -> (r: Option<(ContentSegment, usize)>)
    requires
        start < lines.len(),
        lines_fit(view_lines(lines@)),
        is_quote_line(view_lines(lines@)[start as int]),
    ensures
        start < quote_end(view_lines(lines@), start as int) <= lines.len(),
        join(
            quote_lines(view_lines(lines@), start as int, quote_end(view_lines(lines@), start as int) as int),
            nl(),
        ).len() + 1 < lines_size(view_lines(lines@)),
        match r {
            Some((seg, k)) => k == quote_end(view_lines(lines@), start as int) && start < k <= lines.len()
                && parse_message(join(quote_lines(view_lines(lines@), start as int, k as int), nl())) == Some(
                seg@->Blockquote_0,
            ) && seg is Blockquote,
            None => parse_message(
                join(
                    quote_lines(
                        view_lines(lines@),
                        start as int,
                        quote_end(view_lines(lines@), start as int) as int,
                    ),
                    nl(),
                ),
            ) is None,
        },
    decreases lines_size(view_lines(lines@)), 0nat, 0int,
{
    let ghost lv = view_lines(lines@);
    let (text, next) = quote_body(lines, start);
    proof {
        lemma_quote_size(lv, start as int, next as int);
    }
    match parse_text(&text) {
        Some(inner) => Some((ContentSegment::Blockquote(inner), next)),
        None => None,
    }
}

/// The block at line `i`, if the line is not blank, and the line after it;
/// `None` where it holds a line this reader does not accept.
#[verifier::rlimit(60)]
fn parse_block_at(lines: &Vec<Vec<char>>, i: usize) -> (r: Option<(Option<ContentSegment>, usize)>)
    requires
        i < lines.len(),
        lines_fit(view_lines(lines@)),
    ensures
        match r {
            Some((seg, k)) => i < k <= lines.len() && blocks(view_lines(lines@), i as int) == match seg {
                Some(sg) => prepend(block_view(sg), blocks(view_lines(lines@), k as int)),
                None => blocks(view_lines(lines@), k as int),
            },
            None => blocks(view_lines(lines@), i as int) is None,
        },
    decreases lines_size(view_lines(lines@)), 0nat, 1int,
{
    let ghost lv = view_lines(lines@);
    let line = &lines[i];
    assert(lv[i as int] == line@);
    proof {
        lemma_lines_fit_line(lv, i as int);
    }
    let (a, b) = trim_range(line, 0, line.len());
    assert(line@.subrange(0, line@.len() as int) =~= line@);
    if a == b {
        return Some((None, i + 1));
    }
    if let Some((seg, k)) = parse_fenced_code_block(lines, i) {
        return Some((Some(seg), k));
    }
    if let Some((seg, k)) = parse_formula_block(lines, i) {
        return Some((Some(seg), k));
    }
    match parse_table(lines, i) {
        None => {
            return None;
        },
        Some(Some((seg, k))) => {
            return Some((Some(seg), k));
        },
        Some(None) => {},
    }
    let t = slice_of(line, a, b);
    if is_horizontal_rule(&t) {
        return Some((Some(ContentSegment::HorizontalRule), i + 1));
    }
    if let Some((level, text)) = parse_header(&t) {
        return Some((Some(ContentSegment::Header { level, text: string_of(&text) }), i + 1));
    }
    if t[0] == '>' {
        proof {
            assert(starts_with(t@, seq!['>'])) by {
                assert(t@.take(1) =~= seq!['>']);
            }
            lemma_trim_starts_with(line@, seq!['>']);
        }
        return match parse_blockquote(lines, i) {
            Some((seg, k)) => Some((Some(seg), k)),
            None => None,
        };
    }
    assert(!starts_with(t@, seq!['>'])) by {
        assert(t@.take(1)[0] != seq!['>'][0]);
    }
    let found = match list_marker_step(line) {
        Some(m) => m,
        None => {
            return None;
        },
    };
    if let Some(marker) = found {
        return match parse_list(lines, i, marker.indent, marker.ordered) {
            Some((list, k)) => Some((Some(ContentSegment::List(list)), k)),
            None => None,
        };
    }
    match parse_paragraph(lines, i) {
        Some((paragraph, k)) => if paragraph.len() > 0 {
            Some((Some(ContentSegment::Paragraph(string_of(&paragraph))), k))
        } else {
            Some((None, k))
        },
        None => None,
    }
}

/// The blocks from line `*index` on.
fn parse_blocks(lines: &Vec<Vec<char>>, index: &mut usize) -> (segments: Option<Vec<ContentSegment>>)
    requires
        *old(index) <= lines.len(),
        lines_fit(view_lines(lines@)),
    ensures
        match segments {
            Some(segs) => blocks(view_lines(lines@), *old(index) as int) == Some(blocks_view(segs))
                && *final(index) == lines.len(),
            None => blocks(view_lines(lines@), *old(index) as int) is None,
        },
    decreases lines_size(view_lines(lines@)), 0nat, 2int,
{
    let ghost lv = view_lines(lines@);
    let ghost i0 = *index as int;
    let mut segments: Vec<ContentSegment> = Vec::new();
    assert(blocks_step(blocks_view(segments), blocks(lv, i0)) =~~= blocks(lv, i0)) by {
        match blocks(lv, i0) {
            None => {},
            Some(bs) => { assert(blocks_view(segments) + bs =~= bs); },
        }
    }
    while *index < lines.len()
        invariant
            i0 == *old(index) as int,
            i0 <= *index <= lines.len(),
            lv == view_lines(lines@),
            lines_fit(lv),
            blocks(lv, i0) == blocks_step(blocks_view(segments), blocks(lv, *index as int)),
        decreases lines.len() - *index,
    {
        let i = *index;
        match parse_block_at(lines, i) {
            None => {
                assert(blocks(lv, i as int) is None);
                assert(blocks(lv, i0) is None);
                return None;
            },
            Some((found, k)) => {
                if let Some(seg) = found {
                    let ghost sv = blocks_view(segments);
                    let ghost bv = block_view(seg);
                    segments.push(seg);
                    assert(blocks_view(segments) =~= sv.push(bv));
                    proof {
                        match blocks(lv, k as int) {
                            None => {},
                            Some(bs) => { assert(sv + (seq![bv] + bs) =~= sv.push(bv) + bs); },
                        }
                    }
                }
                *index = k;
            },
        }
    }
    assert(blocks_view(segments) + Seq::<Block>::empty() =~= blocks_view(segments));
    Some(segments)
}

/// The blocks of the reply text `t`.
fn parse_text(t: &Vec<char>) -> (segments: Option<Vec<ContentSegment>>)
    requires
        text_fits(t@),
    ensures
        match segments {
            Some(segs) => parse_message(t@) == Some(blocks_view(segs)),
            None => parse_message(t@) is None,
        },
    decreases t@.len() + 1, 1nat, 0int,
{
    let crlf = vec!['\r', '\n'];
    let cr = vec!['\r'];
    let lf = vec!['\n'];
    assert(crlf@ =~= seq!['\r', '\n']);
    assert(cr@ =~= seq!['\r']);
    assert(lf@ =~= seq!['\n']);
    let a = replace_all_exec(t, &crlf, &lf);
    let normalized = replace_all_exec(&a, &cr, &lf);
    let (x, y) = trim_range(&normalized, 0, normalized.len());
    assert(normalized@.subrange(0, normalized@.len() as int) =~= normalized@);
    if x == y {
        let none: Vec<ContentSegment> = Vec::new();
        assert(blocks_view(none) =~= Seq::<Block>::empty());
        return Some(none);
    }
    let lines = split_char_exec(&normalized, '\n');
    proof {
        lemma_message_lines(t@);
    }
    let mut index: usize = 0;
    parse_blocks(&lines, &mut index)
}

/// The blocks of a model reply: `\r\n` and `\r` read as newlines, blank
/// replies give no blocks.
pub fn parse_message_content(content: &str) -> (segments: Vec<ContentSegment>)
    requires
        text_fits(content@),
        parse_message(content@) is Some,
    ensures
        blocks_view(segments) == parse_message(content@)->0,
        segments@.len() == 0 <==> trim(content@).len() == 0,
        blocks_ok(blocks_view(segments)),
{
    proof {
        lemma_blank_iff_empty(content@);
        lemma_message_ok(content@);
    }
    match try_parse_message_content(content) {
        Some(segments) => segments,
        None => Vec::new(),
    }
}

/// The blocks of a model reply, or `None` where it holds a line this reader
/// does not accept: a line that may start a list and begins, after its
/// indentation, with a character that is not ASCII.
pub fn try_parse_message_content(content: &str) -> (segments: Option<Vec<ContentSegment>>)
    requires
        text_fits(content@),
    ensures
        match segments {
            Some(segs) => parse_message(content@) == Some(blocks_view(segs)) && blocks_ok(blocks_view(segs))
                && (segs@.len() == 0 <==> trim(content@).len() == 0),
            None => parse_message(content@) is None,
        },
{
    proof {
        lemma_message_ok(content@);
        if parse_message(content@) is Some {
            lemma_blank_iff_empty(content@);
        }
    }
    let t = chars_of(content);
    parse_text(&t)
}

} // verus!
