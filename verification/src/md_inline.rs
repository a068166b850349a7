//! Inline spans of a reply line: code, formulas, links and emphasis.

use vstd::prelude::*;
use crate::markdown::{InlineSegment, Span, spans_view, span_view};
use crate::text::{
    contains_char, find_from, is_ws, starts_with, trim, find_from_exec, trimmed,
    slice_of, string_of, char_is_ws, chars_of, lemma_find_from_spec, starts_with_from,
};

verus! {

/// Number of backslashes right before position `idx`.
pub open spec fn backslash_run(t: Seq<char>, idx: int) -> nat
    decreases idx,
{
    if 0 < idx <= t.len() && t[idx - 1] == '\\' {
        1 + backslash_run(t, idx - 1)
    } else {
        0
    }
}

/// The character at `idx` follows an odd number of backslashes.
pub open spec fn is_escaped(t: Seq<char>, idx: int) -> bool {
    backslash_run(t, idx) % 2 == 1
}

/// The first unescaped occurrence of `p` at or after `search`, provided no
/// newline lies between `start` and it.
pub open spec fn find_unescaped_from(t: Seq<char>, start: int, search: int, p: Seq<char>) -> Option<nat>
    decreases t.len() + 1 - search,
{
    if search < 0 || search > t.len() || start < 0 || start > search || p.len() == 0 {
        None
    } else {
        match find_from(t, p, search) {
            None => None,
            Some(f) => if contains_char(t.subrange(start, f as int), '\n') {
                None
            } else if !is_escaped(t, f as int) {
                Some(f)
            } else if f + p.len() > search && f + p.len() <= t.len() {
                find_unescaped_from(t, start, (f + p.len()) as int, p)
            } else {
                None
            },
        }
    }
}

pub open spec fn find_unescaped(t: Seq<char>, start: int, p: Seq<char>) -> Option<nat> {
    find_unescaped_from(t, start, start, p)
}

pub open spec fn match_delim_from(t: Seq<char>, idx: int, depth: int, open: char, close: char) -> Option<nat>
    decreases t.len() - idx,
{
    if idx < 0 || idx >= t.len() {
        None
    } else if is_escaped(t, idx) {
        match_delim_from(t, idx + 1, depth, open, close)
    } else if t[idx] == open {
        match_delim_from(t, idx + 1, depth + 1, open, close)
    } else if t[idx] == close {
        if depth - 1 == 0 {
            Some(idx as nat)
        } else {
            match_delim_from(t, idx + 1, depth - 1, open, close)
        }
    } else {
        match_delim_from(t, idx + 1, depth, open, close)
    }
}

/// The position of the delimiter closing the one at `start`, counting nesting
/// and skipping escaped characters.
pub open spec fn matching_delim(t: Seq<char>, start: int, open: char, close: char) -> Option<nat> {
    if start < 0 || start >= t.len() || t[start] != open {
        None
    } else {
        match_delim_from(t, start, 0, open, close)
    }
}

/// An inline code span at `s`: backtick, non-empty code, backtick.
pub open spec fn inline_code(t: Seq<char>, s: int) -> Option<(Span, nat)> {
    if !(0 <= s < t.len() && t[s] == '`') {
        None
    } else {
        match find_unescaped(t, s + 1, seq!['`']) {
            None => None,
            Some(e) => if e <= s + 1 {
                None
            } else {
                Some((Span::InlineCode(t.subrange(s + 1, e as int)), e + 1))
            },
        }
    }
}

/// An inline formula at `s`: between `$$` and `$$`, or `$` and `$`, trimmed
/// and non-empty.
pub open spec fn inline_formula(t: Seq<char>, s: int) -> Option<(Span, nat)> {
    if 0 <= s <= t.len() && starts_with(t.skip(s), seq!['$', '$']) {
        match find_unescaped(t, s + 2, seq!['$', '$']) {
            None => None,
            Some(e) => {
                let c = trim(t.subrange(s + 2, e as int));
                if c.len() == 0 {
                    None
                } else {
                    Some((Span::Formula(c), e + 2))
                }
            },
        }
    } else if 0 <= s < t.len() && t[s] == '$' {
        match find_unescaped(t, s + 1, seq!['$']) {
            None => None,
            Some(e) => {
                let c = trim(t.subrange(s + 1, e as int));
                if c.len() == 0 {
                    None
                } else {
                    Some((Span::Formula(c), e + 1))
                }
            },
        }
    } else {
        None
    }
}

/// The emphasis markers, strongest first.
pub open spec fn marker_of(k: int) -> Seq<char> {
    if k == 0 {
        seq!['*', '*', '*']
    } else if k == 1 {
        seq!['_', '_', '_']
    } else if k == 2 {
        seq!['*', '*']
    } else if k == 3 {
        seq!['_', '_']
    } else if k == 4 {
        seq!['*']
    } else {
        seq!['_']
    }
}

/// Whether `c` is alphabetic or numeric in Unicode (`char::is_alphanumeric`).
pub uninterp spec fn char_is_alphanumeric(c: char) -> bool;

/// An underscore marker of length `ml` at `s` may open emphasis: no letter or
/// digit before it, and no white space after it.
pub open spec fn underscore_boundary(t: Seq<char>, s: int, ml: int) -> bool {
    let before_ok = if 0 < s <= t.len() {
        !char_is_alphanumeric(t[s - 1])
    } else {
        true
    };
    let after_ok = if 0 <= s + ml < t.len() {
        !is_ws(t[s + ml])
    } else {
        false
    };
    before_ok && after_ok
}

pub open spec fn emphasis_span(k: int, children: Seq<Span>) -> Span {
    if k < 2 {
        Span::BoldItalic(children)
    } else if k < 4 {
        Span::Bold(children)
    } else {
        Span::Italic(children)
    }
}

/// The text after a buffer of plain text is flushed into the spans.
pub open spec fn flush(acc: Seq<Span>, buf: Seq<char>) -> Seq<Span> {
    if buf.len() > 0 {
        acc.push(Span::Text(buf))
    } else {
        acc
    }
}

/// Plain text spans merged: empty texts dropped, adjacent texts joined.
pub open spec fn merge_spans(s: Seq<Span>) -> Seq<Span>
    decreases s.len(),
{
    if s.len() == 0 {
        seq![]
    } else {
        let m = merge_spans(s.drop_last());
        let x = s.last();
        match x {
            Span::Text(tx) => if tx.len() == 0 {
                m
            } else if m.len() > 0 && m.last() is Text {
                m.drop_last().push(Span::Text(m.last()->Text_0 + tx))
            } else {
                m.push(x)
            },
            _ => m.push(x),
        }
    }
}

/// Merged spans hold no empty text, and no two texts side by side.
pub open spec fn texts_merged(m: Seq<Span>) -> bool {
    &&& forall|i: int| 0 <= i < m.len() && (#[trigger] m[i]) is Text ==> m[i]->Text_0.len() > 0
    &&& forall|i: int| 0 <= i < m.len() - 1 ==> !((#[trigger] m[i]) is Text && m[i + 1] is Text)
}

/// Merging leaves no empty text span and no two text spans side by side.
pub proof fn lemma_merge_spans(s: Seq<Span>)
    ensures
        texts_merged(merge_spans(s)),
    decreases s.len(),
{
    if s.len() > 0 {
        let m = merge_spans(s.drop_last());
        lemma_merge_spans(s.drop_last());
        let r = merge_spans(s);
        let x = s.last();
        match x {
            Span::Text(tx) => {
                if tx.len() == 0 {
                } else if m.len() > 0 && m.last() is Text {
                    let d = m.drop_last();
                    assert forall|i: int| 0 <= i < r.len() && (#[trigger] r[i]) is Text implies r[i]->Text_0.len() > 0 by {
                        if i < d.len() {
                            assert(r[i] == m[i]);
                        }
                    }
                    assert forall|i: int| 0 <= i < r.len() - 1 implies !((#[trigger] r[i]) is Text && r[i + 1] is Text) by {
                        assert(r[i] == m[i]);
                        if i + 1 < d.len() {
                            assert(r[i + 1] == m[i + 1]);
                        } else {
                            assert(i + 1 == m.len() - 1);
                        }
                    }
                } else {
                    assert forall|i: int| 0 <= i < r.len() && (#[trigger] r[i]) is Text implies r[i]->Text_0.len() > 0 by {
                        if i < m.len() {
                            assert(r[i] == m[i]);
                        }
                    }
                    assert forall|i: int| 0 <= i < r.len() - 1 implies !((#[trigger] r[i]) is Text && r[i + 1] is Text) by {
                        assert(r[i] == m[i]);
                        if i + 1 < m.len() {
                            assert(r[i + 1] == m[i + 1]);
                        }
                    }
                }
            },
            _ => {
                assert forall|i: int| 0 <= i < r.len() && (#[trigger] r[i]) is Text implies r[i]->Text_0.len() > 0 by {
                    if i < m.len() {
                        assert(r[i] == m[i]);
                    }
                }
                assert forall|i: int| 0 <= i < r.len() - 1 implies !((#[trigger] r[i]) is Text && r[i + 1] is Text) by {
                    assert(r[i] == m[i]);
                    if i + 1 < m.len() {
                        assert(r[i + 1] == m[i + 1]);
                    }
                }
            },
        }
    }
}

/// The spans of `t`.
pub open spec fn inline_elements(t: Seq<char>) -> Seq<Span>
    decreases t.len(), 2nat, 0int,
{
    merge_spans(inline_from(t, 0, seq![], seq![]))
}

/// A link at `s`: `[text](url)` with balanced brackets and a non-empty url.
pub open spec fn inline_link(t: Seq<char>, s: int) -> Option<(Span, nat)>
    decreases t.len(), 0nat, 0int,
{
    if !(0 <= s < t.len() && t[s] == '[') {
        None
    } else {
        match matching_delim(t, s, '[', ']') {
            None => None,
            Some(cb) => if !(cb + 1 < t.len() && t[cb + 1int] == '(') {
                None
            } else {
                match matching_delim(t, cb + 1int, '(', ')') {
                    None => None,
                    Some(cp) => {
                        let url = trim(t.subrange(cb + 2int, cp as int));
                        if url.len() == 0 {
                            None
                        } else if s + 1 <= cb && cb + 2 <= cp < t.len() {
                            Some(
                                (
                                    Span::Link {
                                        text: inline_elements(t.subrange(s + 1, cb as int)),
                                        url: url,
                                    },
                                    cp + 1,
                                ),
                            )
                        } else {
                            None
                        }
                    },
                }
            },
        }
    }
}

/// Emphasis at `s`, trying the markers from the `k`-th on.
pub open spec fn inline_emphasis(t: Seq<char>, s: int, k: int) -> Option<(Span, nat)>
    decreases t.len(), 0nat, 6 - k,
{
    if k < 0 || k >= 6 || s < 0 || s > t.len() {
        None
    } else {
        let m = marker_of(k);
        if !starts_with(t.skip(s), m) {
            inline_emphasis(t, s, k + 1)
        } else if m[0] == '_' && !underscore_boundary(t, s, m.len() as int) {
            inline_emphasis(t, s, k + 1)
        } else {
            match find_unescaped(t, s + m.len(), m) {
                None => None,
                Some(e) => {
                    let inner = trim(t.subrange(s + m.len(), e as int));
                    if inner.len() == 0 {
                        inline_emphasis(t, s, k + 1)
                    } else if s + m.len() <= e && e + m.len() <= t.len() && inner.len() < t.len() {
                        Some((emphasis_span(k, inline_elements(inner)), e + m.len()))
                    } else {
                        None
                    }
                },
            }
        }
    }
}

/// The spans of `t` from position `i` on, after the spans `acc` and the
/// pending plain text `buf`.
pub open spec fn inline_from(t: Seq<char>, i: int, buf: Seq<char>, acc: Seq<Span>) -> Seq<Span>
    decreases t.len(), 1nat, t.len() - i,
{
    if i < 0 || i >= t.len() {
        flush(acc, buf)
    } else if t[i] == '\\' && i + 1 < t.len() {
        inline_from(t, i + 2, buf.push(t[i + 1]), acc)
    } else if inline_code(t, i) is Some {
        let (sp, k) = inline_code(t, i)->0;
        if i < k <= t.len() {
            inline_from(t, k as int, seq![], flush(acc, buf).push(sp))
        } else {
            flush(acc, buf)
        }
    } else if inline_formula(t, i) is Some {
        let (sp, k) = inline_formula(t, i)->0;
        if i < k <= t.len() {
            inline_from(t, k as int, seq![], flush(acc, buf).push(sp))
        } else {
            flush(acc, buf)
        }
    } else if inline_link(t, i) is Some {
        let (sp, k) = inline_link(t, i)->0;
        if i < k <= t.len() {
            inline_from(t, k as int, seq![], flush(acc, buf).push(sp))
        } else {
            flush(acc, buf)
        }
    } else if inline_emphasis(t, i, 0) is Some {
        let (sp, k) = inline_emphasis(t, i, 0)->0;
        if i < k <= t.len() {
            inline_from(t, k as int, seq![], flush(acc, buf).push(sp))
        } else {
            flush(acc, buf)
        }
    } else {
        inline_from(t, i + 1, buf.push(t[i]), acc)
    }
}

// ---------------------------------------------------------------------------
// Executable inline reader

/// `char::is_alphanumeric`: alphabetic or numeric in Unicode. Its result is
/// named; for an ASCII character it is stated: the ASCII letters and digits.
#[verifier::external_body]
fn is_alphanumeric(c: char) -> (r: bool)
    ensures
        r == char_is_alphanumeric(c),
        (c as u32) < 128 ==> r == (('0' <= c && c <= '9') || ('a' <= c && c <= 'z') || ('A' <= c
            && c <= 'Z')),
{
    c.is_alphanumeric()
}

/// Whether the character at `index` follows an odd number of backslashes.
fn is_escaped_at(text: &Vec<char>, index: usize) -> (r: bool)
    requires
        index <= text.len(),
    ensures
        r == is_escaped(text@, index as int),
{
    let mut slash_count: usize = 0;
    let mut cursor = index;
    while cursor > 0 && text[cursor - 1] == '\\'
        invariant
            cursor <= index <= text.len(),
            slash_count == index - cursor,
            backslash_run(text@, index as int) == slash_count + backslash_run(text@, cursor as int),
        decreases cursor,
    {
        slash_count = slash_count + 1;
        cursor = cursor - 1;
    }
    slash_count % 2 == 1
}

/// Whether `c` occurs in `v[lo..hi]`.
fn contains_in(v: &Vec<char>, lo: usize, hi: usize, c: char) -> (r: bool)
    requires
        lo <= hi <= v.len(),
    ensures
        r == contains_char(v@.subrange(lo as int, hi as int), c),
{
    let mut i = lo;
    while i < hi
        invariant
            lo <= i <= hi <= v.len(),
            forall|k: int| lo <= k < i ==> v@[k] != c,
        decreases hi - i,
    {
        if v[i] == c {
            assert(v@.subrange(lo as int, hi as int)[i - lo] == c);
            return true;
        }
        i = i + 1;
    }
    assert forall|k: int| 0 <= k < hi - lo implies v@.subrange(lo as int, hi as int)[k] != c by {
        assert(v@.subrange(lo as int, hi as int)[k] == v@[lo + k]);
    }
    false
}

/// The first unescaped occurrence of `needle` at or after `start`, with no
/// newline before it.
fn find_unescaped_exec(text: &Vec<char>, start: usize, needle: &Vec<char>) -> (r: Option<usize>)
    requires
        start <= text.len(),
        needle.len() > 0,
    ensures
        match r {
            Some(j) => find_unescaped(text@, start as int, needle@) == Some(j as nat) && start <= j
                && j + needle.len() <= text.len(),
            None => find_unescaped(text@, start as int, needle@) is None,
        },
{
    let mut search = start;
    while search <= text.len()
        invariant
            start <= search <= text.len(),
            needle.len() > 0,
            find_unescaped(text@, start as int, needle@) == find_unescaped_from(
                text@,
                start as int,
                search as int,
                needle@,
            ),
        decreases text.len() + 1 - search,
    {
        proof {
            lemma_find_from_spec(text@, needle@, search as int);
        }
        let found = match find_from_exec(text, needle, search) {
            Some(f) => f,
            None => {
                return None;
            },
        };
        if contains_in(text, start, found, '\n') {
            return None;
        }
        if !is_escaped_at(text, found) {
            return Some(found);
        }
        search = found + needle.len();
    }
    None
}

/// The delimiter closing the `open` at `start`.
fn find_matching_delimiter(text: &Vec<char>, start: usize, open: char, close: char) -> (r: Option<
    usize,
>)
    requires
        open != close,
    ensures
        match r {
            Some(j) => matching_delim(text@, start as int, open, close) == Some(j as nat) && start
                < j < text.len(),
            None => matching_delim(text@, start as int, open, close) is None,
        },
{
    if start >= text.len() || text[start] != open {
        return None;
    }
    let mut opens: usize = 0;
    let mut closes: usize = 0;
    let mut index = start;
    while index < text.len()
        invariant
            start <= index <= text.len(),
            start < text.len(),
            text@[start as int] == open,
            open != close,
            opens + closes <= index - start,
            matching_delim(text@, start as int, open, close) == match_delim_from(
                text@,
                index as int,
                opens - closes,
                open,
                close,
            ),
        decreases text.len() - index,
    {
        if is_escaped_at(text, index) {
            index = index + 1;
            continue;
        }
        if text[index] == open {
            opens = opens + 1;
        } else if text[index] == close {
            if opens == closes + 1 {
                return Some(index);
            }
            closes = closes + 1;
        }
        index = index + 1;
    }
    None
}

/// An inline code span at `start`, and the position after it.
fn parse_inline_code(text: &Vec<char>, start: usize) -> (r: Option<(InlineSegment, usize)>)
    requires
        start < text.len(),
    ensures
        match r {
            Some((sp, k)) => inline_code(text@, start as int) == Some((sp@, k as nat)) && start
                < k <= text.len(),
            None => inline_code(text@, start as int) is None,
        },
{
    if text[start] != '`' {
        return None;
    }
    let tick = vec!['`'];
    assert(tick@ =~= seq!['`']);
    let end = match find_unescaped_exec(text, start + 1, &tick) {
        Some(e) => e,
        None => {
            return None;
        },
    };
    if end <= start + 1 {
        return None;
    }
    let code = slice_of(text, start + 1, end);
    Some((InlineSegment::InlineCode(string_of(&code)), end + 1))
}

/// An inline formula at `start`, and the position after it.
fn parse_inline_formula(text: &Vec<char>, start: usize) -> (r: Option<(InlineSegment, usize)>)
    requires
        start < text.len(),
    ensures
        match r {
            Some((sp, k)) => inline_formula(text@, start as int) == Some((sp@, k as nat)) && start
                < k <= text.len(),
            None => inline_formula(text@, start as int) is None,
        },
{
    let dd = vec!['$', '$'];
    let d = vec!['$'];
    assert(dd@ =~= seq!['$', '$']);
    assert(d@ =~= seq!['$']);
    assert(text@.subrange(start as int, text@.len() as int) =~= text@.skip(start as int));
    if starts_with_from(text, start, &dd) {
        let end = match find_unescaped_exec(text, start + 2, &dd) {
            Some(e) => e,
            None => {
                return None;
            },
        };
        let c = trimmed(text, start + 2, end);
        if c.len() == 0 {
            return None;
        }
        return Some((InlineSegment::Formula(string_of(&c)), end + 2));
    }
    if text[start] != '$' {
        return None;
    }
    let end = match find_unescaped_exec(text, start + 1, &d) {
        Some(e) => e,
        None => {
            return None;
        },
    };
    let c = trimmed(text, start + 1, end);
    if c.len() == 0 {
        return None;
    }
    Some((InlineSegment::Formula(string_of(&c)), end + 1))
}

/// A link at `start`, and the position after it.
fn parse_link(text: &Vec<char>, start: usize) -> (r: Option<(InlineSegment, usize)>)
    requires
        start < text.len(),
    ensures
        match r {
            Some((sp, k)) => inline_link(text@, start as int) == Some((sp@, k as nat)) && start < k
                <= text.len(),
            None => inline_link(text@, start as int) is None,
        },
    decreases text@.len(), 0nat,
{
    if text[start] != '[' {
        return None;
    }
    let close_bracket = match find_matching_delimiter(text, start, '[', ']') {
        Some(c) => c,
        None => {
            return None;
        },
    };
    if !(close_bracket + 1 < text.len() && text[close_bracket + 1] == '(') {
        return None;
    }
    let close_paren = match find_matching_delimiter(text, close_bracket + 1, '(', ')') {
        Some(c) => c,
        None => {
            return None;
        },
    };
    let url = trimmed(text, close_bracket + 2, close_paren);
    if url.len() == 0 {
        return None;
    }
    let link_text = slice_of(text, start + 1, close_bracket);
    let children = inline_elements_chars(&link_text);
    let seg = InlineSegment::Link { text: children, url: string_of(&url) };
    Some((seg, close_paren + 1))
}

/// The marker with index `k`.
fn marker_chars(k: usize) -> (m: Vec<char>)
    requires
        k < 6,
    ensures
        m@ == marker_of(k as int),
{
    let m = if k == 0 {
        vec!['*', '*', '*']
    } else if k == 1 {
        vec!['_', '_', '_']
    } else if k == 2 {
        vec!['*', '*']
    } else if k == 3 {
        vec!['_', '_']
    } else if k == 4 {
        vec!['*']
    } else {
        vec!['_']
    };
    assert(m@ =~= marker_of(k as int));
    m
}

/// Whether an underscore marker of length `marker_len` at `start` may open
/// emphasis.
fn is_underscore_emphasis_boundary(text: &Vec<char>, start: usize, marker_len: usize) -> (r: bool)
    requires
        start <= text.len(),
    ensures
        r == underscore_boundary(text@, start as int, marker_len as int),
{
    let before = if start > 0 {
        !is_alphanumeric(text[start - 1])
    } else {
        true
    };
    let after = if marker_len < text.len() && start < text.len() - marker_len {
        !char_is_ws(text[start + marker_len])
    } else {
        false
    };
    before && after
}

/// Emphasis at `start`, and the position after it.
fn parse_emphasis(text: &Vec<char>, start: usize) -> (r: Option<(InlineSegment, usize)>)
    requires
        start < text.len(),
    ensures
        match r {
            Some((sp, k)) => inline_emphasis(text@, start as int, 0) == Some((sp@, k as nat))
                && start < k <= text.len(),
            None => inline_emphasis(text@, start as int, 0) is None,
        },
    decreases text@.len(), 0nat,
{
    let mut k: usize = 0;
    assert(text@.subrange(start as int, text@.len() as int) =~= text@.skip(start as int));
    while k < 6
        invariant
            k <= 6,
            start < text.len(),
            text@.subrange(start as int, text@.len() as int) == text@.skip(start as int),
            inline_emphasis(text@, start as int, 0) == inline_emphasis(text@, start as int, k as int),
        decreases 6 - k,
    {
        let marker = marker_chars(k);
        if !starts_with_from(text, start, &marker) {
            k = k + 1;
            continue;
        }
        if marker[0] == '_' && !is_underscore_emphasis_boundary(text, start, marker.len()) {
            k = k + 1;
            continue;
        }
        let end = match find_unescaped_exec(text, start + marker.len(), &marker) {
            Some(e) => e,
            None => {
                return None;
            },
        };
        let inner = trimmed(text, start + marker.len(), end);
        if inner.len() == 0 {
            k = k + 1;
            continue;
        }
        let children = inline_elements_chars(&inner);
        let seg = if k < 2 {
            InlineSegment::BoldItalic(children)
        } else if k < 4 {
            InlineSegment::Bold(children)
        } else {
            InlineSegment::Italic(children)
        };
        return Some((seg, end + marker.len()));
    }
    None
}

/// Moves the pending plain text into the spans.
fn flush_text(segments: &mut Vec<InlineSegment>, buffer: &mut Vec<char>)
    ensures
        spans_view(*final(segments)) == flush(spans_view(*old(segments)), old(buffer)@),
        final(buffer)@ == Seq::<char>::empty(),
{
    if buffer.len() > 0 {
        let ghost before = spans_view(*segments);
        let seg = InlineSegment::Text(string_of(buffer));
        let ghost sv = span_view(seg);
        segments.push(seg);
        assert(spans_view(*segments) =~= before.push(sv));
        *buffer = Vec::new();
    }
    assert(buffer@ =~= Seq::<char>::empty());
}

/// The characters of a `String`.
fn chars_of_string(s: &String) -> (v: Vec<char>)
    ensures
        v@ == s@,
{
    chars_of(s.as_str())
}

/// Plain text spans merged: empty texts dropped, adjacent texts joined.
fn merge_inline_text(segments: Vec<InlineSegment>) -> (merged: Vec<InlineSegment>)
    ensures
        spans_view(merged) == merge_spans(spans_view(segments)),
{
    let ghost orig = spans_view(segments);
    assert(orig.len() == segments.len());
    let mut rest = segments;
    let mut merged: Vec<InlineSegment> = Vec::new();
    let mut i: usize = 0;
    assert(orig.take(0) =~= Seq::<Span>::empty());
    assert(spans_view(merged) =~= Seq::<Span>::empty());
    while rest.len() > 0
        invariant
            i + rest.len() == orig.len(),
            orig.len() <= usize::MAX,
            spans_view(rest) =~= orig.skip(i as int),
            spans_view(merged) == merge_spans(orig.take(i as int)),
        decreases rest.len(),
    {
        let ghost rv = spans_view(rest);
        let segment = rest.remove(0);
        assert(spans_view(rest) =~= rv.drop_first());
        let ghost x = span_view(segment);
        assert(rv[0] == x);
        assert(x == orig[i as int]);
        assert(orig.take(i + 1).drop_last() =~= orig.take(i as int));
        assert(orig.take(i + 1).last() == x);
        let ghost m = spans_view(merged);
        match segment {
            InlineSegment::Text(text) => {
                if text.as_str().is_empty() {
                } else {
                    let last = merged.pop();
                    match last {
                        Some(InlineSegment::Text(existing)) => {
                            let mut joined = chars_of_string(&existing);
                            let tv = chars_of_string(&text);
                            let mut q: usize = 0;
                            let ghost j0 = joined@;
                            while q < tv.len()
                                invariant
                                    q <= tv.len(),
                                    joined@ == j0 + tv@.take(q as int),
                                decreases tv.len() - q,
                            {
                                joined.push(tv[q]);
                                q = q + 1;
                                assert(joined@ =~= j0 + tv@.take(q as int));
                            }
                            assert(tv@.take(tv@.len() as int) =~= tv@);
                            let seg = InlineSegment::Text(string_of(&joined));
                            let ghost sv = span_view(seg);
                            merged.push(seg);
                            assert(spans_view(merged) =~= m.drop_last().push(sv));
                        },
                        Some(other) => {
                            let ghost ov = span_view(other);
                            merged.push(other);
                            assert(spans_view(merged) =~= m);
                            let seg = InlineSegment::Text(text);
                            merged.push(seg);
                            assert(spans_view(merged) =~= m.push(x));
                        },
                        None => {
                            let seg = InlineSegment::Text(text);
                            merged.push(seg);
                            assert(spans_view(merged) =~= m.push(x));
                        },
                    }
                }
            },
            other => {
                merged.push(other);
                assert(spans_view(merged) =~= m.push(x));
            },
        }
        i = i + 1;
    }
    assert(orig.take(i as int) =~= orig);
    merged
}

/// Text is merged in `s` and, at every depth, in the spans inside it.
pub open spec fn deep_merged(s: Seq<Span>) -> bool
    decreases s,
{
    &&& texts_merged(s)
    &&& forall|i: int| 0 <= i < s.len() ==> match #[trigger] s[i] {
        Span::Bold(c) => deep_merged(c),
        Span::Italic(c) => deep_merged(c),
        Span::BoldItalic(c) => deep_merged(c),
        Span::Link { text, .. } => deep_merged(text),
        _ => true,
    }
}

/// The spans inside `sp`, if it holds any, are deeply merged.
pub open spec fn inner_ok(sp: Span) -> bool {
    match sp {
        Span::Bold(c) => deep_merged(c),
        Span::Italic(c) => deep_merged(c),
        Span::BoldItalic(c) => deep_merged(c),
        Span::Link { text, .. } => deep_merged(text),
        _ => true,
    }
}

/// Every span of `s` that holds spans holds deeply merged ones.
pub open spec fn inner_merged(s: Seq<Span>) -> bool {
    forall|i: int| 0 <= i < s.len() ==> inner_ok(#[trigger] s[i])
}

proof fn lemma_deep_from_inner(s: Seq<Span>)
    requires
        texts_merged(s),
        inner_merged(s),
    ensures
        deep_merged(s),
{
    assert forall|i: int| 0 <= i < s.len() implies match #[trigger] s[i] {
        Span::Bold(c) => deep_merged(c),
        Span::Italic(c) => deep_merged(c),
        Span::BoldItalic(c) => deep_merged(c),
        Span::Link { text, .. } => deep_merged(text),
        _ => true,
    } by {
        assert(inner_ok(s[i]));
    }
}

proof fn lemma_merge_inner(s: Seq<Span>)
    requires
        inner_merged(s),
    ensures
        inner_merged(merge_spans(s)),
    decreases s.len(),
{
    if s.len() > 0 {
        let pre = s.drop_last();
        assert(inner_merged(pre)) by {
            assert forall|i: int| 0 <= i < pre.len() implies inner_ok(#[trigger] pre[i]) by {
                assert(pre[i] == s[i]);
            }
        }
        lemma_merge_inner(pre);
        let m = merge_spans(pre);
        let r = merge_spans(s);
        let x = s.last();
        assert(inner_ok(s[s.len() - 1]));
        assert forall|i: int| 0 <= i < r.len() implies inner_ok(#[trigger] r[i]) by {
            if i < m.len() - 1 || (i < m.len() && !(x is Text && x->Text_0.len() > 0 && m.len() > 0 && m.last() is Text)) {
                assert(r[i] == m[i]);
            }
        }
    }
}

proof fn lemma_inner_push(acc: Seq<Span>, x: Span)
    requires
        inner_merged(acc),
        inner_ok(x),
    ensures
        inner_merged(acc.push(x)),
{
    let r = acc.push(x);
    assert forall|i: int| 0 <= i < r.len() implies inner_ok(#[trigger] r[i]) by {
        if i < acc.len() {
            assert(r[i] == acc[i]);
        }
    }
}

proof fn lemma_emphasis_inner(t: Seq<char>, s: int, k: int)
    ensures
        inline_emphasis(t, s, k) matches Some((sp, e)) ==> inner_ok(sp),
    decreases t.len(), 0nat, 6 - k,
{
    if 0 <= k < 6 && 0 <= s <= t.len() {
        let m = marker_of(k);
        if !starts_with(t.skip(s), m) || (m[0] == '_' && !underscore_boundary(t, s, m.len() as int)) {
            lemma_emphasis_inner(t, s, k + 1);
        } else {
            match find_unescaped(t, s + m.len(), m) {
                None => {},
                Some(e) => {
                    let inner = trim(t.subrange(s + m.len(), e as int));
                    if inner.len() == 0 {
                        lemma_emphasis_inner(t, s, k + 1);
                    } else if s + m.len() <= e && e + m.len() <= t.len() && inner.len() < t.len() {
                        lemma_deep_inline(inner);
                    }
                },
            }
        }
    }
}

proof fn lemma_from_inner(t: Seq<char>, i: int, buf: Seq<char>, acc: Seq<Span>)
    requires
        inner_merged(acc),
    ensures
        inner_merged(inline_from(t, i, buf, acc)),
    decreases t.len(), 1nat, t.len() - i,
{
    let fa = flush(acc, buf);
    assert(inner_merged(fa)) by {
        if buf.len() > 0 {
            lemma_inner_push(acc, Span::Text(buf));
        }
    }
    if i < 0 || i >= t.len() {
    } else if t[i] == '\\' && i + 1 < t.len() {
        lemma_from_inner(t, i + 2, buf.push(t[i + 1]), acc);
    } else if inline_code(t, i) is Some {
        let (sp, k) = inline_code(t, i)->0;
        if i < k <= t.len() {
            lemma_inner_push(fa, sp);
            lemma_from_inner(t, k as int, seq![], fa.push(sp));
        }
    } else if inline_formula(t, i) is Some {
        let (sp, k) = inline_formula(t, i)->0;
        if i < k <= t.len() {
            lemma_inner_push(fa, sp);
            lemma_from_inner(t, k as int, seq![], fa.push(sp));
        }
    } else if inline_link(t, i) is Some {
        let (sp, k) = inline_link(t, i)->0;
        if i < k <= t.len() {
            let cb = matching_delim(t, i, '[', ']')->0;
            lemma_deep_inline(t.subrange(i + 1, cb as int));
            lemma_inner_push(fa, sp);
            lemma_from_inner(t, k as int, seq![], fa.push(sp));
        }
    } else if inline_emphasis(t, i, 0) is Some {
        let (sp, k) = inline_emphasis(t, i, 0)->0;
        if i < k <= t.len() {
            lemma_emphasis_inner(t, i, 0);
            lemma_inner_push(fa, sp);
            lemma_from_inner(t, k as int, seq![], fa.push(sp));
        }
    } else {
        lemma_from_inner(t, i + 1, buf.push(t[i]), acc);
    }
}

/// The spans of a text hold merged text at every depth: no empty text and
/// no two texts side by side, inside emphasis and links too.
pub proof fn lemma_deep_inline(t: Seq<char>)
    ensures
        deep_merged(inline_elements(t)),
    decreases t.len(), 2nat, 0int,
{
    let raw = inline_from(t, 0, seq![], seq![]);
    lemma_from_inner(t, 0, seq![], seq![]);
    lemma_merge_inner(raw);
    lemma_merge_spans(raw);
    lemma_deep_from_inner(merge_spans(raw));
}

/// A character that may start inline markup: a backslash, a backtick, `$`,
/// `[`, `*` or `_`.
pub open spec fn is_markup_char(c: char) -> bool {
    c == '\\' || c == '`' || c == '$' || c == '[' || c == '*' || c == '_'
}

proof fn lemma_no_emphasis(t: Seq<char>, s: int, k: int)
    requires
        0 <= s < t.len(),
        !is_markup_char(t[s]),
    ensures
        inline_emphasis(t, s, k) is None,
    decreases 6 - k,
{
    if 0 <= k < 6 {
        let m = marker_of(k);
        assert(m.len() > 0 && (m[0] == '*' || m[0] == '_'));
        assert(t.skip(s)[0] == t[s]);
        assert(!starts_with(t.skip(s), m)) by {
            if starts_with(t.skip(s), m) {
                assert(t.skip(s).take(m.len() as int)[0] == m[0]);
            }
        }
        lemma_no_emphasis(t, s, k + 1);
    }
}

proof fn lemma_plain_from(t: Seq<char>, i: int, buf: Seq<char>, acc: Seq<Span>)
    requires
        0 <= i <= t.len(),
        forall|j: int| 0 <= j < t.len() ==> !is_markup_char(#[trigger] t[j]),
    ensures
        inline_from(t, i, buf, acc) == flush(acc, buf + t.skip(i)),
    decreases t.len() - i,
{
    if i >= t.len() {
        assert(buf + t.skip(i) =~= buf);
    } else {
        assert(!is_markup_char(t[i]));
        assert(inline_code(t, i) is None);
        assert(inline_formula(t, i) is None) by {
            if starts_with(t.skip(i), seq!['$', '$']) {
                assert(t.skip(i).take(2)[0] == t[i]);
            }
        }
        assert(inline_link(t, i) is None);
        lemma_no_emphasis(t, i, 0);
        lemma_plain_from(t, i + 1, buf.push(t[i]), acc);
        assert(buf.push(t[i]) + t.skip(i + 1) =~= buf + t.skip(i));
    }
}

/// Text without markup characters reads as one text span, or as nothing
/// when it is empty.
pub proof fn lemma_plain_inline(t: Seq<char>)
    requires
        forall|j: int| 0 <= j < t.len() ==> !is_markup_char(#[trigger] t[j]),
    ensures
        inline_elements(t) == if t.len() == 0 {
            Seq::<Span>::empty()
        } else {
            seq![Span::Text(t)]
        },
{
    lemma_plain_from(t, 0, seq![], seq![]);
    assert(Seq::<char>::empty() + t.skip(0) =~= t);
    assert(inline_from(t, 0, seq![], seq![]) == flush(seq![], t));
    if t.len() > 0 {
        let one = seq![Span::Text(t)];
        assert(flush(seq![], t) =~= one);
        assert(one.drop_last() =~= Seq::<Span>::empty());
        assert(merge_spans(Seq::<Span>::empty()) == Seq::<Span>::empty());
        assert(one.last() == Span::Text(t));
        assert(merge_spans(one) =~= Seq::<Span>::empty().push(Span::Text(t)));
    } else {
        assert(flush(seq![], t) =~= Seq::<Span>::empty());
    }
}

/// The spans of `text`, before merging.
fn parse_inline_impl(text: &Vec<char>) -> (segments: Vec<InlineSegment>)
    ensures
        spans_view(segments) == inline_from(text@, 0, seq![], seq![]),
    decreases text@.len(), 1nat,
{
    let mut segments: Vec<InlineSegment> = Vec::new();
    let mut buffer: Vec<char> = Vec::new();
    let mut index: usize = 0;
    assert(spans_view(segments) =~= Seq::<Span>::empty());
    assert(buffer@ =~= Seq::<char>::empty());
    while index < text.len()
        invariant
            index <= text.len(),
            inline_from(text@, 0, seq![], seq![]) == inline_from(
                text@,
                index as int,
                buffer@,
                spans_view(segments),
            ),
        decreases text.len() - index,
    {
        let ch = text[index];
        if ch == '\\' && index + 1 < text.len() {
            buffer.push(text[index + 1]);
            index = index + 2;
            continue;
        }
        if let Some((segment, next_index)) = parse_inline_code(text, index) {
            flush_text(&mut segments, &mut buffer);
            let ghost before = spans_view(segments);
            let ghost sv = span_view(segment);
            segments.push(segment);
            assert(spans_view(segments) =~= before.push(sv));
            index = next_index;
            continue;
        }
        if let Some((segment, next_index)) = parse_inline_formula(text, index) {
            flush_text(&mut segments, &mut buffer);
            let ghost before = spans_view(segments);
            let ghost sv = span_view(segment);
            segments.push(segment);
            assert(spans_view(segments) =~= before.push(sv));
            index = next_index;
            continue;
        }
        if let Some((segment, next_index)) = parse_link(text, index) {
            flush_text(&mut segments, &mut buffer);
            let ghost before = spans_view(segments);
            let ghost sv = span_view(segment);
            segments.push(segment);
            assert(spans_view(segments) =~= before.push(sv));
            index = next_index;
            continue;
        }
        if let Some((segment, next_index)) = parse_emphasis(text, index) {
            flush_text(&mut segments, &mut buffer);
            let ghost before = spans_view(segments);
            let ghost sv = span_view(segment);
            segments.push(segment);
            assert(spans_view(segments) =~= before.push(sv));
            index = next_index;
            continue;
        }
        buffer.push(ch);
        index = index + 1;
    }
    flush_text(&mut segments, &mut buffer);
    segments
}

/// The spans of `text`.
fn inline_elements_chars(text: &Vec<char>) -> (segments: Vec<InlineSegment>)
    ensures
        spans_view(segments) == inline_elements(text@),
    decreases text@.len(), 2nat,
{
    merge_inline_text(parse_inline_impl(text))
}

/// The inline spans of a line of text: code spans, formulas, links and
/// emphasis, with the plain text between them.
pub fn parse_inline_elements(text: &str) -> (segments: Vec<InlineSegment>)
    ensures
        spans_view(segments) == inline_elements(text@),
        deep_merged(spans_view(segments)),
        (forall|j: int| 0 <= j < text@.len() ==> !is_markup_char(#[trigger] text@[j])) ==> spans_view(
            segments,
        ) == if text@.len() == 0 {
            Seq::<Span>::empty()
        } else {
            seq![Span::Text(text@)]
        },
{
    proof {
        lemma_deep_inline(text@);
        if forall|j: int| 0 <= j < text@.len() ==> !is_markup_char(#[trigger] text@[j]) {
            lemma_plain_inline(text@);
        }
    }
    let t = chars_of(text);
    inline_elements_chars(&t)
}

} // verus!
