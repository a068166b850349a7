//! Recognisers for single lines of a reply: list markers, headers, rules and
//! table rows.

use vstd::prelude::*;
use crate::markdown::TableAlignment;
use crate::text::{
    view_lines, starts_with_exec, ends_with_exec, contains_char_exec, replace_all_exec,
    trim_start_from, trim_end_from, char_is_ws, trimmed, trim_range, contains_char, ends_with,
    is_ascii_char, is_ascii_digit, is_ws, replace_all, starts_with, trim, trim_end, trim_start,
    join, lemma_join_push,
};

verus! {

/// Lines handed to the recognisers are short enough for indentation widths
/// (four per tab) to fit in a `usize`.
pub open spec fn line_fits(s: Seq<char>) -> bool {
    4 * s.len() <= usize::MAX
}

pub open spec fn is_indent_char(c: char) -> bool {
    c == ' ' || c == '\t'
}

/// Width of the leading spaces and tabs of `s`, a tab counting four.
pub open spec fn indent_width(s: Seq<char>) -> nat
    decreases s.len(),
{
    if s.len() > 0 && is_indent_char(s[0]) {
        (if s[0] == '\t' {
            4nat
        } else {
            1nat
        }) + indent_width(s.drop_first())
    } else {
        0
    }
}

/// `s` without its leading spaces and tabs.
pub open spec fn strip_indent(s: Seq<char>) -> Seq<char>
    decreases s.len(),
{
    if s.len() > 0 && is_indent_char(s[0]) {
        strip_indent(s.drop_first())
    } else {
        s
    }
}

/// Number of ASCII digits at the start of `s`.
pub open spec fn digit_run(s: Seq<char>) -> nat
    decreases s.len(),
{
    if s.len() > 0 && is_ascii_digit(s[0]) {
        1 + digit_run(s.drop_first())
    } else {
        0
    }
}

pub open spec fn is_bullet(c: char) -> bool {
    c == '-' || c == '*' || c == '+'
}

/// A list item marker: its indentation, whether it is numbered, and the text
/// after it.
pub struct Marker {
    pub indent: nat,
    pub ordered: bool,
    pub content: Seq<char>,
}

/// The lines this reader does not accept as possible list items: the first
/// character after the indentation is not ASCII, or the white space after a
/// bullet or after a number's `.`/`)` is not ASCII.
pub open spec fn marker_unreadable(line: Seq<char>) -> bool {
    let r = strip_indent(line);
    let d = digit_run(r);
    ||| (r.len() > 0 && !is_ascii_char(r[0]))
    ||| (r.len() >= 2 && is_bullet(r[0]) && is_ws(r[1]) && !is_ascii_char(r[1]))
    ||| (d > 0 && d + 1 < r.len() && (r[d as int] == '.' || r[d as int] == ')') && is_ws(
        r[d + 1int],
    ) && !is_ascii_char(r[d + 1int]))
}

/// The list marker that `line` starts with, if any: `-`, `*` or `+` followed
/// by white space, or digits followed by `.` or `)` and white space.
pub open spec fn list_marker(line: Seq<char>) -> Option<Marker> {
    let r = strip_indent(line);
    let w = indent_width(line);
    let d = digit_run(r);
    if r.len() >= 2 && is_bullet(r[0]) && is_ws(r[1]) {
        Some(Marker { indent: w, ordered: false, content: trim(r.skip(2)) })
    } else if d > 0 && d + 1 < r.len() && (r[d as int] == '.' || r[d as int] == ')') && is_ws(
        r[d + 1int],
    ) {
        Some(Marker { indent: w, ordered: true, content: trim(r.skip(d + 2int)) })
    } else {
        None
    }
}

/// What looking for a marker on `line` gives: `None` on a line this reader
/// does not accept.
pub open spec fn marker_step(line: Seq<char>) -> Option<Option<Marker>> {
    if marker_unreadable(line) {
        None
    } else {
        Some(list_marker(line))
    }
}

/// Number of characters of `s` that are not white space.
pub open spec fn count_non_ws(s: Seq<char>) -> nat
    decreases s.len(),
{
    if s.len() == 0 {
        0
    } else {
        count_non_ws(s.drop_last()) + if is_ws(s.last()) {
            0nat
        } else {
            1nat
        }
    }
}

pub open spec fn non_ws_all(s: Seq<char>, c: char) -> bool {
    forall|i: int| 0 <= i < s.len() && !is_ws(s[i]) ==> s[i] == c
}

/// A thematic break: at least three `-`, `*` or `_`, all the same, white space
/// aside.
pub open spec fn is_rule(s: Seq<char>) -> bool {
    count_non_ws(s) >= 3 && (non_ws_all(s, '-') || non_ws_all(s, '*') || non_ws_all(s, '_'))
}

/// Number of `#` at the start of `s`.
pub open spec fn hash_run(s: Seq<char>) -> nat
    decreases s.len(),
{
    if s.len() > 0 && s[0] == '#' {
        1 + hash_run(s.drop_first())
    } else {
        0
    }
}

/// `s` without its trailing `#`s.
pub open spec fn trim_end_hashes(s: Seq<char>) -> Seq<char>
    decreases s.len(),
{
    if s.len() > 0 && s.last() == '#' {
        trim_end_hashes(s.drop_last())
    } else {
        s
    }
}

/// An ATX header: one to six `#` (more count as six), white space, and a
/// non-empty title, trailing `#`s removed.
pub open spec fn header(s: Seq<char>) -> Option<(nat, Seq<char>)> {
    let h = hash_run(s);
    let level: nat = if h < 6 {
        h
    } else {
        6
    };
    if level == 0 || level >= s.len() || !is_ws(s[level as int]) {
        None
    } else {
        let text = trim(trim_end_hashes(trim(s.skip(level as int))));
        if text.len() == 0 {
            None
        } else {
            Some((level, text))
        }
    }
}

// ---------------------------------------------------------------------------
// Table rows

/// Number of backticks in the run starting at `i`.
pub open spec fn backtick_run(s: Seq<char>, i: int) -> nat
    decreases s.len() - i,
{
    if 0 <= i < s.len() && s[i] == '`' {
        1 + backtick_run(s, i + 1)
    } else {
        0
    }
}

/// The cells of a table row from position `i` on: cells are separated by `|`
/// outside code spans; a backslash keeps the next character in the cell; a
/// code span opens with a run of backticks and closes with a run of the same
/// length.
pub open spec fn split_row_from(
    s: Seq<char>,
    i: int,
    escaped: bool,
    fence: nat,
    cur: Seq<char>,
    parts: Seq<Seq<char>>,
) -> Seq<Seq<char>>
    decreases s.len() - i,
{
    if i < 0 || i >= s.len() {
        parts.push(cur)
    } else if escaped {
        split_row_from(s, i + 1, false, fence, cur.push(s[i]), parts)
    } else if s[i] == '\\' {
        split_row_from(s, i + 1, true, fence, cur.push(s[i]), parts)
    } else if s[i] == '`' {
        let run = backtick_run(s, i);
        if run >= 1 && i + run <= s.len() {
            let f: nat = if fence == 0 {
                run
            } else if fence == run {
                0
            } else {
                fence
            };
            split_row_from(s, i + run, false, f, cur + s.subrange(i, i + run), parts)
        } else {
            parts.push(cur)
        }
    } else if s[i] == '|' && fence == 0 {
        split_row_from(s, i + 1, false, fence, seq![], parts.push(cur))
    } else {
        split_row_from(s, i + 1, false, fence, cur.push(s[i]), parts)
    }
}

pub open spec fn split_row(s: Seq<char>) -> Seq<Seq<char>> {
    split_row_from(s, 0, false, 0, seq![], seq![])
}

proof fn lemma_backtick_run(s: Seq<char>, i: int)
    requires
        0 <= i,
    ensures
        i + backtick_run(s, i) <= s.len() || backtick_run(s, i) == 0,
        0 <= i < s.len() && s[i] == '`' ==> backtick_run(s, i) >= 1,
    decreases s.len() - i,
{
    if 0 <= i < s.len() && s[i] == '`' {
        lemma_backtick_run(s, i + 1);
    }
}

proof fn lemma_join_push_two(q: Seq<Seq<char>>, x: Seq<char>, y: Seq<char>)
    ensures
        join(q.push(x).push(y), seq!['|']) == join(q.push(x + seq!['|'] + y), seq!['|']),
{
    lemma_join_push(q.push(x), seq!['|'], y);
    lemma_join_push(q, seq!['|'], x);
    lemma_join_push(q, seq!['|'], x + seq!['|'] + y);
    if q.len() > 0 {
        assert(join(q, seq!['|']) + seq!['|'] + x + seq!['|'] + y =~= join(q, seq!['|']) + seq!['|'] + (x
            + seq!['|'] + y));
    }
}

proof fn lemma_split_row_from(s: Seq<char>, i: int, escaped: bool, fence: nat, cur: Seq<char>, parts: Seq<Seq<char>>)
    requires
        0 <= i <= s.len(),
    ensures
        split_row_from(s, i, escaped, fence, cur, parts).len() > parts.len(),
        join(split_row_from(s, i, escaped, fence, cur, parts), seq!['|']) == join(
            parts.push(cur + s.skip(i)),
            seq!['|'],
        ),
    decreases s.len() - i,
{
    if i >= s.len() {
        assert(cur + s.skip(i) =~= cur);
    } else if escaped || s[i] == '\\' || !(s[i] == '`' || (s[i] == '|' && fence == 0)) {
        let e = if escaped { false } else { s[i] == '\\' };
        lemma_split_row_from(s, i + 1, e, fence, cur.push(s[i]), parts);
        assert(cur.push(s[i]) + s.skip(i + 1) =~= cur + s.skip(i));
    } else if s[i] == '`' {
        lemma_backtick_run(s, i);
        let run = backtick_run(s, i);
        let f: nat = if fence == 0 {
            run
        } else if fence == run {
            0
        } else {
            fence
        };
        lemma_split_row_from(s, i + run, false, f, cur + s.subrange(i, i + run), parts);
        assert(cur + s.subrange(i, i + run) + s.skip(i + run) =~= cur + s.skip(i));
    } else {
        lemma_split_row_from(s, i + 1, false, fence, seq![], parts.push(cur));
        lemma_join_push_two(parts, cur, s.skip(i + 1));
        assert(Seq::<char>::empty() + s.skip(i + 1) =~= s.skip(i + 1));
        assert(cur + seq!['|'] + s.skip(i + 1) =~= cur + s.skip(i));
    }
}

/// A row splits into at least one cell, and joining the cells with `|`
/// gives the row back: the `|` between cells are the only characters
/// dropped.
pub proof fn lemma_split_row_join(s: Seq<char>)
    ensures
        split_row(s).len() >= 1,
        join(split_row(s), seq!['|']) == s,
{
    lemma_split_row_from(s, 0, false, 0, seq![], seq![]);
    assert(Seq::<char>::empty() + s.skip(0) =~= s);
    assert(Seq::<Seq<char>>::empty().push(s).len() == 1);
}

/// A cell with its HTML line breaks turned into newlines.
pub open spec fn cell_norm(c: Seq<char>) -> Seq<char> {
    replace_all(
        replace_all(
            replace_all(c, seq!['<', 'b', 'r', '>'], seq!['\n']),
            seq!['<', 'b', 'r', '/', '>'],
            seq!['\n'],
        ),
        seq!['<', 'b', 'r', ' ', '/', '>'],
        seq!['\n'],
    )
}

/// The cells of a table row: the line holds a `|`; the cells are trimmed and
/// normalised; the empty cells before a leading `|` and after a trailing `|`
/// are dropped; a row with no cell left is no row.
pub open spec fn table_row(line: Seq<char>) -> Option<Seq<Seq<char>>> {
    if !contains_char(line, '|') {
        None
    } else {
        let c0 = split_row(line).map_values(|c: Seq<char>| cell_norm(trim(c)));
        let c1 = if starts_with(trim_start(line), seq!['|']) && c0.len() > 0 {
            c0.drop_first()
        } else {
            c0
        };
        let c2 = if ends_with(trim_end(line), seq!['|']) && c1.len() > 0 {
            c1.drop_last()
        } else {
            c1
        };
        if c2.len() == 0 {
            None
        } else {
            Some(c2)
        }
    }
}

/// Number of occurrences of `c` in `s`.
pub open spec fn count_char(s: Seq<char>, c: char) -> nat
    decreases s.len(),
{
    if s.len() == 0 {
        0
    } else {
        count_char(s.drop_last(), c) + if s.last() == c {
            1nat
        } else {
            0nat
        }
    }
}

/// A separator cell: non-empty, only `-`, `:` and spaces, at least three `-`.
pub open spec fn separator_cell(t: Seq<char>) -> bool {
    &&& t.len() > 0
    &&& forall|j: int| 0 <= j < t.len() ==> (t[j] == '-' || t[j] == ':' || t[j] == ' ')
    &&& count_char(t, '-') >= 3
}

/// The alignment a separator cell asks for, by its colons.
pub open spec fn cell_alignment(t: Seq<char>) -> TableAlignment {
    let l = t.len() > 0 && t[0] == ':';
    let r = t.len() > 0 && t.last() == ':';
    if l && r {
        TableAlignment::Center
    } else if l {
        TableAlignment::Left
    } else if r {
        TableAlignment::Right
    } else {
        TableAlignment::Unaligned
    }
}

/// A table's separator row: a row all of whose cells are separator cells.
pub open spec fn table_separator(line: Seq<char>) -> Option<Seq<TableAlignment>> {
    match table_row(line) {
        None => None,
        Some(cells) => if forall|i: int| 0 <= i < cells.len() ==> separator_cell(trim(cells[i])) {
            Some(Seq::new(cells.len(), |i: int| cell_alignment(trim(cells[i]))))
        } else {
            None
        },
    }
}

/// `cells` padded with empty cells or cut to `n` cells.
pub open spec fn fit_cells(cells: Seq<Seq<char>>, n: nat) -> Seq<Seq<char>> {
    if cells.len() < n {
        cells + Seq::new((n - cells.len()) as nat, |i: int| Seq::<char>::empty())
    } else {
        cells.take(n as int)
    }
}

/// Whether a line ends the paragraph or table before it; `None` on a line
/// this reader does not accept.
pub open spec fn block_start(line: Seq<char>) -> Option<bool> {
    let t = trim(line);
    let dd = seq!['$', '$'];
    if t.len() == 0 {
        Some(true)
    } else if starts_with(t, seq!['`', '`', '`']) || t == dd || (starts_with(t, dd) && ends_with(
        t,
        dd,
    ) && t.len() > 4) || starts_with(t, seq!['>']) || is_rule(t) || header(t) is Some
        || table_separator(t) is Some {
        Some(true)
    } else {
        match marker_step(line) {
            None => None,
            Some(m) => Some(m is Some),
        }
    }
}

// ---------------------------------------------------------------------------
// Executable recognisers

/// A recognised list marker.
pub struct ListMarker {
    pub indent: usize,
    pub ordered: bool,
    pub content: Vec<char>,
}

pub open spec fn marker_view(m: ListMarker) -> Marker {
    Marker { indent: m.indent as nat, ordered: m.ordered, content: m.content@ }
}

pub open spec fn opt_marker_view(m: Option<ListMarker>) -> Option<Marker> {
    match m {
        Some(x) => Some(marker_view(x)),
        None => None,
    }
}

/// Width and length of the leading spaces and tabs of `line`.
pub fn indent_prefix(line: &Vec<char>) -> (r: (usize, usize))
    requires
        line_fits(line@),
    ensures
        r.0 == indent_width(line@),
        r.1 <= line.len(),
        strip_indent(line@) == line@.skip(r.1 as int),
        r.0 <= 4 * r.1,
{
    let mut w: usize = 0;
    let mut p: usize = 0;
    assert(line@.skip(0) =~= line@);
    while p < line.len() && (line[p] == ' ' || line[p] == '\t')
        invariant
            p <= line.len(),
            line_fits(line@),
            w <= 4 * p,
            indent_width(line@) == w + indent_width(line@.skip(p as int)),
            strip_indent(line@) == strip_indent(line@.skip(p as int)),
        decreases line.len() - p,
    {
        assert(line@.skip(p as int).drop_first() =~= line@.skip(p + 1));
        if line[p] == '\t' {
            w = w + 4;
        } else {
            w = w + 1;
        }
        p = p + 1;
    }
    (w, p)
}

/// Width of the leading spaces and tabs of `line`, a tab counting four.
pub fn leading_indent_width(line: &Vec<char>) -> (w: usize)
    requires
        line_fits(line@),
    ensures
        w == indent_width(line@),
{
    indent_prefix(line).0
}

/// Number of ASCII digits in `v` from position `p` on.
fn digits_from(v: &Vec<char>, p: usize) -> (d: usize)
    requires
        p <= v.len(),
    ensures
        d == digit_run(v@.skip(p as int)),
        p + d <= v.len(),
{
    let mut q = p;
    while q < v.len() && '0' <= v[q] && v[q] <= '9'
        invariant
            p <= q <= v.len(),
            digit_run(v@.skip(p as int)) == (q - p) + digit_run(v@.skip(q as int)),
        decreases v.len() - q,
    {
        assert(v@.skip(q as int).drop_first() =~= v@.skip(q + 1));
        q = q + 1;
    }
    q - p
}

/// The list marker `line` starts with, if any.
pub fn parse_list_marker(line: &Vec<char>) -> (m: Option<ListMarker>)
    requires
        line_fits(line@),
        !marker_unreadable(line@),
    ensures
        opt_marker_view(m) == list_marker(line@),
{
    let (indent, p) = indent_prefix(line);
    let ghost r = line@.skip(p as int);
    let n = line.len();
    if n - p >= 2 && (line[p] == '-' || line[p] == '*' || line[p] == '+') && char_is_ws(line[p + 1]) {
        assert(r.skip(2) =~= line@.subrange(p + 2, n as int));
        let content = trimmed(line, p + 2, n);
        return Some(ListMarker { indent, ordered: false, content });
    }
    let d = digits_from(line, p);
    if d > 0 && p + d + 1 < n && (line[p + d] == '.' || line[p + d] == ')') && char_is_ws(line[p + d + 1]) {
        assert(r.skip(d + 2) =~= line@.subrange(p + d + 2, n as int));
        let content = trimmed(line, p + d + 2, n);
        return Some(ListMarker { indent, ordered: true, content });
    }
    None
}

proof fn lemma_non_ws_all_push(s: Seq<char>, x: char, c: char)
    ensures
        non_ws_all(s.push(x), c) == (non_ws_all(s, c) && (is_ws(x) || x == c)),
{
    if non_ws_all(s, c) && (is_ws(x) || x == c) {
        assert forall|i: int| 0 <= i < s.push(x).len() && !is_ws(s.push(x)[i]) implies s.push(
            x,
        )[i] == c by {
            if i < s.len() {
                assert(s.push(x)[i] == s[i]);
            }
        }
    }
    if non_ws_all(s.push(x), c) {
        assert forall|i: int| 0 <= i < s.len() && !is_ws(s[i]) implies s[i] == c by {
            assert(s.push(x)[i] == s[i]);
        }
        assert(s.push(x)[s.len() as int] == x);
    }
}

/// Whether `line` is a thematic break.
pub fn is_horizontal_rule(line: &Vec<char>) -> (r: bool)
    ensures
        r == is_rule(line@),
{
    let mut count: usize = 0;
    let mut dash = true;
    let mut star = true;
    let mut under = true;
    let mut i: usize = 0;
    while i < line.len()
        invariant
            i <= line.len(),
            count == count_non_ws(line@.take(i as int)),
            count <= i,
            dash == non_ws_all(line@.take(i as int), '-'),
            star == non_ws_all(line@.take(i as int), '*'),
            under == non_ws_all(line@.take(i as int), '_'),
        decreases line.len() - i,
    {
        let c = line[i];
        assert(line@.take(i + 1).drop_last() =~= line@.take(i as int));
        proof {
            assert(line@.take(i + 1) =~= line@.take(i as int).push(c));
            lemma_non_ws_all_push(line@.take(i as int), c, '-');
            lemma_non_ws_all_push(line@.take(i as int), c, '*');
            lemma_non_ws_all_push(line@.take(i as int), c, '_');
        }
        if !char_is_ws(c) {
            count = count + 1;
            dash = dash && c == '-';
            star = star && c == '*';
            under = under && c == '_';
        }
        i = i + 1;
    }
    assert(line@.take(i as int) =~= line@);
    count >= 3 && (dash || star || under)
}

/// An ATX header: its level and title.
pub fn parse_header(line: &Vec<char>) -> (r: Option<(usize, Vec<char>)>)
    ensures
        match r {
            Some((l, t)) => header(line@) == Some((l as nat, t@)),
            None => header(line@) is None,
        },
{
    let n = line.len();
    let mut level: usize = 0;
    assert(line@.skip(0) =~= line@);
    while level < n && level < 6 && line[level] == '#'
        invariant
            level <= n == line.len(),
            level <= 6,
            hash_run(line@) == level + hash_run(line@.skip(level as int)),
        decreases n - level,
    {
        assert(line@.skip(level as int).drop_first() =~= line@.skip(level + 1));
        level = level + 1;
    }
    proof {
        if level < 6 {
            if level < n {
                assert(line@.skip(level as int)[0] == line@[level as int]);
            }
            assert(hash_run(line@.skip(level as int)) == 0);
        }
    }
    if level == 0 || level >= n || !char_is_ws(line[level]) {
        return None;
    }
    let (a, b) = trim_range(line, level, n);
    assert(line@.skip(level as int) =~= line@.subrange(level as int, n as int));
    let mut e = b;
    while e > a && line[e - 1] == '#'
        invariant
            a <= e <= b <= n == line.len(),
            trim_end_hashes(line@.subrange(a as int, b as int)) == trim_end_hashes(
                line@.subrange(a as int, e as int),
            ),
        decreases e - a,
    {
        assert(line@.subrange(a as int, e as int).drop_last() =~= line@.subrange(
            a as int,
            e - 1,
        ));
        e = e - 1;
    }
    let text = trimmed(line, a, e);
    if text.len() == 0 {
        return None;
    }
    Some((level, text))
}

/// The cells of a table row, split at `|` outside code spans and escapes.
pub fn split_table_row(s: &Vec<char>) -> (parts: Vec<Vec<char>>)
    ensures
        view_lines(parts@) == split_row(s@),
        parts@.len() >= 1,
        join(view_lines(parts@), seq!['|']) == s@,
{
    proof {
        lemma_split_row_join(s@);
    }
    let mut parts: Vec<Vec<char>> = Vec::new();
    let mut cur: Vec<char> = Vec::new();
    let mut escaped = false;
    let mut fence: usize = 0;
    let mut i: usize = 0;
    assert(view_lines(parts@) =~= Seq::<Seq<char>>::empty());
    assert(cur@ =~= Seq::<char>::empty());
    while i < s.len()
        invariant
            i <= s.len(),
            fence <= s.len(),
            split_row_from(s@, i as int, escaped, fence as nat, cur@, view_lines(parts@))
                == split_row(s@),
        decreases s.len() - i,
    {
        let ch = s[i];
        if escaped {
            cur.push(ch);
            escaped = false;
            i = i + 1;
        } else if ch == '\\' {
            cur.push(ch);
            escaped = true;
            i = i + 1;
        } else if ch == '`' {
            let mut run: usize = 1;
            assert(backtick_run(s@, i as int) == 1 + backtick_run(s@, i + 1));
            while i + run < s.len() && s[i + run] == '`'
                invariant
                    i < s.len(),
                    s@[i as int] == '`',
                    1 <= run,
                    i + run <= s.len(),
                    backtick_run(s@, i as int) == run + backtick_run(s@, i + run),
                    forall|k: int| i <= k < i + run ==> s@[k] == '`',
                decreases s.len() - i - run,
            {
                run = run + 1;
            }
            let ghost cur0 = cur@;
            let mut k: usize = 0;
            while k < run
                invariant
                    k <= run,
                    i + run <= s.len(),
                    forall|j: int| i <= j < i + run ==> s@[j] == '`',
                    cur@ == cur0 + s@.subrange(i as int, i + k),
                decreases run - k,
            {
                cur.push('`');
                k = k + 1;
                assert(cur@ =~= cur0 + s@.subrange(i as int, i + k));
            }
            if fence == 0 {
                fence = run;
            } else if fence == run {
                fence = 0;
            }
            i = i + run;
        } else if ch == '|' && fence == 0 {
            let ghost p0 = view_lines(parts@);
            let done = cur;
            let ghost d = done@;
            parts.push(done);
            assert(view_lines(parts@) =~= p0.push(d));
            cur = Vec::new();
            assert(cur@ =~= Seq::<char>::empty());
            i = i + 1;
        } else {
            cur.push(ch);
            i = i + 1;
        }
    }
    let ghost p0 = view_lines(parts@);
    let ghost c0 = cur@;
    parts.push(cur);
    assert(view_lines(parts@) =~= p0.push(c0));
    parts
}

/// A cell with `<br>`, `<br/>` and `<br />` turned into newlines.
pub fn normalize_table_cell_content(cell: &Vec<char>) -> (r: Vec<char>)
    ensures
        r@ == cell_norm(cell@),
{
    let nl = vec!['\n'];
    let p1 = vec!['<', 'b', 'r', '>'];
    let p2 = vec!['<', 'b', 'r', '/', '>'];
    let p3 = vec!['<', 'b', 'r', ' ', '/', '>'];
    assert(nl@ =~= seq!['\n']);
    assert(p1@ =~= seq!['<', 'b', 'r', '>']);
    assert(p2@ =~= seq!['<', 'b', 'r', '/', '>']);
    assert(p3@ =~= seq!['<', 'b', 'r', ' ', '/', '>']);
    let a = replace_all_exec(cell, &p1, &nl);
    let b = replace_all_exec(&a, &p2, &nl);
    replace_all_exec(&b, &p3, &nl)
}

/// The cells of a table row, if `line` is one.
pub fn parse_table_row(line: &Vec<char>) -> (r: Option<Vec<Vec<char>>>)
    ensures
        match r {
            Some(c) => table_row(line@) == Some(view_lines(c@)),
            None => table_row(line@) is None,
        },
{
    if !contains_char_exec(line, '|') {
        return None;
    }
    let raw = split_table_row(line);
    let mut cells: Vec<Vec<char>> = Vec::new();
    let mut k: usize = 0;
    while k < raw.len()
        invariant
            k <= raw.len(),
            view_lines(raw@) == split_row(line@),
            cells.len() == k,
            forall|j: int| 0 <= j < k ==> cells@[j]@ == cell_norm(trim(raw@[j]@)),
        decreases raw.len() - k,
    {
        let t = trimmed(&raw[k], 0, raw[k].len());
        assert(raw@[k as int]@.subrange(0, raw@[k as int]@.len() as int) =~= raw@[k as int]@);
        let c = normalize_table_cell_content(&t);
        cells.push(c);
        k = k + 1;
    }
    let ghost c0 = split_row(line@).map_values(|c: Seq<char>| cell_norm(trim(c)));
    assert(view_lines(cells@) =~= c0);
    let n = line.len();
    let a = trim_start_from(line, 0, n);
    assert(line@.subrange(0, n as int) =~= line@);
    let lead = a < n && line[a] == '|';
    assert(lead == starts_with(trim_start(line@), seq!['|'])) by {
        let x = line@.subrange(a as int, n as int);
        assert(trim_start(line@) == x);
        if a < n {
            assert(x.take(1) =~= seq![line@[a as int]]);
            if line@[a as int] != '|' {
                assert(x.take(1)[0] != seq!['|'][0]);
            }
        }
    }
    if lead && cells.len() > 0 {
        let ghost before = view_lines(cells@);
        cells.remove(0);
        assert(view_lines(cells@) =~= before.drop_first());
    }
    let b = trim_end_from(line, 0, n);
    let trail = b > 0 && line[b - 1] == '|';
    assert(trail == ends_with(trim_end(line@), seq!['|'])) by {
        let x = line@.subrange(0, b as int);
        assert(trim_end(line@) == x);
        if b > 0 {
            assert(x.skip(b - 1) =~= seq![line@[b - 1]]);
            if line@[b - 1] != '|' {
                assert(x.skip(b - 1)[0] != seq!['|'][0]);
            }
        }
    }
    if trail && cells.len() > 0 {
        let ghost before = view_lines(cells@);
        cells.pop();
        assert(view_lines(cells@) =~= before.drop_last());
    }
    if cells.len() == 0 {
        return None;
    }
    Some(cells)
}

/// Number of `c` in `v`.
fn count_char_exec(v: &Vec<char>, c: char) -> (n: usize)
    ensures
        n == count_char(v@, c),
{
    let mut n: usize = 0;
    let mut i: usize = 0;
    while i < v.len()
        invariant
            i <= v.len(),
            n <= i,
            n == count_char(v@.take(i as int), c),
        decreases v.len() - i,
    {
        assert(v@.take(i + 1).drop_last() =~= v@.take(i as int));
        if v[i] == c {
            n = n + 1;
        }
        i = i + 1;
    }
    assert(v@.take(i as int) =~= v@);
    n
}

/// The column alignments of a separator row, if `line` is one.
pub fn parse_table_separator(line: &Vec<char>) -> (r: Option<Vec<TableAlignment>>)
    ensures
        match r {
            Some(a) => table_separator(line@) == Some(a@),
            None => table_separator(line@) is None,
        },
{
    let cells = match parse_table_row(line) {
        Some(c) => c,
        None => {
            return None;
        },
    };
    let ghost cv = view_lines(cells@);
    let mut aligns: Vec<TableAlignment> = Vec::new();
    let mut k: usize = 0;
    while k < cells.len()
        invariant
            k <= cells.len(),
            cv == view_lines(cells@),
            table_row(line@) == Some(cv),
            aligns.len() == k,
            forall|j: int| 0 <= j < k ==> separator_cell(trim(cv[j])),
            forall|j: int| 0 <= j < k ==> aligns@[j] == cell_alignment(trim(cv[j])),
        decreases cells.len() - k,
    {
        let cell = &cells[k];
        let t = trimmed(cell, 0, cell.len());
        assert(cell@.subrange(0, cell@.len() as int) =~= cell@);
        assert(cv[k as int] == cell@);
        if t.len() == 0 {
            assert(!separator_cell(trim(cv[k as int])));
            assert(!(forall|i: int| 0 <= i < cv.len() ==> separator_cell(trim(cv[i]))));
            return None;
        }
        let mut j: usize = 0;
        while j < t.len()
            invariant
                j <= t.len(),
                k < cv.len(),
                t@ == trim(cv[k as int]),
                table_row(line@) == Some(cv),
                forall|q: int| 0 <= q < j ==> (t@[q] == '-' || t@[q] == ':' || t@[q] == ' '),
            decreases t.len() - j,
        {
            if !(t[j] == '-' || t[j] == ':' || t[j] == ' ') {
                assert(!separator_cell(trim(cv[k as int])));
            assert(!(forall|i: int| 0 <= i < cv.len() ==> separator_cell(trim(cv[i]))));
                return None;
            }
            j = j + 1;
        }
        if count_char_exec(&t, '-') < 3 {
            assert(!separator_cell(trim(cv[k as int])));
            assert(!(forall|i: int| 0 <= i < cv.len() ==> separator_cell(trim(cv[i]))));
            return None;
        }
        let l = t[0] == ':';
        let r = t[t.len() - 1] == ':';
        let al = if l && r {
            TableAlignment::Center
        } else if l {
            TableAlignment::Left
        } else if r {
            TableAlignment::Right
        } else {
            TableAlignment::Unaligned
        };
        aligns.push(al);
        k = k + 1;
    }
    assert(aligns@ =~= Seq::new(cv.len(), |i: int| cell_alignment(trim(cv[i]))));
    Some(aligns)
}

/// `cells` padded with empty cells or cut to `n` cells.
pub fn normalize_table_cells(cells: &mut Vec<Vec<char>>, n: usize)
    ensures
        view_lines(final(cells)@) == fit_cells(view_lines(old(cells)@), n as nat),
{
    let ghost c0 = view_lines(cells@);
    if cells.len() < n {
        while cells.len() < n
            invariant
                c0.len() <= cells.len() <= n,
                view_lines(cells@) =~= c0 + Seq::new(
                    (cells.len() - c0.len()) as nat,
                    |i: int| Seq::<char>::empty(),
                ),
            decreases n - cells.len(),
        {
            let ghost before = view_lines(cells@);
            let ghost m = (cells.len() - c0.len()) as nat;
            let e: Vec<char> = Vec::new();
            assert(e@ =~= Seq::<char>::empty());
            cells.push(e);
            assert(view_lines(cells@) =~= before.push(Seq::<char>::empty()));
            assert(Seq::new(m + 1, |i: int| Seq::<char>::empty()) =~= Seq::new(
                m,
                |i: int| Seq::<char>::empty(),
            ).push(Seq::<char>::empty()));
            assert(view_lines(cells@) =~= c0 + Seq::new(
                (cells.len() - c0.len()) as nat,
                |i: int| Seq::<char>::empty(),
            ));
        }
    } else {
        cells.truncate(n);
        assert(view_lines(cells@) =~= c0.take(n as int));
    }
}

/// Whether the trimmed line `t` opens a block of its own: a fence, a
/// formula, a quote, a rule, a header or a table separator.
fn opens_block(t: &Vec<char>) -> (r: bool)
    ensures
        r == (starts_with(t@, seq!['`', '`', '`']) || t@ == seq!['$', '$'] || (starts_with(
            t@,
            seq!['$', '$'],
        ) && ends_with(t@, seq!['$', '$']) && t@.len() > 4) || starts_with(t@, seq!['>'])
            || is_rule(t@) || header(t@) is Some || table_separator(t@) is Some),
{
    let dd = vec!['$', '$'];
    let fence = vec!['`', '`', '`'];
    let gt = vec!['>'];
    assert(dd@ =~= seq!['$', '$']);
    assert(fence@ =~= seq!['`', '`', '`']);
    assert(gt@ =~= seq!['>']);
    let is_dd = t.len() == 2 && t[0] == '$' && t[1] == '$';
    assert(is_dd == (t@ == seq!['$', '$'])) by {
        if t@.len() == 2 && t@[0] == '$' && t@[1] == '$' {
            assert(t@ =~= seq!['$', '$']);
        }
    }
    starts_with_exec(t, &fence) || is_dd || (starts_with_exec(t, &dd) && ends_with_exec(t, &dd)
        && t.len() > 4) || starts_with_exec(t, &gt) || is_horizontal_rule(t) || parse_header(
        t,
    ).is_some() || parse_table_separator(t).is_some()
}

/// Whether `line` is one this reader does not accept as a possible list
/// item: a character that is not ASCII stands where a marker or the space
/// after it would.
pub fn marker_unreadable_exec(line: &Vec<char>) -> (r: bool)
    requires
        line_fits(line@),
    ensures
        r == marker_unreadable(line@),
{
    let (_, p) = indent_prefix(line);
    let n = line.len();
    if n - p > 0 && (line[p] as u32) >= 128 {
        return true;
    }
    if n - p >= 2 && (line[p] == '-' || line[p] == '*' || line[p] == '+') && char_is_ws(line[p + 1])
        && (line[p + 1] as u32) >= 128 {
        return true;
    }
    let d = digits_from(line, p);
    d > 0 && p + d + 1 < n && (line[p + d] == '.' || line[p + d] == ')') && char_is_ws(
        line[p + d + 1],
    ) && (line[p + d + 1] as u32) >= 128
}

/// What looking for a list marker on `line` gives: `None` on a line this
/// reader does not accept.
pub fn list_marker_step(line: &Vec<char>) -> (r: Option<Option<ListMarker>>)
    requires
        line_fits(line@),
    ensures
        match r {
            Some(m) => marker_step(line@) == Some(opt_marker_view(m)),
            None => marker_step(line@) is None,
        },
{
    if marker_unreadable_exec(line) {
        None
    } else {
        Some(parse_list_marker(line))
    }
}

/// Whether `line` ends the paragraph or table before it; `None` on a line
/// this reader does not accept.
pub fn block_start_step(line: &Vec<char>) -> (r: Option<bool>)
    requires
        line_fits(line@),
    ensures
        r == block_start(line@),
{
    let t = trimmed(line, 0, line.len());
    assert(line@.subrange(0, line@.len() as int) =~= line@);
    if t.len() == 0 || opens_block(&t) {
        return Some(true);
    }
    match list_marker_step(line) {
        None => None,
        Some(m) => Some(m.is_some()),
    }
}

/// Whether `line` ends the paragraph or table before it.
pub fn is_block_start(line: &Vec<char>) -> (r: bool)
    requires
        line_fits(line@),
        block_start(line@) is Some,
    ensures
        block_start(line@) == Some(r),
{
    let t = trimmed(line, 0, line.len());
    assert(line@.subrange(0, line@.len() as int) =~= line@);
    if t.len() == 0 || opens_block(&t) {
        return true;
    }
    parse_list_marker(line).is_some()
}


/// A separator row reads each column's alignment from the colons at the two
/// ends of its cell: a colon at both ends centres the column, one at the
/// left end alone aligns it left, one at the right end alone aligns it right,
/// and none leaves it unaligned. A row is a separator row exactly when each
/// of its cells is made of `-`, `:` and spaces with at least three `-`.
pub proof fn lemma_separator_alignment(line: Seq<char>)
    ensures
        table_separator(line) is Some <==> (table_row(line) is Some && forall|i: int|
            0 <= i < table_row(line)->0.len() ==> {
                let c = #[trigger] trim(table_row(line)->0[i]);
                &&& c.len() > 0
                &&& forall|j: int| 0 <= j < c.len() ==> (c[j] == '-' || c[j] == ':' || c[j] == ' ')
                &&& count_char(c, '-') >= 3
            }),
        table_separator(line) matches Some(al) ==> {
            &&& al.len() == table_row(line)->0.len()
            &&& forall|i: int| 0 <= i < al.len() ==> {
                let c = #[trigger] trim(table_row(line)->0[i]);
                &&& (al[i] == TableAlignment::Center) == (c[0] == ':' && c.last() == ':')
                &&& (al[i] == TableAlignment::Left) == (c[0] == ':' && c.last() != ':')
                &&& (al[i] == TableAlignment::Right) == (c[0] != ':' && c.last() == ':')
                &&& (al[i] == TableAlignment::Unaligned) == (c[0] != ':' && c.last() != ':')
            }
        },
{
    if let Some(cells) = table_row(line) {
        if forall|i: int| 0 <= i < cells.len() ==> separator_cell(trim(cells[i])) {
            let al = Seq::new(cells.len(), |i: int| cell_alignment(trim(cells[i])));
            assert forall|i: int| 0 <= i < al.len() implies {
                let c = #[trigger] trim(cells[i]);
                &&& (al[i] == TableAlignment::Center) == (c[0] == ':' && c.last() == ':')
                &&& (al[i] == TableAlignment::Left) == (c[0] == ':' && c.last() != ':')
                &&& (al[i] == TableAlignment::Right) == (c[0] != ':' && c.last() == ':')
                &&& (al[i] == TableAlignment::Unaligned) == (c[0] != ':' && c.last() != ':')
            } by {
                assert(separator_cell(trim(cells[i])));
            }
        }
    }
}

} // verus!
