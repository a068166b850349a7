//! Session file names: `<mode>_<timestamp>_<title>.json`, and the session IDs
//! that are those names without the extension.

use vstd::prelude::*;
use crate::history::ChatHistory;
use crate::types::ChatMode;
use crate::text::{
    char_is_ws, chars_eq, chars_of, concat, ends_with, ends_with_exec, index_of, is_ascii_digit,
    is_ws, join, join_range, lemma_index_of_first, lemma_index_of_some, lemma_split_char_pieces,
    parse_u64, parse_u64_exec, slice_of, split_char, split_char_exec, string_of,
    view_lines,
};

verus! {

/// A character that file systems refuse in a name: `/ \ : * ? " < > |`.
pub open spec fn is_reserved(c: char) -> bool {
    c == '/' || c == '\\' || c == ':' || c == '*' || c == '?' || c == '"' || c == '<' || c == '>'
        || c == '|'
}

/// What a title character becomes in a file name.
pub open spec fn file_char(c: char) -> char {
    if is_reserved(c) || is_ws(c) {
        '_'
    } else {
        c
    }
}

pub open spec fn file_chars(s: Seq<char>) -> Seq<char> {
    s.map_values(|c: char| file_char(c))
}

/// The first 100 characters of `m`, or all of `m` when it is shorter.
pub open spec fn cut_chars(m: Seq<char>) -> Seq<char> {
    if m.len() > 100 {
        m.take(100)
    } else {
        m
    }
}

/// `s` without the copies of `c` at its end (`str::trim_end_matches`).
pub open spec fn trim_end_char(s: Seq<char>, c: char) -> Seq<char>
    decreases s.len(),
{
    if s.len() > 0 && s.last() == c {
        trim_end_char(s.drop_last(), c)
    } else {
        s
    }
}

/// The title as it stands in a file name.
pub open spec fn sanitized(title: Seq<char>) -> Seq<char> {
    let r = trim_end_char(cut_chars(file_chars(title)), '_');
    if r.len() == 0 {
        "New_Chat"@
    } else {
        r
    }
}

proof fn lemma_trim_end_char(s: Seq<char>, c: char)
    ensures
        exists|j: int| 0 <= j <= s.len() && trim_end_char(s, c) == s.take(j),
        trim_end_char(s, c).len() > 0 ==> trim_end_char(s, c).last() != c,
    decreases s.len(),
{
    if s.len() > 0 && s.last() == c {
        lemma_trim_end_char(s.drop_last(), c);
        let j = choose|j: int| 0 <= j <= s.drop_last().len() && trim_end_char(s.drop_last(), c) == s.drop_last().take(j);
        assert(s.drop_last().take(j) =~= s.take(j));
    } else {
        assert(s.take(s.len() as int) =~= s);
    }
}

/// A sanitized title is never empty, holds no reserved character and no
/// white space, does not end with `_`, and has at most 100 characters.
pub proof fn lemma_sanitized(title: Seq<char>)
    ensures
        sanitized(title).len() > 0,
        forall|i: int|
            0 <= i < sanitized(title).len() ==> !is_reserved(#[trigger] sanitized(title)[i]) && !is_ws(
                sanitized(title)[i],
            ),
        sanitized(title).last() != '_',
        sanitized(title).len() <= 100,
{
    let m = file_chars(title);
    let cut = cut_chars(m);
    assert(m.take(m.len() as int) =~= m);
    let j1: int = if m.len() > 100 { 100 } else { m.len() as int };
    assert(cut == m.take(j1));
    lemma_trim_end_char(cut, '_');
    let r = trim_end_char(cut, '_');
    let j2 = choose|j: int| 0 <= j <= cut.len() && r == cut.take(j);
    if r.len() == 0 {
        reveal_strlit("New_Chat");
    } else {
        assert forall|i: int| 0 <= i < r.len() implies !is_reserved(#[trigger] r[i]) && !is_ws(r[i]) by {
            assert(r[i] == m[i]);
            assert(m[i] == file_char(title[i]));
        }
    }
}

/// The name of a mode in file names.
pub open spec fn mode_tag(m: ChatMode) -> Seq<char> {
    match m {
        ChatMode::Standard => "standard"@,
        ChatMode::PvP => "pvp"@,
        ChatMode::Collaborative => "collaborative"@,
        ChatMode::Competitive => "competitive"@,
        ChatMode::LLMChoice => "llm_choice"@,
    }
}

/// The session ID of a chat: `<mode>_<timestamp>_<sanitized title>`.
pub open spec fn session_id_of(m: ChatMode, timestamp: Seq<char>, title: Seq<char>) -> Seq<char> {
    mode_tag(m) + seq!['_'] + timestamp + seq!['_'] + sanitized(title)
}

/// The file a session is saved in: its ID and `.json`.
pub open spec fn file_name_of(m: ChatMode, timestamp: Seq<char>, title: Seq<char>) -> Seq<char> {
    session_id_of(m, timestamp, title) + ".json"@
}

/// `f` without a final `.json`, if it has one.
pub open spec fn strip_json(f: Seq<char>) -> Seq<char> {
    if ends_with(f, ".json"@) {
        f.take(f.len() - 5)
    } else {
        f
    }
}

/// The mode that a one-word tag names.
pub open spec fn mode_of_tag(t: Seq<char>) -> Option<ChatMode> {
    if t == "standard"@ {
        Some(ChatMode::Standard)
    } else if t == "pvp"@ {
        Some(ChatMode::PvP)
    } else if t == "collaborative"@ {
        Some(ChatMode::Collaborative)
    } else if t == "competitive"@ {
        Some(ChatMode::Competitive)
    } else {
        None
    }
}

/// The timestamp at `parts[idx]`, which must read as a `u64`, and the title
/// that the parts after it make, joined again by `_`.
pub open spec fn name_fields(m: ChatMode, parts: Seq<Seq<char>>, idx: int) -> Option<
    (ChatMode, Seq<char>, Seq<char>),
> {
    if parse_u64(parts[idx]) is Some {
        Some((m, parts[idx], join(parts.skip(idx + 1), seq!['_'])))
    } else {
        None
    }
}

/// The mode, timestamp and title that a session file name holds.
pub open spec fn parse_name(f: Seq<char>) -> Option<(ChatMode, Seq<char>, Seq<char>)> {
    let parts = split_char(strip_json(f), '_');
    if parts.len() < 3 {
        None
    } else if parts[0] == "llm"@ && parts[1] == "choice"@ {
        name_fields(ChatMode::LLMChoice, parts, 2)
    } else {
        match mode_of_tag(parts[0]) {
            Some(m) => name_fields(m, parts, 1),
            None => None,
        }
    }
}

/// The timestamp that a session file name holds.
pub open spec fn name_timestamp(f: Seq<char>) -> Option<Seq<char>> {
    match parse_name(f) {
        Some((_, ts, _)) => Some(ts),
        None => None,
    }
}

proof fn lemma_join_prepend(x: Seq<char>, rest: Seq<Seq<char>>, sep: Seq<char>)
    requires
        rest.len() >= 1,
    ensures
        join(seq![x] + rest, sep) == x + sep + join(rest, sep),
    decreases rest.len(),
{
    let all = seq![x] + rest;
    assert(all.drop_last() =~= seq![x] + rest.drop_last());
    if rest.len() == 1 {
        assert(seq![x].len() == 1);
        assert(join(seq![x], sep) == x);
        assert(rest.drop_last().len() == 0);
    } else {
        lemma_join_prepend(x, rest.drop_last(), sep);
        assert(x + sep + join(rest.drop_last(), sep) + sep + rest.last() =~= x + sep + (join(
            rest.drop_last(),
            sep,
        ) + sep + rest.last()));
    }
}

/// Splitting at `c` and joining with `c` gives the text back.
pub proof fn lemma_join_split(s: Seq<char>, c: char)
    ensures
        join(split_char(s, c), seq![c]) == s,
    decreases s.len(),
{
    lemma_index_of_some(s, c);
    match index_of(s, c) {
        None => {},
        Some(i) => {
            let rest = s.skip(i + 1 as int);
            lemma_join_split(rest, c);
            lemma_split_char_pieces(rest, c);
            lemma_join_prepend(s.take(i as int), split_char(rest, c), seq![c]);
            assert(s.take(i as int) + seq![c] + rest =~= s);
        },
    }
}

/// Splitting `a`, `c`, `b` at `c`, where `a` holds no `c`, gives `a` and the
/// pieces of `b`.
proof fn lemma_split_first(a: Seq<char>, b: Seq<char>, c: char)
    requires
        forall|k: int| 0 <= k < a.len() ==> a[k] != c,
    ensures
        split_char(a + seq![c] + b, c) == seq![a] + split_char(b, c),
{
    let s = a + seq![c] + b;
    assert forall|k: int| 0 <= k < a.len() implies s[k] != c by {
        assert(s[k] == a[k]);
    }
    lemma_index_of_first(s, c, a.len() as int);
    assert(s.take(a.len() as int) =~= a);
    assert(s.skip(a.len() + 1 as int) =~= b);
}

proof fn lemma_strip_json(id: Seq<char>)
    ensures
        strip_json(id + ".json"@) == id,
{
    reveal_strlit(".json");
    let f = id + ".json"@;
    assert(f.skip(f.len() - 5) =~= ".json"@);
    assert(f.take(f.len() - 5) =~= id);
}

proof fn lemma_no_sep_in_number(ts: Seq<char>)
    requires
        parse_u64(ts) is Some,
    ensures
        forall|k: int| 0 <= k < ts.len() ==> ts[k] != '_',
{
    let d = if ts.len() > 0 && ts[0] == '+' {
        ts.drop_first()
    } else {
        ts
    };
    assert forall|k: int| 0 <= k < ts.len() implies ts[k] != '_' by {
        if ts.len() > 0 && ts[0] == '+' {
            if k > 0 {
                assert(ts[k] == d[k - 1]);
                assert(is_ascii_digit(d[k - 1]));
            }
        } else {
            assert(is_ascii_digit(d[k]));
        }
    }
}

/// A session file name reads back as the mode, timestamp and sanitized title
/// it was made from, whenever the timestamp reads as a `u64`.
pub proof fn lemma_parse_file_name(m: ChatMode, timestamp: Seq<char>, title: Seq<char>)
    requires
        parse_u64(timestamp) is Some,
    ensures
        parse_name(file_name_of(m, timestamp, title)) == Some((m, timestamp, sanitized(title))),
{
    let san = sanitized(title);
    let id = session_id_of(m, timestamp, title);
    lemma_strip_json(id);
    lemma_no_sep_in_number(timestamp);
    lemma_split_first(timestamp, san, '_');
    lemma_split_char_pieces(san, '_');
    lemma_join_split(san, '_');
    let after = timestamp + seq!['_'] + san;
    let tail = split_char(after, '_');
    reveal_strlit("standard");
    reveal_strlit("pvp");
    reveal_strlit("collaborative");
    reveal_strlit("competitive");
    reveal_strlit("llm_choice");
    reveal_strlit("llm");
    reveal_strlit("choice");
    if m == ChatMode::LLMChoice {
        assert(id =~= "llm"@ + seq!['_'] + ("choice"@ + seq!['_'] + after));
        lemma_split_first("llm"@, "choice"@ + seq!['_'] + after, '_');
        lemma_split_first("choice"@, after, '_');
        let parts = split_char(id, '_');
        assert(parts =~= seq!["llm"@, "choice"@] + tail);
        assert(parts.skip(3) =~= split_char(san, '_'));
    } else {
        let tag = mode_tag(m);
        assert(id =~= tag + seq!['_'] + after);
        lemma_split_first(tag, after, '_');
        let parts = split_char(id, '_');
        assert(parts =~= seq![tag] + tail);
        assert(parts[0] != "llm"@);
        assert(parts.skip(2) =~= split_char(san, '_'));
    }
}

/// The timestamp read back from a generated session ID is the one it was
/// made with, whenever that timestamp reads as a `u64`.
pub proof fn lemma_session_id_timestamp(m: ChatMode, timestamp: Seq<char>, title: Seq<char>)
    requires
        parse_u64(timestamp) is Some,
    ensures
        name_timestamp(session_id_of(m, timestamp, title) + ".json"@) == Some(timestamp),
{
    lemma_parse_file_name(m, timestamp, title);
}

/// The file's name for a mode.
fn mode_tag_str(m: ChatMode) -> (r: &'static str)
    ensures
        r@ == mode_tag(m),
{
    match m {
        ChatMode::Standard => "standard",
        ChatMode::PvP => "pvp",
        ChatMode::Collaborative => "collaborative",
        ChatMode::Competitive => "competitive",
        ChatMode::LLMChoice => "llm_choice",
    }
}

fn file_char_exec(c: char) -> (r: char)
    ensures
        r == file_char(c),
{
    if c == '/' || c == '\\' || c == ':' || c == '*' || c == '?' || c == '"' || c == '<' || c
        == '>' || c == '|' || char_is_ws(c) {
        '_'
    } else {
        c
    }
}

impl ChatHistory {
    /// The title made fit for a file name: reserved characters and white
    /// space become `_`, the text stops at 100 characters, trailing `_` go,
    /// and an empty result becomes `New_Chat`.
    pub fn sanitize_filename(title: &str) -> (r: String)
        ensures
            r@ == sanitized(title@),
            r@.len() > 0,
            forall|i: int| 0 <= i < r@.len() ==> !is_reserved(#[trigger] r@[i]) && !is_ws(r@[i]),
            r@.last() != '_',
            r@.len() <= 100,
    {
        proof {
            lemma_sanitized(title@);
        }
        let cs = chars_of(title);
        let ghost m = file_chars(cs@);
        let mut out: Vec<char> = Vec::new();
        let mut i: usize = 0;
        assert(m.take(0) =~= out@);
        while i < cs.len() && i < 100
            invariant
                i <= cs.len(),
                i <= 100,
                m == file_chars(cs@),
                out@ == m.take(i as int),
            decreases cs.len() - i,
        {
            let c = file_char_exec(cs[i]);
            assert(m.take(i + 1) =~= m.take(i as int).push(c));
            out.push(c);
            i = i + 1;
        }
        assert(m.take(m.len() as int) =~= m);
        assert(out@ == cut_chars(m));
        while out.len() > 0 && out[out.len() - 1] == '_'
            invariant
                trim_end_char(out@, '_') == trim_end_char(cut_chars(m), '_'),
            decreases out.len(),
        {
            let ghost before = out@;
            out.pop();
            assert(out@ =~= before.drop_last());
        }
        if out.len() == 0 {
            "New_Chat".to_owned()
        } else {
            string_of(&out)
        }
    }

    /// The file name of a session: `<mode>_<timestamp>_<sanitized title>.json`.
    pub fn generate_filename(mode: ChatMode, timestamp: &str, title: &str) -> (r: String)
        ensures
            r@ == file_name_of(mode, timestamp@, title@),
    {
        let v = Self::filename_chars(mode, timestamp, title);
        string_of(&v)
    }

    fn filename_chars(mode: ChatMode, timestamp: &str, title: &str) -> (r: Vec<char>)
        ensures
            r@ == file_name_of(mode, timestamp@, title@),
    {
        let sep = vec!['_'];
        let tag = chars_of(mode_tag_str(mode));
        let ts = chars_of(timestamp);
        let san = Self::sanitize_filename(title);
        let san = chars_of(san.as_str());
        let r = concat(&tag, &sep);
        let r = concat(&r, &ts);
        let r = concat(&r, &sep);
        let r = concat(&r, &san);
        let r = concat(&r, &chars_of(".json"));
        r
    }

    /// What a session file name holds: its mode, its timestamp, which must
    /// read as a `u64`, and its title; `None` when the name has another shape.
    pub fn parse_filename(filename: &str) -> (r: Option<(ChatMode, String, String)>)
        ensures
            match r {
                Some((m, ts, title)) => parse_name(filename@) == Some((m, ts@, title@)),
                None => parse_name(filename@) is None,
            },
    {
        let cs = chars_of(filename);
        let ext = chars_of(".json");
        let stem = if ends_with_exec(&cs, &ext) {
            proof {
                reveal_strlit(".json");
            }
            slice_of(&cs, 0, cs.len() - 5)
        } else {
            slice_of(&cs, 0, cs.len())
        };
        assert(stem@ =~= strip_json(filename@));
        let parts = split_char_exec(&stem, '_');
        let ghost sp = split_char(strip_json(filename@), '_');
        assert(view_lines(parts@) == sp);
        if parts.len() < 3 {
            return None;
        }
        assert(parts[0]@ == sp[0]);
        assert(parts[1]@ == sp[1]);
        let mode;
        let idx: usize;
        if chars_eq(&parts[0], &chars_of("llm")) && chars_eq(&parts[1], &chars_of("choice")) {
            mode = ChatMode::LLMChoice;
            idx = 2;
        } else if chars_eq(&parts[0], &chars_of("standard")) {
            mode = ChatMode::Standard;
            idx = 1;
        } else if chars_eq(&parts[0], &chars_of("pvp")) {
            mode = ChatMode::PvP;
            idx = 1;
        } else if chars_eq(&parts[0], &chars_of("collaborative")) {
            mode = ChatMode::Collaborative;
            idx = 1;
        } else if chars_eq(&parts[0], &chars_of("competitive")) {
            mode = ChatMode::Competitive;
            idx = 1;
        } else {
            return None;
        }
        assert(parts[idx as int]@ == sp[idx as int]);
        if parse_u64_exec(&parts[idx]).is_none() {
            return None;
        }
        let sep = vec!['_'];
        assert(sep@ =~= seq!['_']);
        let title = join_range(&parts, idx + 1, parts.len(), &sep);
        assert(view_lines(parts@).subrange(idx + 1, parts.len() as int) =~= sp.skip(idx + 1));
        Some((mode, string_of(&parts[idx]), string_of(&title)))
    }

    /// The timestamp segment of a session ID, if the ID has the shape of a
    /// session file name without its extension.
    pub fn session_timestamp_from_id(session_id: &str) -> (r: Option<String>)
        ensures
            match r {
                Some(ts) => name_timestamp(session_id@ + ".json"@) == Some(ts@),
                None => name_timestamp(session_id@ + ".json"@) is None,
            },
    {
        let name = string_of(&concat(&chars_of(session_id), &chars_of(".json")));
        match Self::parse_filename(name.as_str()) {
            Some((_, ts, _)) => Some(ts),
            None => None,
        }
    }

    /// The ID of a session: its file name without `.json`.
    pub fn generate_session_id(mode: ChatMode, timestamp: &str, title: &str) -> (r: String)
        ensures
            r@ == session_id_of(mode, timestamp@, title@),
    {
        let f = Self::filename_chars(mode, timestamp, title);
        let ext = chars_of(".json");
        proof {
            reveal_strlit(".json");
            lemma_strip_json(session_id_of(mode, timestamp@, title@));
        }
        if ends_with_exec(&f, &ext) {
            string_of(&slice_of(&f, 0, f.len() - 5))
        } else {
            string_of(&f)
        }
    }
}

} // verus!
