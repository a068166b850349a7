//! The saved history of a chat, per mode, and what is derived from it.

use vstd::prelude::*;
use crate::types::{ChatMode, ChatSession};
use crate::text::{
    char_len, char_utf8_len, chars_of, concat, lemma_utf8_len_prefix, lemma_utf8_len_step, slice_of,
    string_of, trim, trim_range, utf8_len,
};

verus! {

/// The full conversation history of a chat session.
#[derive(Debug, Clone, PartialEq)]
pub enum ChatHistory {
    Standard(StandardHistory),
    PvP(PvPHistory),
    Collaborative(CollaborativeHistory),
    Competitive(CompetitiveHistory),
    LLMChoice(LLMChoiceHistory),
}

#[derive(Debug, Clone, PartialEq)]
pub struct StandardHistory {
    pub user_messages: Vec<String>,
    pub model_responses: Vec<Vec<ModelResponse>>,
    pub selected_models: Vec<String>,
    pub system_prompt: String,
    pub conversation_history: ConversationHistory,
}

#[derive(Debug, Clone, PartialEq)]
pub struct ModelResponse {
    pub model_id: String,
    pub content: String,
    pub error_message: Option<String>,
}

/// The conversations the standard mode keeps: one shared by a single model,
/// and one per model when several answer, each listed once by model ID.
#[derive(Debug, Clone, PartialEq)]
pub struct ConversationHistory {
    pub single_model: Vec<(String, String)>,
    pub multi_model: Vec<(String, Vec<(String, String)>)>,
}

#[derive(Debug, Clone, PartialEq)]
pub struct PvPHistory {
    pub rounds: Vec<ConversationRound>,
    pub bot_models: Vec<String>,
    pub moderator_model: Option<String>,
    pub system_prompts: SystemPrompts,
}

#[derive(Debug, Clone, PartialEq)]
pub struct ConversationRound {
    pub user_message: String,
    pub bot1_response: BotResponse,
    pub bot2_response: BotResponse,
    pub moderator_judgment: Option<ModeratorResponse>,
}

#[derive(Debug, Clone, PartialEq)]
pub struct BotResponse {
    pub model_id: String,
    pub content: String,
    pub error_message: Option<String>,
}

#[derive(Debug, Clone, PartialEq)]
pub struct ModeratorResponse {
    pub content: String,
    pub error_message: Option<String>,
}

#[derive(Debug, Clone, PartialEq)]
pub struct SystemPrompts {
    pub bot: String,
    pub moderator: String,
}

#[derive(Debug, Clone, PartialEq)]
pub struct CollaborativeHistory {
    pub rounds: Vec<CollaborativeRound>,
    pub selected_models: Vec<String>,
    pub system_prompt: String,
}

#[derive(Debug, Clone, PartialEq)]
pub struct CollaborativeRound {
    pub user_message: String,
    pub model_responses: Vec<ModelResponse>,
    pub final_consensus: Option<String>,
}

#[derive(Debug, Clone, PartialEq)]
pub struct CompetitiveHistory {
    pub rounds: Vec<CompetitiveRound>,
    pub selected_models: Vec<String>,
    pub prompt_templates: PromptTemplates,
}

#[derive(Debug, Clone, PartialEq)]
pub struct CompetitiveRound {
    pub user_question: String,
    pub phase1_proposals: Vec<ModelProposal>,
    pub phase2_votes: Vec<ModelVote>,
    pub vote_tallies: Vec<VoteTally>,
    pub winners: Vec<String>,
    /// "proposal", "voting", "tallying" or "complete".
    pub current_phase: String,
}

#[derive(Debug, Clone, PartialEq)]
pub struct ModelProposal {
    pub model_id: String,
    pub content: String,
    pub error_message: Option<String>,
}

#[derive(Debug, Clone, PartialEq)]
pub struct ModelVote {
    pub voter_id: String,
    pub voted_for: Option<String>,
    pub raw_response: String,
    pub error_message: Option<String>,
}

#[derive(Debug, Clone, PartialEq)]
pub struct VoteTally {
    pub model_id: String,
    pub vote_count: usize,
    pub voters: Vec<String>,
}

/// The prompts of the competitive mode.
#[derive(Debug, Clone, PartialEq)]
pub struct PromptTemplates {
    pub proposal: String,
    pub voting: String,
}

#[derive(Debug, Clone, PartialEq)]
pub struct LLMChoiceHistory {
    pub rounds: Vec<LLMChoiceRound>,
    pub selected_models: Vec<String>,
}

#[derive(Debug, Clone, PartialEq)]
pub struct LLMChoiceRound {
    pub user_message: String,
    /// "collaborate" or "compete".
    pub decision: String,
    pub content: Option<String>,
}

/// A saved session: its listing entry, its history and its dates.
#[derive(Debug, Clone, PartialEq)]
pub struct SessionData {
    pub session: ChatSession,
    pub history: ChatHistory,
    pub created_at: String,
    pub updated_at: String,
}

/// The mode a history belongs to.
pub open spec fn history_mode(h: ChatHistory) -> ChatMode {
    match h {
        ChatHistory::Standard(_) => ChatMode::Standard,
        ChatHistory::PvP(_) => ChatMode::PvP,
        ChatHistory::Collaborative(_) => ChatMode::Collaborative,
        ChatHistory::Competitive(_) => ChatMode::Competitive,
        ChatHistory::LLMChoice(_) => ChatMode::LLMChoice,
    }
}

/// A history with nothing in it: no messages, rounds, models or prompts.
pub open spec fn history_is_empty(h: ChatHistory) -> bool {
    match h {
        ChatHistory::Standard(s) => {
            &&& s.user_messages@.len() == 0
            &&& s.model_responses@.len() == 0
            &&& s.selected_models@.len() == 0
            &&& s.system_prompt@.len() == 0
            &&& s.conversation_history.single_model@.len() == 0
            &&& s.conversation_history.multi_model@.len() == 0
        },
        ChatHistory::PvP(p) => {
            &&& p.rounds@.len() == 0
            &&& p.bot_models@.len() == 0
            &&& p.moderator_model is None
            &&& p.system_prompts.bot@.len() == 0
            &&& p.system_prompts.moderator@.len() == 0
        },
        ChatHistory::Collaborative(c) => {
            &&& c.rounds@.len() == 0
            &&& c.selected_models@.len() == 0
            &&& c.system_prompt@.len() == 0
        },
        ChatHistory::Competitive(c) => {
            &&& c.rounds@.len() == 0
            &&& c.selected_models@.len() == 0
            &&& c.prompt_templates.proposal@.len() == 0
            &&& c.prompt_templates.voting@.len() == 0
        },
        ChatHistory::LLMChoice(l) => {
            &&& l.rounds@.len() == 0
            &&& l.selected_models@.len() == 0
        },
    }
}

/// The first thing the user asked in a history, if anything.
pub open spec fn first_message(h: ChatHistory) -> Option<Seq<char>> {
    match h {
        ChatHistory::Standard(s) => if s.user_messages@.len() > 0 {
            Some(s.user_messages@[0]@)
        } else {
            None
        },
        ChatHistory::PvP(p) => if p.rounds@.len() > 0 {
            Some(p.rounds@[0].user_message@)
        } else {
            None
        },
        ChatHistory::Collaborative(c) => if c.rounds@.len() > 0 {
            Some(c.rounds@[0].user_message@)
        } else {
            None
        },
        ChatHistory::Competitive(c) => if c.rounds@.len() > 0 {
            Some(c.rounds@[0].user_question@)
        } else {
            None
        },
        ChatHistory::LLMChoice(l) => if l.rounds@.len() > 0 {
            Some(l.rounds@[0].user_message@)
        } else {
            None
        },
    }
}

/// How many leading characters of `s` fit in `n` bytes.
pub open spec fn chars_within(s: Seq<char>, n: int) -> nat
    decreases s.len(),
{
    if s.len() == 0 || char_utf8_len(s[0]) > n {
        0
    } else {
        1 + chars_within(s.drop_first(), n - char_utf8_len(s[0]))
    }
}

/// Byte `n` of `s` falls between two characters.
pub open spec fn byte_boundary(s: Seq<char>, n: int) -> bool {
    utf8_len(s.take(chars_within(s, n) as int)) == n
}

/// The last position of `c` in `s`.
pub open spec fn last_index_of(s: Seq<char>, c: char) -> Option<nat>
    decreases s.len(),
{
    if s.len() == 0 {
        None
    } else if s.last() == c {
        Some((s.len() - 1) as nat)
    } else {
        last_index_of(s.drop_last(), c)
    }
}

/// A message shortened for a chat's title: trimmed, and when longer than 60
/// bytes, cut at the last space of its first 60 bytes (or at byte 60 when
/// there is none) and ended with `...`.
pub open spec fn summary_of(msg: Seq<char>) -> Seq<char> {
    let t = trim(msg);
    if utf8_len(t) <= 60 {
        t
    } else {
        let cut = t.take(chars_within(t, 60) as int);
        match last_index_of(cut, ' ') {
            Some(j) => t.take(j as int) + "..."@,
            None => cut + "..."@,
        }
    }
}

/// The title of a chat: its first message shortened, or `New Chat`.
pub open spec fn chat_summary(h: ChatHistory) -> Seq<char> {
    match first_message(h) {
        Some(m) => summary_of(m),
        None => "New Chat"@,
    }
}

/// The first message can be cut at byte 60, where it has to be.
pub open spec fn summary_cut_ok(h: ChatHistory) -> bool {
    match first_message(h) {
        Some(m) => utf8_len(trim(m)) <= 60 || byte_boundary(trim(m), 60),
        None => true,
    }
}

proof fn lemma_last_index_of(s: Seq<char>, c: char)
    ensures
        match last_index_of(s, c) {
            Some(j) => j < s.len() && s[j as int] == c && forall|k: int| j < k < s.len() ==> s[k] != c,
            None => forall|k: int| 0 <= k < s.len() ==> s[k] != c,
        },
    decreases s.len(),
{
    if s.len() > 0 && s.last() != c {
        let d = s.drop_last();
        lemma_last_index_of(d, c);
        assert forall|k: int| 0 <= k < d.len() implies s[k] == d[k] by {}
    }
}

/// The last position of `c` in `v[..n]`.
fn last_index_exec(v: &Vec<char>, n: usize, c: char) -> (r: Option<usize>)
    requires
        n <= v.len(),
    ensures
        r == match last_index_of(v@.take(n as int), c) {
            Some(j) => Some(j as usize),
            None => None::<usize>,
        },
{
    let mut i = n;
    while i > 0
        invariant
            i <= n <= v.len(),
            last_index_of(v@.take(n as int), c) == last_index_of(v@.take(i as int), c),
        decreases i,
    {
        assert(v@.take(i as int).drop_last() =~= v@.take(i - 1));
        if v[i - 1] == c {
            return Some(i - 1);
        }
        i = i - 1;
    }
    None
}

/// The trimmed message, how many of its characters fit in 60 bytes, and
/// their bytes.
fn fit_sixty(msg: &str) -> (r: (Vec<char>, usize, usize))
    ensures
        r.0@ == trim(msg@),
        r.1 == chars_within(trim(msg@), 60),
        r.2 == utf8_len(trim(msg@).take(r.1 as int)),
        r.2 <= 60,
        r.1 <= r.0.len(),
        (r.1 == r.0.len()) == (utf8_len(trim(msg@)) <= 60),
{
    let cs = chars_of(msg);
    let (lo, hi) = trim_range(&cs, 0, cs.len());
    assert(cs@.subrange(0, cs@.len() as int) =~= cs@);
    let t = slice_of(&cs, lo, hi);
    let ghost ts = trim(msg@);
    let mut i: usize = 0;
    let mut bytes: usize = 0;
    assert(t@.skip(0) =~= t@);
    assert(t@.take(0) =~= Seq::<char>::empty());
    while i < t.len() && bytes + char_len(t[i]) <= 60
        invariant
            i <= t.len(),
            t@ == ts,
            bytes <= 60,
            bytes == utf8_len(t@.take(i as int)),
            chars_within(ts, 60) == i + chars_within(ts.skip(i as int), 60 - bytes),
        decreases t.len() - i,
    {
        proof {
            lemma_utf8_len_step(ts, i as int);
            assert(ts.skip(i as int).drop_first() =~= ts.skip(i + 1));
        }
        bytes = bytes + char_len(t[i]);
        i = i + 1;
    }
    if i == t.len() {
        assert(t@.take(i as int) =~= t@);
    } else {
        proof {
            lemma_utf8_len_step(ts, i as int);
            lemma_utf8_len_prefix(ts, i + 1);
        }
    }
    (t, i, bytes)
}

/// `msg` shortened for a chat's title.
fn summarize(msg: &str) -> (r: String)
    requires
        utf8_len(trim(msg@)) <= 60 || byte_boundary(trim(msg@), 60),
    ensures
        r@ == summary_of(msg@),
{
    let (t, i, _) = fit_sixty(msg);
    if i == t.len() {
        return string_of(&t);
    }
    let dots = chars_of("...");
    match last_index_exec(&t, i, ' ') {
        Some(j) => {
            proof {
                lemma_last_index_of(trim(msg@).take(i as int), ' ');
            }
            string_of(&concat(&slice_of(&t, 0, j), &dots))
        },
        None => string_of(&concat(&slice_of(&t, 0, i), &dots)),
    }
}

/// The first thing the user asked in a history, if anything.
fn first_message_of(history: &ChatHistory) -> (r: Option<&String>)
    ensures
        match r {
            Some(m) => first_message(*history) == Some(m@),
            None => first_message(*history) is None,
        },
{
    match history {
        ChatHistory::Standard(h) => if h.user_messages.len() > 0 {
            Some(&h.user_messages[0])
        } else {
            None
        },
        ChatHistory::PvP(h) => if h.rounds.len() > 0 {
            Some(&h.rounds[0].user_message)
        } else {
            None
        },
        ChatHistory::Collaborative(h) => if h.rounds.len() > 0 {
            Some(&h.rounds[0].user_message)
        } else {
            None
        },
        ChatHistory::Competitive(h) => if h.rounds.len() > 0 {
            Some(&h.rounds[0].user_question)
        } else {
            None
        },
        ChatHistory::LLMChoice(h) => if h.rounds.len() > 0 {
            Some(&h.rounds[0].user_message)
        } else {
            None
        },
    }
}

impl ChatHistory {
    /// Whether a title can be made for the chat: its first message, trimmed,
    /// fits in 60 bytes or can be cut at byte 60.
    pub fn can_summarize(history: &ChatHistory) -> (r: bool)
        ensures
            r == summary_cut_ok(*history),
    {
        match first_message_of(history) {
            Some(msg) => {
                let (t, i, bytes) = fit_sixty(msg.as_str());
                i == t.len() || bytes == 60
            },
            None => true,
        }
    }

    /// A title for a chat, from the first message the user sent.
    pub fn generate_chat_summary(history: &ChatHistory) -> (r: String)
        requires
            summary_cut_ok(*history),
        ensures
            r@ == chat_summary(*history),
    {
        match first_message_of(history) {
            Some(msg) => summarize(msg.as_str()),
            None => "New Chat".to_owned(),
        }
    }
}

/// An empty history for `mode`, for a draft session.
pub fn empty_history_for_mode(mode: ChatMode) -> (h: ChatHistory)
    ensures
        history_mode(h) == mode,
        history_is_empty(h),
{
    match mode {
        ChatMode::Standard => ChatHistory::Standard(
            StandardHistory {
                user_messages: Vec::new(),
                model_responses: Vec::new(),
                selected_models: Vec::new(),
                system_prompt: String::new(),
                conversation_history: ConversationHistory {
                    single_model: Vec::new(),
                    multi_model: Vec::new(),
                },
            },
        ),
        ChatMode::PvP => ChatHistory::PvP(
            PvPHistory {
                rounds: Vec::new(),
                bot_models: Vec::new(),
                moderator_model: None,
                system_prompts: SystemPrompts { bot: String::new(), moderator: String::new() },
            },
        ),
        ChatMode::Collaborative => ChatHistory::Collaborative(
            CollaborativeHistory {
                rounds: Vec::new(),
                selected_models: Vec::new(),
                system_prompt: String::new(),
            },
        ),
        ChatMode::Competitive => ChatHistory::Competitive(
            CompetitiveHistory {
                rounds: Vec::new(),
                selected_models: Vec::new(),
                prompt_templates: PromptTemplates { proposal: String::new(), voting: String::new() },
            },
        ),
        ChatMode::LLMChoice => ChatHistory::LLMChoice(
            LLMChoiceHistory { rounds: Vec::new(), selected_models: Vec::new() },
        ),
    }
}


/// A chat's title comes from the first message the user sent: for every kind
/// of chat, the message at index 0, and none when nothing was asked yet.
pub proof fn lemma_first_message_is_first(h: ChatHistory)
    ensures
        match h {
            ChatHistory::Standard(s) => first_message(h) == if s.user_messages@.len() > 0 {
                Some(s.user_messages@[0]@)
            } else {
                None
            },
            ChatHistory::PvP(p) => first_message(h) == if p.rounds@.len() > 0 {
                Some(p.rounds@[0].user_message@)
            } else {
                None
            },
            ChatHistory::Collaborative(c) => first_message(h) == if c.rounds@.len() > 0 {
                Some(c.rounds@[0].user_message@)
            } else {
                None
            },
            ChatHistory::Competitive(c) => first_message(h) == if c.rounds@.len() > 0 {
                Some(c.rounds@[0].user_question@)
            } else {
                None
            },
            ChatHistory::LLMChoice(l) => first_message(h) == if l.rounds@.len() > 0 {
                Some(l.rounds@[0].user_message@)
            } else {
                None
            },
        },
{
}

/// `later` is the chat `earlier` grew into: the same kind, with the messages
/// or rounds of `earlier` first, in order, and possibly more after them.
pub open spec fn continues(earlier: ChatHistory, later: ChatHistory) -> bool {
    match (earlier, later) {
        (ChatHistory::Standard(a), ChatHistory::Standard(b)) => a.user_messages@.len() <= b.user_messages@.len()
            && b.user_messages@.take(a.user_messages@.len() as int) == a.user_messages@,
        (ChatHistory::PvP(a), ChatHistory::PvP(b)) => a.rounds@.len() <= b.rounds@.len() && b.rounds@.take(
            a.rounds@.len() as int,
        ) == a.rounds@,
        (ChatHistory::Collaborative(a), ChatHistory::Collaborative(b)) => a.rounds@.len() <= b.rounds@.len()
            && b.rounds@.take(a.rounds@.len() as int) == a.rounds@,
        (ChatHistory::Competitive(a), ChatHistory::Competitive(b)) => a.rounds@.len() <= b.rounds@.len()
            && b.rounds@.take(a.rounds@.len() as int) == a.rounds@,
        (ChatHistory::LLMChoice(a), ChatHistory::LLMChoice(b)) => a.rounds@.len() <= b.rounds@.len()
            && b.rounds@.take(a.rounds@.len() as int) == a.rounds@,
        _ => false,
    }
}

/// A chat keeps its title as it goes on: once something was asked, later
/// messages or rounds change neither the message the title comes from nor
/// the title.
pub proof fn lemma_title_stays(earlier: ChatHistory, later: ChatHistory)
    requires
        continues(earlier, later),
        first_message(earlier) is Some,
    ensures
        first_message(later) == first_message(earlier),
        chat_summary(later) == chat_summary(earlier),
{
    match (earlier, later) {
        (ChatHistory::Standard(a), ChatHistory::Standard(b)) => {
            assert(b.user_messages@.take(a.user_messages@.len() as int)[0] == b.user_messages@[0]);
        },
        (ChatHistory::PvP(a), ChatHistory::PvP(b)) => {
            assert(b.rounds@.take(a.rounds@.len() as int)[0] == b.rounds@[0]);
        },
        (ChatHistory::Collaborative(a), ChatHistory::Collaborative(b)) => {
            assert(b.rounds@.take(a.rounds@.len() as int)[0] == b.rounds@[0]);
        },
        (ChatHistory::Competitive(a), ChatHistory::Competitive(b)) => {
            assert(b.rounds@.take(a.rounds@.len() as int)[0] == b.rounds@[0]);
        },
        (ChatHistory::LLMChoice(a), ChatHistory::LLMChoice(b)) => {
            assert(b.rounds@.take(a.rounds@.len() as int)[0] == b.rounds@[0]);
        },
        _ => {},
    }
}


/// The bytes of a text are those of its first character and of the rest.
proof fn lemma_utf8_cons(s: Seq<char>)
    requires
        s.len() > 0,
    ensures
        utf8_len(s) == char_utf8_len(s[0]) + utf8_len(s.drop_first()),
    decreases s.len(),
{
    if s.len() == 1 {
        assert(s.drop_first().len() == 0);
        assert(s.drop_last().len() == 0);
        assert(utf8_len(s.drop_first()) == 0);
        assert(utf8_len(s.drop_last()) == 0);
        assert(s.last() == s[0]);
        assert(utf8_len(s) == utf8_len(s.drop_last()) + char_utf8_len(s.last()));
    } else {
        lemma_utf8_cons(s.drop_last());
        assert(s.drop_first().drop_last() =~= s.drop_last().drop_first());
        assert(s.drop_first().last() == s.last());
        assert(s.drop_last()[0] == s[0]);
        assert(utf8_len(s) == utf8_len(s.drop_last()) + char_utf8_len(s.last()));
        assert(utf8_len(s.drop_first()) == utf8_len(s.drop_first().drop_last()) + char_utf8_len(s.drop_first().last()));
    }
}

/// `chars_within(s, n)` characters of `s` fit in `n` bytes, and one more
/// would not.
proof fn lemma_chars_within(s: Seq<char>, n: int)
    requires
        n >= 0,
    ensures
        chars_within(s, n) <= s.len(),
        utf8_len(s.take(chars_within(s, n) as int)) <= n,
        chars_within(s, n) < s.len() ==> utf8_len(s.take(chars_within(s, n) + 1int)) > n,
    decreases s.len(),
{
    let k = chars_within(s, n) as int;
    if s.len() == 0 || char_utf8_len(s[0]) > n {
        assert(s.take(0).len() == 0);
        if s.len() > 0 {
            lemma_utf8_len_step(s, 0);
        }
    } else {
        let d = s.drop_first();
        let n2 = n - char_utf8_len(s[0]);
        lemma_chars_within(d, n2);
        let k2 = chars_within(d, n2) as int;
        assert(k == k2 + 1);
        lemma_utf8_cons(s.take(k));
        assert(s.take(k).drop_first() =~= d.take(k2));
        if k < s.len() {
            lemma_utf8_cons(s.take(k + 1));
            assert(s.take(k + 1).drop_first() =~= d.take(k2 + 1));
        }
    }
}

/// A chat's title is the trimmed first message when that fits in 60 bytes.
/// A longer message is cut to a prefix of at most 60 bytes and ended with
/// `...`: at the last space that the first 60 bytes hold, the space itself
/// left out, or at the last whole character within 60 bytes when they hold
/// no space.
pub proof fn lemma_summary_shape(msg: Seq<char>)
    ensures
        utf8_len(trim(msg)) <= 60 ==> summary_of(msg) == trim(msg),
        utf8_len(trim(msg)) > 60 ==> exists|k: int| {
            &&& 0 <= k < trim(msg).len()
            &&& #[trigger] summary_of(msg) == trim(msg).take(k) + "..."@
            &&& utf8_len(trim(msg).take(k)) <= 60
            &&& (trim(msg)[k] == ' ' && forall|j: int| k < j < chars_within(trim(msg), 60) ==> trim(msg)[j] != ' ')
                || (k == chars_within(trim(msg), 60) && forall|j: int| 0 <= j < k ==> trim(msg)[j] != ' ')
        },
{
    let t = trim(msg);
    if utf8_len(t) > 60 {
        lemma_chars_within(t, 60);
        let cw = chars_within(t, 60) as int;
        if cw == t.len() {
            assert(t.take(cw) =~= t);
        }
        assert(cw < t.len());
        let cut = t.take(cw);
        lemma_last_index_of(cut, ' ');
        match last_index_of(cut, ' ') {
            Some(j) => {
                let k = j as int;
                lemma_utf8_len_prefix(cut, k);
                assert(cut.take(k) =~= t.take(k));
                assert(cut[k] == t[k]);
                assert forall|q: int| k < q < cw implies t[q] != ' ' by {
                    assert(cut[q] == t[q]);
                }
                assert(summary_of(msg) == t.take(k) + "..."@);
            },
            None => {
                assert forall|q: int| 0 <= q < cw implies t[q] != ' ' by {
                    assert(cut[q] == t[q]);
                }
                assert(summary_of(msg) == t.take(cw) + "..."@);
            },
        }
    }
}

} // verus!
