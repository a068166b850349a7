//! The chat client's basic value types: views, chat modes and messages.

use vstd::prelude::*;

verus! {

/// The screen the client shows.
#[derive(Clone, Copy, PartialEq, Eq, Structural, Debug)]
pub enum AppView {
    NewChat,
    ChatMode(ChatMode),
    Settings,
}

/// How the models of a chat work together.
#[derive(Clone, Copy, PartialEq, Eq, Structural, Debug)]
pub enum ChatMode {
    Standard,
    PvP,
    Collaborative,
    Competitive,
    LLMChoice,
}

pub open spec fn chat_mode_name(m: ChatMode) -> Seq<char> {
    match m {
        ChatMode::Standard => "Standard"@,
        ChatMode::PvP => "PvP"@,
        ChatMode::Collaborative => "Collaborative"@,
        ChatMode::Competitive => "Competitive"@,
        ChatMode::LLMChoice => "LLM's Choice"@,
    }
}

pub open spec fn chat_mode_description(m: ChatMode) -> Seq<char> {
    match m {
        ChatMode::Standard => "Single LLM chat"@,
        ChatMode::PvP => "2 bots compete, 1 moderator judges"@,
        ChatMode::Collaborative => "Multiple bots jointly agree on best solution"@,
        ChatMode::Competitive => "All bots vote for the best (can't vote for their own)"@,
        ChatMode::LLMChoice => "LLMs decide to collaborate or compete"@,
    }
}

impl ChatMode {
    /// The mode's display name.
    pub fn name(&self) -> (r: &'static str)
        ensures
            r@ == chat_mode_name(*self),
    {
        match self {
            ChatMode::Standard => "Standard",
            ChatMode::PvP => "PvP",
            ChatMode::Collaborative => "Collaborative",
            ChatMode::Competitive => "Competitive",
            ChatMode::LLMChoice => "LLM's Choice",
        }
    }

    /// One line on what the mode does.
    pub fn description(&self) -> (r: &'static str)
        ensures
            r@ == chat_mode_description(*self),
    {
        match self {
            ChatMode::Standard => "Single LLM chat",
            ChatMode::PvP => "2 bots compete, 1 moderator judges",
            ChatMode::Collaborative => "Multiple bots jointly agree on best solution",
            ChatMode::Competitive => "All bots vote for the best (can't vote for their own)",
            ChatMode::LLMChoice => "LLMs decide to collaborate or compete",
        }
    }
}

/// A message of a single-model chat.
#[derive(Clone, PartialEq, Debug)]
pub struct Message {
    pub id: usize,
    pub content: String,
    pub sender: String,
    pub is_user: bool,
    pub timestamp: String,
}

/// A bot's message in the arena, with its votes.
#[derive(Clone, PartialEq, Debug)]
pub struct ArenaMessage {
    pub id: usize,
    pub content: String,
    pub bot_name: String,
    pub timestamp: String,
    pub vote_count: Option<usize>,
}

/// A saved chat as listed in the sidebar; `id` is its file name without the
/// `.json` extension.
#[derive(Clone, PartialEq, Debug)]
pub struct ChatSession {
    pub id: String,
    pub title: String,
    pub mode: ChatMode,
    pub timestamp: String,
}

/// How the message box submits.
#[derive(Clone, Copy, PartialEq, Eq, Structural, Debug)]
pub struct InputSettings {
    /// `true`: Ctrl+Enter submits; `false`: Enter submits.
    pub ctrl_enter_submit: bool,
}

} // verus!
