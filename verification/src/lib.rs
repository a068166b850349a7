//! Verified core of a multi-model chat client: the markdown reader that turns
//! a model's reply into blocks and inline spans, the naming and dating of saved
//! chat sessions, vote counting for the competitive mode, and the small value
//! types (themes, chat modes, settings) the client is built from.

pub mod text;
pub mod types;
pub mod theme;
pub mod settings;
pub mod history;
pub mod session_names;
pub mod calendar;
pub mod votes;
pub mod collaborative;
pub mod ui;
pub mod sessions;
pub mod prompts;
pub mod content_cache;
pub mod selection;
pub mod navigation;
pub mod streaming;
pub mod standard;
pub mod markdown;
pub mod md_line;
pub mod md_block;
pub mod md_inline;

pub use markdown::{ContentSegment, InlineSegment, ListBlock, ListItem, TableAlignment, TableBlock};
pub use md_block::{parse_message_content, try_parse_message_content};
pub use md_inline::parse_inline_elements;
pub use settings::{Settings, ThemeMode};
pub use theme::Theme;
pub use types::{AppView, ArenaMessage, ChatMode, ChatSession, InputSettings, Message};
