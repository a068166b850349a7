//! Small pieces of the interface: toast notifications, table alignment, and
//! when the message box sends.

use vstd::prelude::*;
use crate::markdown::TableAlignment;
use crate::text::{chars_of, trim, trimmed};
use crate::types::InputSettings;

verus! {

#[derive(Clone, Copy, Debug, PartialEq, Eq, Structural)]
pub enum ToastType {
    Success,
    Error,
    Info,
}

/// A notification shown for a moment.
#[derive(Clone, Debug)]
pub struct ToastMessage {
    pub id: usize,
    pub message: String,
    pub toast_type: ToastType,
}

impl ToastMessage {
    /// The CSS class of the toast's background.
    pub fn bg_class(&self) -> (r: &'static str)
        ensures
            r@ == (match self.toast_type {
                ToastType::Success => "bg-green-600/90"@,
                ToastType::Error => "bg-red-600/90"@,
                ToastType::Info => "bg-blue-600/90"@,
            }),
    {
        match self.toast_type {
            ToastType::Success => "bg-green-600/90",
            ToastType::Error => "bg-red-600/90",
            ToastType::Info => "bg-blue-600/90",
        }
    }

    /// The symbol in front of the message.
    pub fn icon(&self) -> (r: &'static str)
        ensures
            r@ == (match self.toast_type {
                ToastType::Success => "\u{2713}"@,
                ToastType::Error => "\u{2715}"@,
                ToastType::Info => "\u{2139}"@,
            }),
    {
        match self.toast_type {
            ToastType::Success => "\u{2713}",
            ToastType::Error => "\u{2715}",
            ToastType::Info => "\u{2139}",
        }
    }
}

/// The CSS class that aligns a table cell; unaligned columns go left.
pub fn table_cell_alignment_class(alignment: &TableAlignment) -> (r: &'static str)
    ensures
        r@ == (match *alignment {
            TableAlignment::Left => "text-left"@,
            TableAlignment::Center => "text-center"@,
            TableAlignment::Right => "text-right"@,
            TableAlignment::Unaligned => "text-left"@,
        }),
{
    match alignment {
        TableAlignment::Left => "text-left",
        TableAlignment::Center => "text-center",
        TableAlignment::Right => "text-right",
        TableAlignment::Unaligned => "text-left",
    }
}

/// The message box holds something to send: text that is not blank.
pub fn has_content(text: &str) -> (r: bool)
    ensures
        r == (trim(text@).len() > 0),
{
    let cs = chars_of(text);
    let t = trimmed(&cs, 0, cs.len());
    assert(cs@.subrange(0, cs@.len() as int) =~= cs@);
    t.len() > 0
}

/// The send button is enabled: there is text to send and no reply streams.
pub fn can_send(text: &str, is_streaming: bool) -> (r: bool)
    ensures
        r == (trim(text@).len() > 0 && !is_streaming),
{
    has_content(text) && !is_streaming
}

/// A key sends the message: Enter, with Ctrl where the settings ask for
/// Ctrl+Enter and without it otherwise, while there is text to send and no
/// reply streams.
pub open spec fn key_sends(settings: InputSettings, enter: bool, ctrl: bool, is_streaming: bool, text: Seq<char>) -> bool {
    &&& !is_streaming
    &&& enter
    &&& if settings.ctrl_enter_submit { ctrl } else { !ctrl }
    &&& trim(text).len() > 0
}

/// A key was pressed in the message box: where it sends, the text is handed
/// out and the box is emptied; otherwise nothing changes.
pub fn submit_on_key(settings: InputSettings, enter: bool, ctrl: bool, is_streaming: bool, text: &mut String) -> (sent: Option<String>)
    ensures
        key_sends(settings, enter, ctrl, is_streaming, old(text)@) ==> sent == Some(*old(text)) && final(text)@.len() == 0,
        !key_sends(settings, enter, ctrl, is_streaming, old(text)@) ==> sent is None && *final(text) == *old(text),
{
    if is_streaming || !enter {
        return None;
    }
    let modifier_ok = if settings.ctrl_enter_submit { ctrl } else { !ctrl };
    if modifier_ok && has_content(text.as_str()) {
        let mut out = String::new();
        std::mem::swap(text, &mut out);
        Some(out)
    } else {
        None
    }
}

/// The send button was clicked: the text, if there is any to send and no
/// reply streams, is handed out and the box is emptied.
pub fn submit_on_click(is_streaming: bool, text: &mut String) -> (sent: Option<String>)
    ensures
        (trim(old(text)@).len() > 0 && !is_streaming) ==> sent == Some(*old(text)) && final(text)@.len() == 0,
        !(trim(old(text)@).len() > 0 && !is_streaming) ==> sent is None && *final(text) == *old(text),
{
    if can_send(text.as_str(), is_streaming) {
        let mut out = String::new();
        std::mem::swap(text, &mut out);
        Some(out)
    } else {
        None
    }
}

} // verus!
