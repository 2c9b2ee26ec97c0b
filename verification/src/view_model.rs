//! The messages that reach the history, and what each of them asks of the
//! world outside it.

use vstd::prelude::*;
use vstd::string::*;
use crate::history::{history_valid, with_new_entry, History};

verus! {

/// The milliseconds to wait after a failed receive before the next one.
pub const RECEIVE_RETRY_MILLISECONDS: u64 = 100;

/// A message to the history.
#[derive(Clone, Debug, PartialEq, Eq)]
pub enum Message {
    /// The monitor found a new text in the clipboard.
    NewClipboardEntry(String),
    /// The user asked to clear the history.
    ClearEntries,
    /// The user asked for the entry shown at this index.
    CopyEntry(usize),
}

/// What the embedding program is to do after a message was handled.
#[derive(Debug, PartialEq, Eq)]
pub enum Effect {
    /// Nothing.
    Nothing,
    /// Record the text in the persistent log.
    Persist { text: String },
    /// Clear the persistent log.
    ClearLog,
    /// Write the text to the clipboard.
    WriteClipboard { text: String },
}

/// The history after a message.
pub open spec fn history_after(history: Seq<Seq<char>>, message: Message) -> Seq<Seq<char>> {
    match message {
        Message::NewClipboardEntry(text) => with_new_entry(history, text@),
        Message::ClearEntries => Seq::empty(),
        Message::CopyEntry(_) => history,
    }
}

/// Whether `effect` is what a message asks for, given the history that the
/// message met. A new text is persisted unless the history held it already.
/// A clear always clears the log. A copy writes the entry at its index to
/// the clipboard, and does nothing where the history has no such entry.
pub open spec fn effect_fits(history: Seq<Seq<char>>, message: Message, effect: Effect) -> bool {
    match message {
        Message::NewClipboardEntry(text) => if history.contains(text@) {
            effect is Nothing
        } else {
            effect matches Effect::Persist { text: persisted } && persisted@ == text@
        },
        Message::ClearEntries => effect is ClearLog,
        Message::CopyEntry(index) => if index < history.len() {
            effect matches Effect::WriteClipboard { text: copied } && copied@
                == history[index as int]
        } else {
            effect is Nothing
        },
    }
}

/// Handles one message: changes the history and says what is to be done
/// outside it.
pub fn update(history: &mut History, message: Message) -> (effect: Effect)
    ensures
        final(history)@ == history_after(old(history)@, message),
        effect_fits(old(history)@, message, effect),
        history_valid(final(history)@),
{
    match message {
        Message::NewClipboardEntry(text) => {
            if history.on_new_entry(text.clone()) {
                Effect::Persist { text }
            } else {
                Effect::Nothing
            }
        },
        Message::ClearEntries => {
            history.on_clear();
            Effect::ClearLog
        },
        Message::CopyEntry(index) => {
            match history.on_copy(index) {
                Some(text) => Effect::WriteClipboard { text },
                None => Effect::Nothing,
            }
        },
    }
}

/// What follows a receive on the channel from the monitor.
#[derive(Debug, PartialEq, Eq)]
pub enum Received {
    /// A message arrived and is to be handled.
    Handle(Message),
    /// The receive failed. What was lost stays lost, nothing is handled in
    /// its place, and the next receive waits this long.
    RetryAfter { milliseconds: u64 },
}

/// What follows a receive: the message that arrived is handled, and a
/// receive that failed hands nothing to the history.
pub fn received(outcome: Option<Message>) -> (next: Received)
    ensures
        match outcome {
            Some(message) => next == Received::Handle(message),
            None => next == (Received::RetryAfter { milliseconds: RECEIVE_RETRY_MILLISECONDS }),
        },
{
    match outcome {
        Some(message) => Received::Handle(message),
        None => Received::RetryAfter { milliseconds: RECEIVE_RETRY_MILLISECONDS },
    }
}

} // verus!
