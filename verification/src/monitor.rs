//! The clipboard monitor: which of the texts it reads are new.

use vstd::prelude::*;
use vstd::string::*;
use vstd::utf8::encode_utf8;
use crate::log_model::{log_values, LogModel};
use crate::persistent_log::PersistentLog;

verus! {

/// The seconds between two polls of the clipboard.
pub const POLL_INTERVAL_SECONDS: u64 = 1;

/// The number of notifications that may wait for the receiver.
pub const NOTIFICATION_BACKLOG: usize = 100;

/// The text of an optional string.
pub open spec fn text_of(text: Option<String>) -> Option<Seq<char>> {
    match text {
        Some(t) => Some(t@),
        None => None,
    }
}

/// What the monitor makes of one read of the clipboard, given the text it
/// saw last: the text it has seen last from now on, and the text to look
/// up in the log, if any. A read that failed, an empty text and the text
/// seen last are passed over; any other text is seen and looked up.
pub open spec fn observed(last_seen: Seq<char>, read: Option<Seq<char>>) -> (
    Seq<char>,
    Option<Seq<char>>,
) {
    match read {
        Some(text) if text.len() != 0 && text != last_seen => (text, Some(text)),
        _ => (last_seen, None),
    }
}

/// What becomes of a text that was observed, given the log: it is notified
/// to the history unless some value of the log is that text, byte for byte.
pub open spec fn unless_recorded(candidate: Seq<char>, log: LogModel) -> Option<Seq<char>> {
    if log_values(log).contains(encode_utf8(candidate)) {
        None
    } else {
        Some(candidate)
    }
}

/// What the monitor makes of one tick, given the text it saw last and the
/// log: the text it has seen last from now on, and the text to notify the
/// history of, if any. A text is notified where it is observed and no value
/// of the log is that text.
pub open spec fn polled(
    last_seen: Seq<char>,
    read: Option<Seq<char>>,
    log: LogModel,
) -> (Seq<char>, Option<Seq<char>>) {
    (
        observed(last_seen, read).0,
        match observed(last_seen, read).1 {
            Some(candidate) => unless_recorded(candidate, log),
            None => None,
        },
    )
}

/// The monitor's memory: the text it processed last. Its view is that text,
/// which is empty before the first one.
pub struct Monitor {
    last_seen: String,
}

impl View for Monitor {
    type V = Seq<char>;

    closed spec fn view(&self) -> Seq<char> {
        self.last_seen@
    }
}

impl Monitor {
    /// A monitor that has seen no text yet.
    pub fn new() -> (monitor: Self)
        ensures
            monitor@ == Seq::<char>::empty(),
    {
        Monitor { last_seen: String::new() }
    }

    /// The text processed last.
    pub fn last_seen(&self) -> (text: &String)
        ensures
            text@ == self@,
    {
        &self.last_seen
    }

    /// Takes one read of the clipboard, `None` where the read failed, and
    /// returns the text to look up in the log, if the read brought a text
    /// that is neither empty nor the one seen last.
    pub fn observe(&mut self, read: Option<String>) -> (candidate: Option<String>)
        ensures
            (final(self)@, text_of(candidate)) == observed(old(self)@, text_of(read)),
    {
        match read {
            Some(text) => {
                if text.as_str().is_empty() || text == self.last_seen {
                    None
                } else {
                    self.last_seen = text.clone();
                    Some(text)
                }
            },
            None => None,
        }
    }

    /// One tick of the monitor against a copy of the log: observes the
    /// read and returns the text to notify the history of, if any.
    pub fn poll_tick(&mut self, read: Option<String>, log: &PersistentLog) -> (notification: Option<
        String,
    >)
        ensures
            (final(self)@, text_of(notification)) == polled(old(self)@, text_of(read), log@),
    {
        match self.observe(read) {
            Some(candidate) => notification(candidate, log),
            None => None,
        }
    }
}

/// The second half of a tick, for a text that `observe` returned: looks the
/// text up in a copy of the log and returns it for notification unless the
/// log holds it already.
pub fn notification(candidate: String, log: &PersistentLog) -> (notified: Option<String>)
    ensures
        text_of(notified) == unless_recorded(candidate@, log@),
{
    if log.holds_text(candidate.as_str()) {
        None
    } else {
        Some(candidate)
    }
}

} // verus!
