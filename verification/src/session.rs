//! The utility as a whole, as a mathematical value: the text that the
//! monitor saw last, the history and the persistent log, and what a tick of
//! the monitor, a message and a restart make of them.

use vstd::prelude::*;
use crate::history::{history_valid, loaded_history, with_new_entry};
use crate::log_model::{log_after_record, log_sorted, log_values, LogModel};
use crate::monitor::polled;

verus! {

/// The state of a running session.
pub struct Session {
    /// The text that the monitor processed last.
    pub last_seen: Seq<char>,
    /// The history, newest first.
    pub history: Seq<Seq<char>>,
    /// The persistent log.
    pub log: LogModel,
}

/// What every session satisfies: its history is valid and its log is in key
/// order.
pub open spec fn session_valid(session: Session) -> bool {
    history_valid(session.history) && log_sorted(session.log)
}

/// The session that a start-up makes of a log.
pub open spec fn started(log: LogModel) -> Session {
    Session { last_seen: Seq::empty(), history: loaded_history(log_values(log)), log }
}

/// The session after the history was notified of `text`: the history takes
/// it, and where it went in the log takes it too.
pub open spec fn after_new_entry(session: Session, text: Seq<char>) -> Session {
    Session {
        last_seen: session.last_seen,
        history: with_new_entry(session.history, text),
        log: if session.history.contains(text) {
            session.log
        } else {
            log_after_record(session.log, text)
        },
    }
}

/// The session after the user cleared the history.
pub open spec fn after_clear(session: Session) -> Session {
    Session { last_seen: session.last_seen, history: Seq::empty(), log: Seq::empty() }
}

/// The session after one tick of the monitor, in which the clipboard held
/// `read`, and after the notification, if there was one, reached the
/// history.
pub open spec fn after_tick(session: Session, read: Option<Seq<char>>) -> Session {
    let (seen, notification) = polled(session.last_seen, read, session.log);
    let observed = Session { last_seen: seen, history: session.history, log: session.log };
    match notification {
        Some(text) => after_new_entry(observed, text),
        None => observed,
    }
}

/// The session after one tick for each of `reads`, first to last.
pub open spec fn after_ticks(session: Session, reads: Seq<Seq<char>>) -> Session
    decreases reads.len(),
{
    if reads.len() == 0 {
        session
    } else {
        after_tick(after_ticks(session, reads.drop_last()), Some(reads.last()))
    }
}

} // verus!
