//! A verified core for a clipboard-history utility.
//!
//! The crate holds the decisions of the utility as functions on plain values:
//! which clipboard texts are new, how the bounded history changes, what is
//! written to the persistent log, and what the presentation layer is shown.
//! Reading the clipboard, the store on disk and the window are left to the
//! program that embeds it.
//!
//! - `history`: the bounded, deduplicated list of entries and its start-up
//!   load.
//! - `monitor`: which of the texts read from the clipboard are notified.
//! - `view_model`: the messages to the history and what each asks for.
//! - `persistent_log`, `log_model`, `keys`: a copy of what the store holds,
//!   the operations on the store, and the order and form of its keys.
//! - `display`, `text`: display strings, and texts as stored bytes.
//! - `session`, `laws`: the utility as a whole, and what holds of it.

pub mod display;
pub mod history;
pub mod keys;
pub mod laws;
pub mod log_model;
pub mod monitor;
pub mod persistent_log;
pub mod session;
pub mod text;
pub mod view_model;
