//! What the presentation layer shows of an entry.

use vstd::prelude::*;
use vstd::string::*;

verus! {

/// The number of characters of an entry that are shown in full.
pub const DISPLAY_LIMIT: usize = 100;

/// The marker that stands for the part of an entry that is not shown.
pub open spec fn ellipsis() -> Seq<char> {
    seq!['.', '.', '.']
}

/// The display string of an entry: the entry itself, or its first
/// `DISPLAY_LIMIT` characters followed by the ellipsis where it is longer.
pub open spec fn display_form(text: Seq<char>) -> Seq<char> {
    if text.len() > DISPLAY_LIMIT {
        text.take(DISPLAY_LIMIT as int) + ellipsis()
    } else {
        text
    }
}

/// Builds the display string of one entry.
pub fn display_text(entry: &str) -> (shown: String)
    ensures
        shown@ == display_form(entry@),
{
    if entry.unicode_len() > DISPLAY_LIMIT {
        let head = entry.substring_char(0, DISPLAY_LIMIT);
        let mut shown = String::from_str(head);
        proof {
            reveal_strlit("...");
            assert("..."@ =~= ellipsis());
        }
        shown.append("...");
        shown
    } else {
        String::from_str(entry)
    }
}

/// The display strings of `entries`, in the same order.
pub open spec fn display_forms(entries: Seq<Seq<char>>) -> Seq<Seq<char>> {
    entries.map_values(|text: Seq<char>| display_form(text))
}

} // verus!
