//! The bounded, deduplicated, newest-first list of clipboard entries.

use vstd::prelude::*;
use vstd::string::*;
use crate::display::{display_form, display_forms, display_text};
use crate::text::{byte_strings, decode_text, stored_text, text_equal, texts_of};

verus! {

/// The largest number of entries that a history holds.
pub const HISTORY_CAPACITY: usize = 10;

/// What every history satisfies: no text occurs twice, and there are at
/// most `HISTORY_CAPACITY` of them.
pub open spec fn history_valid(history: Seq<Seq<char>>) -> bool {
    history.no_duplicates() && history.len() <= HISTORY_CAPACITY
}

/// The history after `text` was submitted to it. A text that it already
/// holds changes nothing. Any other text goes to the front, and where that
/// makes the history longer than `HISTORY_CAPACITY` the last, oldest, entry
/// leaves.
pub open spec fn with_new_entry(history: Seq<Seq<char>>, text: Seq<char>) -> Seq<Seq<char>> {
    if history.contains(text) {
        history
    } else {
        let grown = seq![text] + history;
        if grown.len() > HISTORY_CAPACITY {
            grown.drop_last()
        } else {
            grown
        }
    }
}

/// The history after each of `texts` was submitted in turn, first to last.
pub open spec fn with_new_entries(history: Seq<Seq<char>>, texts: Seq<Seq<char>>) -> Seq<
    Seq<char>,
>
    decreases texts.len(),
{
    if texts.len() == 0 {
        history
    } else {
        with_new_entry(with_new_entries(history, texts.drop_last()), texts.last())
    }
}

/// The texts that stored values stand for, in the order of the values.
/// Values that are not valid UTF-8 stand for no text.
pub open spec fn stored_texts(values: Seq<Seq<u8>>) -> Seq<Seq<char>> {
    values.filter_map(|value: Seq<u8>| stored_text(value))
}

/// `texts` without repetitions: of equal texts only the first one stays,
/// and the texts that stay keep their order.
pub open spec fn first_occurrences(texts: Seq<Seq<char>>) -> Seq<Seq<char>>
    decreases texts.len(),
{
    if texts.len() == 0 {
        Seq::empty()
    } else {
        let earlier = first_occurrences(texts.drop_last());
        if earlier.contains(texts.last()) {
            earlier
        } else {
            earlier.push(texts.last())
        }
    }
}

/// `texts`, given oldest first, as a history shows them: newest first, and
/// only the `HISTORY_CAPACITY` newest.
pub open spec fn newest_first(texts: Seq<Seq<char>>) -> Seq<Seq<char>> {
    let reversed = texts.reverse();
    if reversed.len() > HISTORY_CAPACITY {
        reversed.take(HISTORY_CAPACITY as int)
    } else {
        reversed
    }
}

/// The history that a start-up builds from the values of the persistent
/// log, given in key order: the texts they stand for, without repetitions,
/// newest first, cut to `HISTORY_CAPACITY`.
pub open spec fn loaded_history(values: Seq<Seq<u8>>) -> Seq<Seq<char>> {
    newest_first(first_occurrences(stored_texts(values)))
}

/// `first_occurrences` keeps exactly the texts of its argument, each once.
pub proof fn lemma_first_occurrences(texts: Seq<Seq<char>>)
    ensures
        first_occurrences(texts).no_duplicates(),
        first_occurrences(texts).len() <= texts.len(),
        forall|text: Seq<char>|
            #[trigger] first_occurrences(texts).contains(text) <==> texts.contains(text),
        texts.no_duplicates() ==> first_occurrences(texts) == texts,
    decreases texts.len(),
{
    if texts.len() > 0 {
        let front = texts.drop_last();
        let earlier = first_occurrences(front);
        lemma_first_occurrences(front);
        assert forall|text: Seq<char>|
            #[trigger] first_occurrences(texts).contains(text) <==> texts.contains(text) by {
            if texts.contains(text) {
                let i = choose|i: int| 0 <= i < texts.len() && texts[i] == text;
                if i < front.len() {
                    assert(front[i] == text);
                    assert(front.contains(text));
                    assert(earlier.contains(text));
                    let k = choose|k: int| 0 <= k < earlier.len() && earlier[k] == text;
                    assert(first_occurrences(texts)[k] == text);
                } else {
                    assert(text == texts.last());
                    if !earlier.contains(text) {
                        assert(first_occurrences(texts)[earlier.len() as int] == text);
                    }
                }
            }
            if first_occurrences(texts).contains(text) {
                let k = choose|k: int|
                    0 <= k < first_occurrences(texts).len() && first_occurrences(texts)[k] == text;
                if k < earlier.len() {
                    assert(earlier[k] == text);
                    assert(earlier.contains(text));
                    assert(front.contains(text));
                    let i = choose|i: int| 0 <= i < front.len() && front[i] == text;
                    assert(texts[i] == text);
                } else {
                    assert(texts[texts.len() - 1] == text);
                }
            }
        }
        if texts.no_duplicates() {
            assert(front.no_duplicates());
            assert(!front.contains(texts.last())) by {
                if front.contains(texts.last()) {
                    let i = choose|i: int| 0 <= i < front.len() && front[i] == texts.last();
                    assert(texts[i] == texts[texts.len() - 1]);
                }
            }
            assert(first_occurrences(texts) =~= texts);
        }
    }
}

/// `place` is where `text` occurs first in `texts`.
pub open spec fn is_first_place(texts: Seq<Seq<char>>, text: Seq<char>, place: int) -> bool {
    &&& 0 <= place < texts.len()
    &&& texts[place] == text
    &&& forall|i: int| 0 <= i < place ==> texts[i] != text
}

/// Where `text` occurs first in `texts`, if it occurs there at all.
pub open spec fn first_place(texts: Seq<Seq<char>>, text: Seq<char>) -> int {
    choose|place: int| is_first_place(texts, text, place)
}

/// A text of `texts` has one first place in it, at or before any place
/// where it occurs.
proof fn lemma_first_place(texts: Seq<Seq<char>>, at: int)
    requires
        0 <= at < texts.len(),
    ensures
        is_first_place(texts, texts[at], first_place(texts, texts[at])),
        first_place(texts, texts[at]) <= at,
        forall|place: int|
            is_first_place(texts, texts[at], place) ==> place == first_place(texts, texts[at]),
    decreases at,
{
    let text = texts[at];
    if exists|i: int| 0 <= i < at && texts[i] == text {
        let earlier = choose|i: int| 0 <= i < at && texts[i] == text;
        lemma_first_place(texts, earlier);
    } else {
        assert(is_first_place(texts, text, at));
    }
    let first = first_place(texts, text);
    assert forall|place: int| is_first_place(texts, text, place) implies place == first by {
        if place < first {
            assert(texts[place] != text);
        } else if first < place {
            assert(texts[first] != text);
        }
    }
}

/// `first_occurrences` keeps the texts in the order in which they occur
/// first in its argument.
pub proof fn lemma_first_occurrences_in_order(texts: Seq<Seq<char>>)
    ensures
        forall|i: int, j: int|
            0 <= i < j < first_occurrences(texts).len() ==> first_place(
                texts,
                #[trigger] first_occurrences(texts)[i],
            ) < first_place(texts, #[trigger] first_occurrences(texts)[j]),
    decreases texts.len(),
{
    let kept = first_occurrences(texts);
    if texts.len() > 0 {
        let front = texts.drop_last();
        let earlier = first_occurrences(front);
        lemma_first_occurrences_in_order(front);
        lemma_first_occurrences(front);
        assert forall|i: int| 0 <= i < earlier.len() implies first_place(
            texts,
            #[trigger] earlier[i],
        ) == first_place(front, earlier[i]) && first_place(texts, earlier[i]) < front.len() by {
            assert(earlier.contains(earlier[i]));
            let at = choose|at: int| 0 <= at < front.len() && front[at] == earlier[i];
            lemma_first_place(front, at);
            let place = first_place(front, earlier[i]);
            assert(texts[at] == front[at]);
            assert(is_first_place(texts, earlier[i], place)) by {
                assert(texts[place] == front[place]);
                assert forall|k: int| 0 <= k < place implies texts[k] != earlier[i] by {
                    assert(texts[k] == front[k]);
                }
            }
            lemma_first_place(texts, at);
        }
        assert forall|i: int, j: int| 0 <= i < j < kept.len() implies first_place(
            texts,
            #[trigger] kept[i],
        ) < first_place(texts, #[trigger] kept[j]) by {
            assert(kept[i] == earlier[i]);
            if j < earlier.len() {
                assert(kept[j] == earlier[j]);
            } else {
                let last = texts.len() - 1;
                assert(kept[j] == texts[last]);
                assert(is_first_place(texts, texts[last], last)) by {
                    assert forall|k: int| 0 <= k < last implies texts[k] != texts[last] by {
                        if texts[k] == texts[last] {
                            assert(front[k] == texts[last]);
                            assert(front.contains(texts[last]));
                        }
                    }
                }
                lemma_first_place(texts, last);
            }
        }
    }
}

/// A history that is valid stays valid when a text is submitted to it.
pub proof fn lemma_with_new_entry_valid(history: Seq<Seq<char>>, text: Seq<char>)
    requires
        history_valid(history),
    ensures
        history_valid(with_new_entry(history, text)),
{
    if !history.contains(text) {
        let grown = seq![text] + history;
        assert forall|i: int, j: int|
            0 <= i < grown.len() && 0 <= j < grown.len() && i != j implies grown[i] != grown[j] by {
            if i == 0 {
                assert(history[j - 1] == grown[j]);
                assert(history.contains(grown[j]));
            } else if j == 0 {
                assert(history[i - 1] == grown[i]);
                assert(history.contains(grown[i]));
            } else {
                assert(history[i - 1] != history[j - 1]);
            }
        }
    }
}

/// Whatever the texts are, `newest_first` of texts without repetitions is a
/// valid history.
pub proof fn lemma_newest_first_valid(texts: Seq<Seq<char>>)
    requires
        texts.no_duplicates(),
    ensures
        history_valid(newest_first(texts)),
{
    let reversed = texts.reverse();
    assert forall|i: int, j: int|
        0 <= i < reversed.len() && 0 <= j < reversed.len() && i != j implies reversed[i]
        != reversed[j] by {
        assert(reversed[i] == texts[texts.len() - 1 - i]);
        assert(reversed[j] == texts[texts.len() - 1 - j]);
    }
}

/// The stored texts are no more than the values, and they hold the text of
/// every value that stands for one.
pub proof fn lemma_stored_texts(values: Seq<Seq<u8>>)
    ensures
        stored_texts(values).len() <= values.len(),
        forall|i: int|
            0 <= i < values.len() && stored_text(#[trigger] values[i]) is Some ==> stored_texts(
                values,
            ).contains(stored_text(values[i]).unwrap()),
    decreases values.len(),
{
    if values.len() > 0 {
        let front = values.drop_last();
        lemma_stored_texts(front);
        let texts = stored_texts(values);
        assert forall|i: int|
            0 <= i < values.len() && stored_text(#[trigger] values[i]) is Some
            implies texts.contains(
            stored_text(values[i]).unwrap(),
        ) by {
            let text = stored_text(values[i]).unwrap();
            if i < front.len() {
                assert(front[i] == values[i]);
                let at = choose|at: int|
                    0 <= at < stored_texts(front).len() && stored_texts(front)[at] == text;
                assert(texts[at] == text);
            } else {
                assert(texts[texts.len() - 1] == text);
            }
        }
    }
}

/// One more stored value adds the text it stands for, if any, to the end of
/// the stored texts.
proof fn lemma_stored_texts_step(values: Seq<Seq<u8>>, i: int)
    requires
        0 <= i < values.len(),
    ensures
        stored_texts(values.take(i + 1)) == match stored_text(values[i]) {
            Some(text) => stored_texts(values.take(i)).push(text),
            None => stored_texts(values.take(i)),
        },
{
    values.lemma_filter_map_take_succ(|value: Seq<u8>| stored_text(value), i);
    match stored_text(values[i]) {
        Some(text) => {
            assert(stored_texts(values.take(i)) + seq![text] =~= stored_texts(values.take(i)).push(
                text,
            ));
        },
        None => {
            assert(stored_texts(values.take(i)) + Seq::<Seq<char>>::empty() =~= stored_texts(
                values.take(i),
            ));
        },
    }
}

/// The bounded history of clipboard entries, newest first.
///
/// Its view is the list of its texts. No text occurs twice in it and it never
/// holds more than `HISTORY_CAPACITY` entries.
pub struct History {
    entries: Vec<String>,
}

impl View for History {
    type V = Seq<Seq<char>>;

    closed spec fn view(&self) -> Seq<Seq<char>> {
        texts_of(self.entries@)
    }
}

/// Whether one of `entries` is `text`.
fn holds_text(entries: &Vec<String>, text: &str) -> (found: bool)
    ensures
        found == texts_of(entries@).contains(text@),
{
    let mut i: usize = 0;
    while i < entries.len()
        invariant
            i <= entries.len(),
            forall|j: int| 0 <= j < i ==> texts_of(entries@)[j] != text@,
        decreases entries.len() - i,
    {
        if text_equal(entries[i].as_str(), text) {
            assert(texts_of(entries@)[i as int] == text@);
            return true;
        }
        i += 1;
    }
    false
}

impl History {
    #[verifier::type_invariant]
    spec fn valid(&self) -> bool {
        history_valid(texts_of(self.entries@))
    }

    /// A history without entries.
    pub fn new() -> (history: Self)
        ensures
            history@ == Seq::<Seq<char>>::empty(),
    {
        let history = History { entries: Vec::new() };
        assert(history@ =~= Seq::<Seq<char>>::empty());
        history
    }

    /// The start-up load: builds the history from the values of the
    /// persistent log, given in key order.
    pub fn load(values: &Vec<Vec<u8>>) -> (history: Self)
        ensures
            history@ == loaded_history(byte_strings(values@)),
            history_valid(history@),
    {
        let ghost stored = byte_strings(values@);
        let mut oldest_first: Vec<String> = Vec::new();
        let mut i: usize = 0;
        assert(stored.take(0) =~= Seq::<Seq<u8>>::empty());
        while i < values.len()
            invariant
                i <= values.len(),
                stored == byte_strings(values@),
                texts_of(oldest_first@) == first_occurrences(stored_texts(stored.take(i as int))),
            decreases values.len() - i,
        {
            proof {
                lemma_stored_texts_step(stored, i as int);
            }
            let ghost before = stored_texts(stored.take(i as int));
            match decode_text(values[i].as_slice()) {
                Some(text) => {
                    let ghost after = before.push(text@);
                    assert(after.drop_last() =~= before);
                    if !holds_text(&oldest_first, text.as_str()) {
                        let ghost kept = texts_of(oldest_first@);
                        oldest_first.push(text);
                        assert(texts_of(oldest_first@) =~= kept.push(after.last()));
                    }
                },
                None => {},
            }
            i += 1;
        }
        assert(stored.take(values.len() as int) =~= stored);
        let ghost distinct = texts_of(oldest_first@);
        proof {
            lemma_first_occurrences(stored_texts(stored));
            lemma_newest_first_valid(distinct);
        }
        let mut entries: Vec<String> = Vec::new();
        while entries.len() < HISTORY_CAPACITY && oldest_first.len() > 0
            invariant
                entries.len() <= HISTORY_CAPACITY,
                entries.len() + oldest_first.len() == distinct.len(),
                texts_of(oldest_first@) == distinct.take(oldest_first.len() as int),
                texts_of(entries@) == distinct.reverse().take(entries.len() as int),
            decreases oldest_first.len(),
        {
            let ghost rest = texts_of(oldest_first@);
            let ghost shown = texts_of(entries@);
            let text = oldest_first.pop().unwrap();
            entries.push(text);
            assert(texts_of(oldest_first@) =~= distinct.take(oldest_first.len() as int));
            assert(texts_of(entries@) =~= distinct.reverse().take(entries.len() as int)) by {
                assert(texts_of(entries@) =~= shown.push(text@));
                assert(text@ == rest[rest.len() - 1]);
            }
        }
        assert(texts_of(entries@) =~= newest_first(distinct));
        History { entries }
    }

    /// The number of entries.
    pub fn len(&self) -> (n: usize)
        ensures
            n == self@.len(),
            n <= HISTORY_CAPACITY,
    {
        proof {
            use_type_invariant(self);
        }
        self.entries.len()
    }

    /// The entries, newest first.
    pub fn entries(&self) -> (entries: &Vec<String>)
        ensures
            texts_of(entries@) == self@,
            history_valid(self@),
    {
        proof {
            use_type_invariant(self);
        }
        &self.entries
    }

    /// Whether the history holds `text`.
    pub fn contains(&self, text: &str) -> (found: bool)
        ensures
            found == self@.contains(text@),
    {
        holds_text(&self.entries, text)
    }

    /// Takes a text that the monitor reported: the history becomes
    /// `with_new_entry` of what it was. The result says whether the text
    /// went in, which it does unless the history held it already.
    pub fn on_new_entry(&mut self, text: String) -> (inserted: bool)
        ensures
            final(self)@ == with_new_entry(old(self)@, text@),
            inserted == !old(self)@.contains(text@),
            history_valid(final(self)@),
    {
        proof {
            use_type_invariant(&*self);
            lemma_with_new_entry_valid(self@, text@);
        }
        if holds_text(&self.entries, text.as_str()) {
            return false;
        }
        let ghost before = self@;
        let mut entries: Vec<String> = Vec::new();
        std::mem::swap(&mut entries, &mut self.entries);
        entries.insert(0, text);
        assert(texts_of(entries@) =~= seq![text@] + before);
        if entries.len() > HISTORY_CAPACITY {
            let ghost grown = texts_of(entries@);
            entries.pop();
            assert(texts_of(entries@) =~= grown.drop_last());
        }
        self.entries = entries;
        true
    }

    /// Forgets every entry.
    pub fn on_clear(&mut self)
        ensures
            final(self)@ == Seq::<Seq<char>>::empty(),
    {
        let entries: Vec<String> = Vec::new();
        assert(texts_of(entries@) =~= Seq::<Seq<char>>::empty());
        self.entries = entries;
    }

    /// The text to write back to the clipboard for the entry shown at
    /// `index`, or nothing where the history has no entry there.
    pub fn on_copy(&self, index: usize) -> (text: Option<String>)
        ensures
            match text {
                Some(t) => index < self@.len() && t@ == self@[index as int],
                None => index >= self@.len(),
            },
            history_valid(self@),
    {
        proof {
            use_type_invariant(self);
        }
        if index < self.entries.len() {
            Some(self.entries[index].clone())
        } else {
            None
        }
    }

    /// The snapshot for the presentation layer: the display string of each
    /// entry, newest first. The position of a string is the index that
    /// `on_copy` takes for its entry.
    pub fn display_rows(&self) -> (rows: Vec<String>)
        ensures
            texts_of(rows@) == display_forms(self@),
    {
        let mut rows: Vec<String> = Vec::new();
        let mut i: usize = 0;
        while i < self.entries.len()
            invariant
                i <= self.entries.len(),
                rows.len() == i,
                forall|j: int| 0 <= j < i ==> rows[j]@ == display_form(self.entries[j]@),
            decreases self.entries.len() - i,
        {
            rows.push(display_text(self.entries[i].as_str()));
            i += 1;
        }
        assert(texts_of(rows@) =~= display_forms(self@));
        rows
    }
}

} // verus!
