//! Laws of the history and of the persistent log, proved of every input.

use vstd::prelude::*;
use vstd::utf8::{encode_utf8, encode_utf8_decode_utf8, encode_utf8_valid_utf8};
use crate::history::{
    first_occurrences, history_valid, lemma_first_occurrences, lemma_newest_first_valid,
    lemma_stored_texts, lemma_with_new_entry_valid, loaded_history, newest_first, stored_texts,
    with_new_entries, with_new_entry, HISTORY_CAPACITY,
};
use crate::keys::{key_before, lemma_sequence_keys_order, sequence_key};
use crate::log_model::{
    clear_steps, lemma_log_insert_between, lemma_log_insert_same, lemma_record_adds_one_value,
    lemma_record_steps,
    log_after_record, log_after_records, log_after_steps, log_sorted, log_values, record_steps,
    LogModel, LOG_CAPACITY,
};
use crate::session::{
    after_clear, after_new_entry, after_tick, after_ticks, session_valid, started, Session,
};
use crate::text::stored_text;

verus! {

/// Texts that were submitted in turn are all texts of the list they came in.
proof fn lemma_entries_come_from_texts(texts: Seq<Seq<char>>, text: Seq<char>)
    requires
        with_new_entries(Seq::empty(), texts).contains(text),
    ensures
        texts.contains(text),
    decreases texts.len(),
{
    if texts.len() > 0 {
        let front = texts.drop_last();
        let before = with_new_entries(Seq::empty(), front);
        let after = with_new_entries(Seq::empty(), texts);
        let at = choose|at: int| 0 <= at < after.len() && after[at] == text;
        if text == texts.last() {
            assert(texts[texts.len() - 1] == text);
        } else {
            if !before.contains(texts.last()) {
                let grown = seq![texts.last()] + before;
                assert(grown[at] == text);
                assert(before[at - 1] == text);
            }
            assert(before.contains(text));
            lemma_entries_come_from_texts(front, text);
            let i = choose|i: int| 0 <= i < front.len() && front[i] == text;
            assert(texts[i] == text);
        }
    }
}

/// After any sequence of distinct texts was submitted to an empty history,
/// first to last, the history holds the last `HISTORY_CAPACITY` of them, or
/// all where they are fewer, the newest first and none twice.
pub proof fn lemma_distinct_texts_newest_first(texts: Seq<Seq<char>>)
    requires
        texts.no_duplicates(),
    ensures
        with_new_entries(Seq::empty(), texts) == newest_first(texts),
        history_valid(with_new_entries(Seq::empty(), texts)),
        with_new_entries(Seq::empty(), texts).len() == if texts.len() <= HISTORY_CAPACITY {
            texts.len()
        } else {
            HISTORY_CAPACITY as nat
        },
        forall|i: int|
            0 <= i < with_new_entries(Seq::empty(), texts).len() ==> #[trigger] with_new_entries(
                Seq::empty(),
                texts,
            )[i] == texts[texts.len() - 1 - i],
    decreases texts.len(),
{
    lemma_newest_first_valid(texts);
    if texts.len() == 0 {
        assert(newest_first(texts) =~= Seq::<Seq<char>>::empty());
    } else {
        let front = texts.drop_last();
        let newest = texts.last();
        let before = with_new_entries(Seq::empty(), front);
        assert(front.no_duplicates());
        lemma_distinct_texts_newest_first(front);
        assert(!before.contains(newest)) by {
            if before.contains(newest) {
                lemma_entries_come_from_texts(front, newest);
                let i = choose|i: int| 0 <= i < front.len() && front[i] == newest;
                assert(texts[i] == texts[texts.len() - 1]);
            }
        }
        assert(with_new_entries(Seq::empty(), texts) =~= newest_first(texts));
    }
}

/// Submitting the text that was submitted last once more changes nothing.
pub proof fn lemma_resubmission_changes_nothing(history: Seq<Seq<char>>, text: Seq<char>)
    ensures
        with_new_entry(with_new_entry(history, text), text) == with_new_entry(history, text),
{
    if !history.contains(text) {
        let grown = seq![text] + history;
        assert(grown[0] == text);
        assert(with_new_entry(history, text)[0] == text);
    }
}

/// A text that a full history does not hold yet takes the front, every
/// entry but the oldest moves one place back, and the oldest alone leaves:
/// the history still holds `HISTORY_CAPACITY` entries.
pub proof fn lemma_full_history_evicts_oldest(history: Seq<Seq<char>>, text: Seq<char>)
    requires
        history_valid(history),
        history.len() == HISTORY_CAPACITY,
        !history.contains(text),
    ensures
        with_new_entry(history, text) == seq![text] + history.drop_last(),
        with_new_entry(history, text).len() == HISTORY_CAPACITY,
        !with_new_entry(history, text).contains(history.last()),
        forall|i: int|
            0 <= i < history.len() - 1 ==> with_new_entry(history, text).contains(
                #[trigger] history[i],
            ),
{
    let after = with_new_entry(history, text);
    assert(after =~= seq![text] + history.drop_last());
    assert forall|i: int| 0 <= i < history.len() - 1 implies after.contains(
        #[trigger] history[i],
    ) by {
        assert(after[i + 1] == history[i]);
    }
    if after.contains(history.last()) {
        let at = choose|at: int| 0 <= at < after.len() && after[at] == history.last();
        if at == 0 {
            assert(history.contains(text));
        } else {
            assert(history[at - 1] == history[history.len() - 1]);
        }
    }
}

/// Once the log was cleared, a start-up loads an empty history from it,
/// whatever the log held before.
pub proof fn lemma_clear_then_load_is_empty(log: LogModel)
    ensures
        log_after_steps(log, clear_steps()) == LogModel::empty(),
        loaded_history(log_values(log_after_steps(log, clear_steps()))) == Seq::<
            Seq<char>,
        >::empty(),
{
    let steps = clear_steps();
    assert(steps.drop_last() =~= Seq::empty());
    reveal_with_fuel(log_after_steps, 2);
    let cleared = log_after_steps(log, steps);
    assert(cleared =~= Seq::empty());
    assert(log_values(cleared) =~= Seq::empty());
    assert(stored_texts(log_values(cleared)) =~= Seq::empty());
    assert(first_occurrences(stored_texts(log_values(cleared))) =~= Seq::empty());
    assert(loaded_history(log_values(cleared)) =~= Seq::empty());
}

/// Whatever the store holds, the history that a start-up loads from it is
/// valid, and its texts are texts that values of the store stand for.
pub proof fn lemma_loaded_history_valid(values: Seq<Seq<u8>>)
    ensures
        history_valid(loaded_history(values)),
        forall|text: Seq<char>| #[trigger]
            loaded_history(values).contains(text) ==> stored_texts(values).contains(text),
{
    let texts = stored_texts(values);
    let distinct = first_occurrences(texts);
    lemma_first_occurrences(texts);
    lemma_newest_first_valid(distinct);
    assert forall|text: Seq<char>| #[trigger]
        loaded_history(values).contains(text) implies texts.contains(text) by {
        let loaded = loaded_history(values);
        let at = choose|at: int| 0 <= at < loaded.len() && loaded[at] == text;
        assert(distinct.reverse()[at] == text);
        assert(distinct[distinct.len() - 1 - at] == text);
        assert(distinct.contains(text));
    }
}

/// A text that a log within its capacity has taken is in the history that
/// the next start-up loads from it.
pub proof fn lemma_recorded_text_is_loaded(log: LogModel, text: Seq<char>)
    requires
        log_sorted(log),
        log.len() <= LOG_CAPACITY,
    ensures
        loaded_history(log_values(log_after_record(log, text))).contains(text),
{
    let after = log_after_record(log, text);
    let values = log_values(after);
    let texts = stored_texts(values);
    let distinct = first_occurrences(texts);
    lemma_record_steps(log, text);
    lemma_stored_texts(values);
    lemma_first_occurrences(texts);
    let at = choose|at: int| 0 <= at < values.len() && values[at] == encode_utf8(text);
    encode_utf8_valid_utf8(text);
    encode_utf8_decode_utf8(text);
    assert(stored_text(values[at]) == Some(text));
    assert(texts.contains(text));
    assert(distinct.contains(text));
    let place = choose|place: int| 0 <= place < distinct.len() && distinct[place] == text;
    assert(distinct.reverse()[distinct.len() - 1 - place] == text);
}

/// The entries that a log holds after it took `texts` into an empty store,
/// where they are no more than its capacity: the texts in turn, each under
/// the sequence key of its place.
pub open spec fn entries_in_sequence(texts: Seq<Seq<char>>) -> LogModel {
    Seq::new(texts.len(), |i: int| (sequence_key(i as u64), encode_utf8(texts[i])))
}

/// An empty log that takes up to `LOG_CAPACITY` texts holds them in the
/// order in which they came, and neither gives one up nor writes over one.
pub proof fn lemma_fresh_log_keeps_texts_in_order(texts: Seq<Seq<char>>)
    requires
        texts.len() <= LOG_CAPACITY,
    ensures
        log_after_records(Seq::empty(), texts) == entries_in_sequence(texts),
        log_sorted(entries_in_sequence(texts)),
    decreases texts.len(),
{
    let log = entries_in_sequence(texts);
    assert forall|i: int, j: int| 0 <= i < j < log.len() implies key_before(
        #[trigger] log[i].0,
        #[trigger] log[j].0,
    ) by {
        lemma_sequence_keys_order(i as u64, j as u64);
    }
    if texts.len() == 0 {
        assert(log_after_records(Seq::empty(), texts) =~= log);
    } else {
        let front = texts.drop_last();
        let before = entries_in_sequence(front);
        lemma_fresh_log_keeps_texts_in_order(front);
        let key = sequence_key(before.len() as u64);
        let value = encode_utf8(texts.last());
        assert forall|i: int| 0 <= i < before.len() implies key_before(
            #[trigger] before[i].0,
            key,
        ) by {
            lemma_sequence_keys_order(i as u64, before.len() as u64);
        }
        lemma_log_insert_between(before, key, value, before.len() as int);
        assert(before.insert(before.len() as int, (key, value)) =~= log);
    }
}

/// The values that stand for `texts` are read back as `texts`.
proof fn lemma_encoded_texts_are_stored_texts(texts: Seq<Seq<char>>)
    ensures
        stored_texts(texts.map_values(|text: Seq<char>| encode_utf8(text))) == texts,
    decreases texts.len(),
{
    let values = texts.map_values(|text: Seq<char>| encode_utf8(text));
    if texts.len() == 0 {
        assert(stored_texts(values) =~= texts);
    } else {
        let front = texts.drop_last();
        lemma_encoded_texts_are_stored_texts(front);
        assert(values.drop_last() =~= front.map_values(|text: Seq<char>| encode_utf8(text)));
        encode_utf8_valid_utf8(texts.last());
        encode_utf8_decode_utf8(texts.last());
        assert(stored_text(values.last()) == Some(texts.last()));
        assert(stored_texts(values) =~= texts);
    }
}

/// Up to its capacity the log mirrors the history: after up to
/// `LOG_CAPACITY` distinct texts went into an empty history and an empty
/// log, a start-up loads from the log the very history that they left.
pub proof fn lemma_restart_shows_same_history(texts: Seq<Seq<char>>)
    requires
        texts.no_duplicates(),
        texts.len() <= LOG_CAPACITY,
    ensures
        loaded_history(log_values(log_after_records(Seq::empty(), texts))) == with_new_entries(
            Seq::empty(),
            texts,
        ),
{
    lemma_fresh_log_keeps_texts_in_order(texts);
    let log = entries_in_sequence(texts);
    assert(log_values(log) =~= texts.map_values(|text: Seq<char>| encode_utf8(text)));
    lemma_encoded_texts_are_stored_texts(texts);
    lemma_first_occurrences(texts);
    lemma_distinct_texts_newest_first(texts);
}

/// The weakness of keys that are taken from the length of the log: a log
/// that was filled in sequence up to its capacity gives up its oldest entry
/// for the next text, and then stores that text over its newest entry. It
/// holds one entry less afterwards, and the text that was newest is lost.
pub proof fn lemma_full_log_writes_over_newest(texts: Seq<Seq<char>>, text: Seq<char>)
    requires
        texts.len() == LOG_CAPACITY,
    ensures
        log_after_record(entries_in_sequence(texts), text) == entries_in_sequence(
            texts,
        ).drop_first().drop_last().push((sequence_key(9), encode_utf8(text))),
        log_after_record(entries_in_sequence(texts), text).len() == LOG_CAPACITY - 1,
{
    let log = entries_in_sequence(texts);
    let kept = log.drop_first();
    lemma_fresh_log_keeps_texts_in_order(texts);
    assert forall|i: int, j: int| 0 <= i < j < kept.len() implies key_before(
        #[trigger] kept[i].0,
        #[trigger] kept[j].0,
    ) by {
        assert(kept[i] == log[i + 1] && kept[j] == log[j + 1]);
    }
    assert(kept[8] == log[9]);
    lemma_log_insert_same(kept, sequence_key(9), encode_utf8(text), 8);
    assert(kept.update(8, (sequence_key(9), encode_utf8(text))) =~= kept.drop_last().push(
        (sequence_key(9), encode_utf8(text)),
    ));
}

/// Different texts are stored as different values.
proof fn lemma_encoding_tells_texts_apart(a: Seq<char>, b: Seq<char>)
    requires
        encode_utf8(a) == encode_utf8(b),
    ensures
        a == b,
{
    encode_utf8_decode_utf8(a);
    encode_utf8_decode_utf8(b);
}

/// What holds of a session that started on an empty log and saw distinct
/// texts, none of them empty: every text went into the history, the monitor
/// remembers the last one, and the log holds no value but theirs.
proof fn lemma_ticks_on_distinct_texts(texts: Seq<Seq<char>>)
    requires
        texts.no_duplicates(),
        forall|i: int| 0 <= i < texts.len() ==> (#[trigger] texts[i]).len() > 0,
    ensures
        after_ticks(started(Seq::empty()), texts).history == with_new_entries(
            Seq::empty(),
            texts,
        ),
        after_ticks(started(Seq::empty()), texts).last_seen == if texts.len() == 0 {
            Seq::<char>::empty()
        } else {
            texts.last()
        },
        forall|value: Seq<u8>| #[trigger]
            log_values(after_ticks(started(Seq::empty()), texts).log).contains(value)
                ==> exists|i: int|
                0 <= i < texts.len() && value == encode_utf8(#[trigger] texts[i]),
    decreases texts.len(),
{
    let start = started(Seq::empty());
    if texts.len() == 0 {
        lemma_clear_then_load_is_empty(Seq::empty());
        assert(log_values(LogModel::empty()) =~= Seq::<Seq<u8>>::empty());
        assert(start.history =~= Seq::<Seq<char>>::empty()) by {
            assert(stored_texts(log_values(LogModel::empty())) =~= Seq::empty());
            assert(first_occurrences(Seq::empty()) =~= Seq::<Seq<char>>::empty());
        }
    } else {
        let front = texts.drop_last();
        let newest = texts.last();
        let before = after_ticks(start, front);
        let after = after_ticks(start, texts);
        assert(front.no_duplicates());
        lemma_ticks_on_distinct_texts(front);
        lemma_distinct_texts_newest_first(front);
        assert(newest == texts[texts.len() - 1]);
        assert(newest != before.last_seen) by {
            if front.len() > 0 {
                assert(front.last() == texts[texts.len() - 2]);
            }
        }
        assert(!log_values(before.log).contains(encode_utf8(newest))) by {
            if log_values(before.log).contains(encode_utf8(newest)) {
                let i = choose|i: int|
                    0 <= i < front.len() && encode_utf8(newest) == encode_utf8(#[trigger] front[i]);
                lemma_encoding_tells_texts_apart(newest, front[i]);
                assert(texts[i] == texts[texts.len() - 1]);
            }
        }
        assert(!before.history.contains(newest)) by {
            if before.history.contains(newest) {
                lemma_entries_come_from_texts(front, newest);
                let i = choose|i: int| 0 <= i < front.len() && front[i] == newest;
                assert(texts[i] == texts[texts.len() - 1]);
            }
        }
        assert(after.log == log_after_record(before.log, newest));
        assert forall|value: Seq<u8>| #[trigger]
            log_values(after.log).contains(value) implies exists|i: int|
            0 <= i < texts.len() && value == encode_utf8(#[trigger] texts[i]) by {
            lemma_record_adds_one_value(before.log, newest, value);
            if value == encode_utf8(newest) {
                assert(value == encode_utf8(texts[texts.len() - 1]));
            } else {
                let i = choose|i: int|
                    0 <= i < front.len() && value == encode_utf8(#[trigger] front[i]);
                assert(value == encode_utf8(texts[i]));
            }
        }
    }
}

/// After a session that started on an empty store has seen any sequence of
/// distinct clipboard texts, none of them empty, its history holds the last
/// `HISTORY_CAPACITY` of them, or all where they are fewer, the newest first
/// and none twice.
pub proof fn lemma_distinct_reads_newest_first(texts: Seq<Seq<char>>)
    requires
        texts.no_duplicates(),
        forall|i: int| 0 <= i < texts.len() ==> (#[trigger] texts[i]).len() > 0,
    ensures
        after_ticks(started(Seq::empty()), texts).history == newest_first(texts),
        history_valid(after_ticks(started(Seq::empty()), texts).history),
{
    lemma_ticks_on_distinct_texts(texts);
    lemma_distinct_texts_newest_first(texts);
}

/// A clear followed at once by a fresh start-up shows an empty history,
/// whatever the session held.
pub proof fn lemma_clear_then_restart_is_empty(session: Session)
    ensures
        started(after_clear(session).log).history == Seq::<Seq<char>>::empty(),
{
    lemma_clear_then_load_is_empty(session.log);
}

/// A tick that reads what the monitor saw last, nothing at all or an empty
/// text changes nothing.
pub proof fn lemma_idle_tick_changes_nothing(session: Session, read: Option<Seq<char>>)
    requires
        read is None || read.unwrap().len() == 0 || read.unwrap() == session.last_seen,
    ensures
        after_tick(session, read) == session,
{
}

/// The session that a start-up makes of a log in key order is valid.
pub proof fn lemma_started_session_is_valid(log: LogModel)
    requires
        log_sorted(log),
    ensures
        session_valid(started(log)),
{
    lemma_loaded_history_valid(log_values(log));
}

/// A valid session stays valid through a notification, a clear and a tick
/// of the monitor, and a log within its capacity stays within it.
pub proof fn lemma_session_stays_valid(session: Session, text: Seq<char>, read: Option<Seq<char>>)
    requires
        session_valid(session),
    ensures
        session_valid(after_new_entry(session, text)),
        session_valid(after_clear(session)),
        session_valid(after_tick(session, read)),
        session.log.len() <= LOG_CAPACITY ==> after_new_entry(session, text).log.len()
            <= LOG_CAPACITY && after_tick(session, read).log.len() <= LOG_CAPACITY,
{
    lemma_with_new_entry_valid(session.history, text);
    lemma_record_steps(session.log, text);
    if read is Some {
        lemma_with_new_entry_valid(session.history, read.unwrap());
        lemma_record_steps(session.log, read.unwrap());
    }
}

/// The operations that are handed to the store make the step of the log
/// that the session takes: those of `record_steps` where a text went into
/// the history, those of `clear_steps` where the history was cleared.
pub proof fn lemma_operations_make_the_step(session: Session, text: Seq<char>)
    requires
        session_valid(session),
    ensures
        !session.history.contains(text) ==> after_new_entry(session, text).log == log_after_steps(
            session.log,
            record_steps(session.log, text),
        ),
        session.history.contains(text) ==> after_new_entry(session, text) == session,
        after_clear(session).log == log_after_steps(session.log, clear_steps()),
{
    lemma_record_steps(session.log, text);
    lemma_clear_then_load_is_empty(session.log);
}

} // verus!
