//! The persistent log as a mathematical value: a list of key and value
//! pairs in key order, what each operation of the store makes of it, and
//! which operations a new text asks for.

use vstd::prelude::*;
use vstd::utf8::encode_utf8;
use crate::keys::{
    key_before, lemma_key_before_asymmetric, lemma_key_before_irreflexive,
    lemma_key_before_total, lemma_key_before_transitive, sequence_key,
};

verus! {

/// What a log holds: its keys with their values, in key order.
pub type LogModel = Seq<(Seq<u8>, Seq<u8>)>;

/// The number of entries from which on the log gives up its oldest entry
/// before it takes a new one.
pub const LOG_CAPACITY: usize = 10;

/// The keys of a log rise strictly from each entry to the next.
pub open spec fn log_sorted(log: LogModel) -> bool {
    forall|i: int, j: int|
        0 <= i < j < log.len() ==> key_before(#[trigger] log[i].0, #[trigger] log[j].0)
}

/// The values of a log, in key order.
pub open spec fn log_values(log: LogModel) -> Seq<Seq<u8>> {
    log.map_values(|entry: (Seq<u8>, Seq<u8>)| entry.1)
}

/// Holds of the entries whose key comes before `key`.
pub open spec fn keyed_before(key: Seq<u8>) -> spec_fn((Seq<u8>, Seq<u8>)) -> bool {
    |entry: (Seq<u8>, Seq<u8>)| key_before(entry.0, key)
}

/// Holds of the entries whose key comes after `key`.
pub open spec fn keyed_after(key: Seq<u8>) -> spec_fn((Seq<u8>, Seq<u8>)) -> bool {
    |entry: (Seq<u8>, Seq<u8>)| key_before(key, entry.0)
}

/// Holds of the entries whose key is not `key`.
pub open spec fn keyed_otherwise(key: Seq<u8>) -> spec_fn((Seq<u8>, Seq<u8>)) -> bool {
    |entry: (Seq<u8>, Seq<u8>)| entry.0 != key
}

/// The log after `value` was stored under `key`: the entries with a smaller
/// key, the new entry, the entries with a larger key. An entry that had the
/// same key is gone.
pub open spec fn log_insert(log: LogModel, key: Seq<u8>, value: Seq<u8>) -> LogModel {
    log.filter(keyed_before(key)) + seq![(key, value)] + log.filter(keyed_after(key))
}

/// The log without the entry stored under `key`.
pub open spec fn log_remove(log: LogModel, key: Seq<u8>) -> LogModel {
    log.filter(keyed_otherwise(key))
}

/// Where `keep` holds of the first `n` of `s` and of no other, filtering by
/// it keeps those `n`.
proof fn lemma_filter_keeps_front<A>(s: Seq<A>, keep: spec_fn(A) -> bool, n: int)
    requires
        0 <= n <= s.len(),
        forall|i: int| 0 <= i < n ==> keep(#[trigger] s[i]),
        forall|i: int| n <= i < s.len() ==> !keep(#[trigger] s[i]),
    ensures
        s.filter(keep) == s.take(n),
    decreases s.len(),
{
    reveal(Seq::filter);
    if s.len() == 0 {
        assert(s.take(n) =~= s);
    } else if n == s.len() {
        lemma_filter_keeps_front(s.drop_last(), keep, n - 1);
        assert(s.drop_last().take(n - 1).push(s.last()) =~= s.take(n));
    } else {
        lemma_filter_keeps_front(s.drop_last(), keep, n);
        assert(s.drop_last().take(n) =~= s.take(n));
    }
}

/// Where `keep` holds of all but the first `n` of `s`, and of none of them,
/// filtering by it drops those `n`.
proof fn lemma_filter_keeps_back<A>(s: Seq<A>, keep: spec_fn(A) -> bool, n: int)
    requires
        0 <= n <= s.len(),
        forall|i: int| 0 <= i < n ==> !keep(#[trigger] s[i]),
        forall|i: int| n <= i < s.len() ==> keep(#[trigger] s[i]),
    ensures
        s.filter(keep) == s.skip(n),
    decreases s.len(),
{
    reveal(Seq::filter);
    if s.len() == 0 {
        assert(s.skip(n) =~= s);
    } else if n == s.len() {
        lemma_filter_keeps_back(s.drop_last(), keep, n - 1);
        assert(s.drop_last().skip(n - 1) =~= s.skip(n));
    } else {
        lemma_filter_keeps_back(s.drop_last(), keep, n);
        assert(s.drop_last().skip(n).push(s.last()) =~= s.skip(n));
    }
}

/// In a sorted log, storing under a key that lies between the entries
/// before `at` and those from `at` on puts the new entry at `at`.
pub proof fn lemma_log_insert_between(
    log: LogModel,
    key: Seq<u8>,
    value: Seq<u8>,
    at: int,
)
    requires
        log_sorted(log),
        0 <= at <= log.len(),
        forall|i: int| 0 <= i < at ==> key_before(#[trigger] log[i].0, key),
        at < log.len() ==> key_before(key, log[at].0),
    ensures
        log_insert(log, key, value) == log.insert(at, (key, value)),
        log_sorted(log_insert(log, key, value)),
{
    let smaller = keyed_before(key);
    let larger = keyed_after(key);
    assert forall|i: int| at <= i < log.len() implies key_before(key, #[trigger] log[i].0) by {
        if at < i {
            lemma_key_before_transitive(key, log[at].0, log[i].0);
        }
    }
    assert forall|i: int| at <= i < log.len() implies !smaller(#[trigger] log[i]) by {
        lemma_key_before_asymmetric(key, log[i].0);
    }
    assert forall|i: int| 0 <= i < at implies !larger(#[trigger] log[i]) by {
        lemma_key_before_asymmetric(log[i].0, key);
    }
    lemma_filter_keeps_front(log, smaller, at);
    lemma_filter_keeps_back(log, larger, at);
    let after = log.insert(at, (key, value));
    assert(log_insert(log, key, value) =~= after);
    assert forall|i: int, j: int| 0 <= i < j < after.len() implies key_before(
        #[trigger] after[i].0,
        #[trigger] after[j].0,
    ) by {
        if j < at {
            assert(after[i] == log[i] && after[j] == log[j]);
        } else if j == at {
            assert(after[i] == log[i]);
        } else if i < at {
            assert(after[i] == log[i] && after[j] == log[j - 1]);
            if at == j - 1 {
                lemma_key_before_transitive(log[i].0, key, log[at].0);
            }
        } else if i == at {
            assert(after[j] == log[j - 1]);
        } else {
            assert(after[i] == log[i - 1] && after[j] == log[j - 1]);
        }
    }
}

/// In a sorted log, storing under the key of the entry at `at` replaces
/// that entry.
pub proof fn lemma_log_insert_same(
    log: LogModel,
    key: Seq<u8>,
    value: Seq<u8>,
    at: int,
)
    requires
        log_sorted(log),
        0 <= at < log.len(),
        log[at].0 == key,
    ensures
        log_insert(log, key, value) == log.update(at, (key, value)),
        log_sorted(log_insert(log, key, value)),
{
    let smaller = keyed_before(key);
    let larger = keyed_after(key);
    lemma_key_before_irreflexive(key);
    assert forall|i: int| 0 <= i < at implies smaller(#[trigger] log[i]) && !larger(log[i]) by {
        assert(key_before(log[i].0, log[at].0));
        lemma_key_before_asymmetric(log[i].0, key);
    }
    assert forall|i: int| at < i < log.len() implies !smaller(#[trigger] log[i]) && larger(
        log[i],
    ) by {
        assert(key_before(log[at].0, log[i].0));
        lemma_key_before_asymmetric(key, log[i].0);
    }
    lemma_filter_keeps_front(log, smaller, at);
    lemma_filter_keeps_back(log, larger, at + 1);
    let after = log.update(at, (key, value));
    assert(log_insert(log, key, value) =~= after);
    assert forall|i: int, j: int| 0 <= i < j < after.len() implies key_before(
        #[trigger] after[i].0,
        #[trigger] after[j].0,
    ) by {
        assert(after[i].0 == log[i].0 && after[j].0 == log[j].0);
    }
}

/// In a sorted log, removing the key of the entry at `at` removes that
/// entry and no other.
pub proof fn lemma_log_remove_at(log: LogModel, at: int)
    requires
        log_sorted(log),
        0 <= at < log.len(),
    ensures
        log_remove(log, log[at].0) == log.remove(at),
        log_sorted(log.remove(at)),
{
    let key = log[at].0;
    let other = keyed_otherwise(key);
    lemma_key_before_irreflexive(key);
    assert forall|i: int| 0 <= i < log.len() && i != at implies other(#[trigger] log[i]) by {
        if i < at {
            assert(key_before(log[i].0, log[at].0));
        } else {
            assert(key_before(log[at].0, log[i].0));
        }
    }
    let front = log.take(at);
    let back = log.skip(at + 1);
    lemma_filter_keeps_front(front, other, at);
    lemma_filter_keeps_back(back, other, 0);
    lemma_filter_keeps_front(seq![log[at]], other, 0);
    assert(log =~= front + seq![log[at]] + back);
    Seq::filter_distributes_over_add(front + seq![log[at]], back, other);
    Seq::filter_distributes_over_add(front, seq![log[at]], other);
    assert(log_remove(log, key) =~= log.remove(at));
    let after = log.remove(at);
    assert forall|i: int, j: int| 0 <= i < j < after.len() implies key_before(
        #[trigger] after[i].0,
        #[trigger] after[j].0,
    ) by {
        let from_i = if i < at { i } else { i + 1 };
        let from_j = if j < at { j } else { j + 1 };
        assert(after[i] == log[from_i] && after[j] == log[from_j]);
    }
}

/// In a sorted log, removing a key that no entry has changes nothing.
pub proof fn lemma_log_remove_absent(log: LogModel, key: Seq<u8>)
    requires
        forall|i: int| 0 <= i < log.len() ==> (#[trigger] log[i]).0 != key,
    ensures
        log_remove(log, key) == log,
{
    let other = keyed_otherwise(key);
    lemma_filter_keeps_front(log, other, log.len() as int);
    assert(log.take(log.len() as int) =~= log);
}

/// Up to where the keys of a sorted log come before `key`.
proof fn insert_position(log: LogModel, key: Seq<u8>) -> (at: int)
    ensures
        0 <= at <= log.len(),
        forall|i: int| 0 <= i < at ==> key_before(#[trigger] log[i].0, key),
        at < log.len() ==> !key_before(log[at].0, key),
    decreases log.len(),
{
    if log.len() == 0 {
        0
    } else {
        let front = insert_position(log.drop_last(), key);
        assert forall|i: int| 0 <= i < front implies key_before(#[trigger] log[i].0, key) by {
            assert(log.drop_last()[i] == log[i]);
        }
        if front < log.len() - 1 {
            assert(log.drop_last()[front] == log[front]);
            front
        } else if key_before(log.last().0, key) {
            log.len() as int
        } else {
            front
        }
    }
}

/// Storing into a sorted log leaves it sorted, with the new entry in it and
/// at most one entry more than before.
pub proof fn lemma_log_insert_sorted(log: LogModel, key: Seq<u8>, value: Seq<u8>)
    requires
        log_sorted(log),
    ensures
        log_sorted(log_insert(log, key, value)),
        log_insert(log, key, value).contains((key, value)),
        log.len() <= log_insert(log, key, value).len() <= log.len() + 1,
{
    let at = insert_position(log, key);
    if at < log.len() && log[at].0 == key {
        lemma_log_insert_same(log, key, value, at);
        assert(log.update(at, (key, value))[at] == (key, value));
    } else {
        if at < log.len() {
            lemma_key_before_total(log[at].0, key);
        }
        lemma_log_insert_between(log, key, value, at);
        assert(log.insert(at, (key, value))[at] == (key, value));
    }
}

/// The log that comes of storing `pairs` one after the other, first to
/// last, into an empty log.
pub open spec fn log_of(pairs: LogModel) -> LogModel
    decreases pairs.len(),
{
    if pairs.len() == 0 {
        Seq::empty()
    } else {
        log_insert(log_of(pairs.drop_last()), pairs.last().0, pairs.last().1)
    }
}

/// `log_of` is sorted, and of pairs that are in key order already, as the
/// store hands them out, it is those pairs.
pub proof fn lemma_log_of(pairs: LogModel)
    ensures
        log_sorted(log_of(pairs)),
        log_of(pairs).len() <= pairs.len(),
        log_sorted(pairs) ==> log_of(pairs) == pairs,
    decreases pairs.len(),
{
    if pairs.len() > 0 {
        let front = pairs.drop_last();
        lemma_log_of(front);
        lemma_log_insert_sorted(log_of(front), pairs.last().0, pairs.last().1);
        if log_sorted(pairs) {
            assert forall|i: int, j: int| 0 <= i < j < front.len() implies key_before(
                #[trigger] front[i].0,
                #[trigger] front[j].0,
            ) by {
                assert(front[i] == pairs[i] && front[j] == pairs[j]);
            }
            assert forall|i: int| 0 <= i < front.len() implies key_before(
                #[trigger] front[i].0,
                pairs.last().0,
            ) by {
                assert(front[i] == pairs[i]);
                assert(key_before(pairs[i].0, pairs[pairs.len() - 1].0));
            }
            lemma_log_insert_between(front, pairs.last().0, pairs.last().1, front.len() as int);
            assert(front.insert(front.len() as int, pairs.last()) =~= pairs);
        }
    }
}

/// One operation on the store.
pub enum StoreStep {
    /// The entry stored under `key` is removed.
    Remove { key: Seq<u8> },
    /// `value` is stored under `key`.
    Insert { key: Seq<u8>, value: Seq<u8> },
    /// What was written is made durable.
    Flush,
    /// Every entry is removed.
    Clear,
}

/// The log after one operation. A flush changes nothing of what it holds.
pub open spec fn log_after_step(log: LogModel, step: StoreStep) -> LogModel {
    match step {
        StoreStep::Remove { key } => log_remove(log, key),
        StoreStep::Insert { key, value } => log_insert(log, key, value),
        StoreStep::Flush => log,
        StoreStep::Clear => Seq::empty(),
    }
}

/// The log after a list of operations, first to last.
pub open spec fn log_after_steps(log: LogModel, steps: Seq<StoreStep>) -> LogModel
    decreases steps.len(),
{
    if steps.len() == 0 {
        log
    } else {
        log_after_step(log_after_steps(log, steps.drop_last()), steps.last())
    }
}

/// The smallest key of a log, under which its oldest entry is stored.
pub open spec fn first_key_of(log: LogModel) -> Option<Seq<u8>> {
    if log.len() > 0 {
        Some(log[0].0)
    } else {
        None
    }
}

/// The operations by which a store makes room for a new text, given the
/// number of its entries and its smallest key: with `LOG_CAPACITY` entries
/// or more it gives up the entry under that key, with fewer it gives up
/// nothing.
pub open spec fn eviction_steps(length: nat, first_key: Option<Seq<u8>>) -> Seq<StoreStep> {
    match first_key {
        Some(key) if length >= LOG_CAPACITY => seq![StoreStep::Remove { key }],
        _ => Seq::empty(),
    }
}

/// The operations by which a store of `length` entries takes a new text:
/// the text is stored under the sequence key of that length, and the store
/// is flushed.
pub open spec fn insertion_steps(length: nat, text: Seq<char>) -> Seq<StoreStep> {
    seq![
        StoreStep::Insert { key: sequence_key(length as u64), value: encode_utf8(text) },
        StoreStep::Flush,
    ]
}

/// The operations by which the log takes a new text. A log that holds
/// `LOG_CAPACITY` entries or more first gives up the entry with the smallest
/// key. The text is then stored under the sequence key of the number of
/// entries that the log holds at that moment, and the log is flushed.
pub open spec fn record_steps(log: LogModel, text: Seq<char>) -> Seq<StoreStep> {
    if log.len() >= LOG_CAPACITY {
        seq![
            StoreStep::Remove { key: log[0].0 },
            StoreStep::Insert {
                key: sequence_key((log.len() - 1) as u64),
                value: encode_utf8(text),
            },
            StoreStep::Flush,
        ]
    } else {
        seq![
            StoreStep::Insert { key: sequence_key(log.len() as u64), value: encode_utf8(text) },
            StoreStep::Flush,
        ]
    }
}

/// The operations by which the log forgets everything.
pub open spec fn clear_steps() -> Seq<StoreStep> {
    seq![StoreStep::Clear]
}

/// The log after it took a new text.
pub open spec fn log_after_record(log: LogModel, text: Seq<char>) -> LogModel {
    let kept = if log.len() >= LOG_CAPACITY {
        log.drop_first()
    } else {
        log
    };
    log_insert(kept, sequence_key(kept.len() as u64), encode_utf8(text))
}

/// The log after it took each of `texts` in turn, first to last.
pub open spec fn log_after_records(log: LogModel, texts: Seq<Seq<char>>) -> LogModel
    decreases texts.len(),
{
    if texts.len() == 0 {
        log
    } else {
        log_after_record(log_after_records(log, texts.drop_last()), texts.last())
    }
}

/// Whatever a log holds after it took a text, it held before, but for the
/// text itself.
pub proof fn lemma_record_adds_one_value(log: LogModel, text: Seq<char>, value: Seq<u8>)
    requires
        log_values(log_after_record(log, text)).contains(value),
    ensures
        value == encode_utf8(text) || log_values(log).contains(value),
{
    let kept = if log.len() >= LOG_CAPACITY {
        log.drop_first()
    } else {
        log
    };
    let key = sequence_key(kept.len() as u64);
    let after = log_after_record(log, text);
    let smaller = kept.filter(keyed_before(key));
    let larger = kept.filter(keyed_after(key));
    let at = choose|at: int| 0 <= at < log_values(after).len() && log_values(after)[at] == value;
    let entry = after[at];
    assert(entry.1 == value);
    if value != encode_utf8(text) {
        if at < smaller.len() {
            assert(smaller[at] == entry);
            assert(smaller.contains(entry));
            kept.lemma_filter_contains_rev(keyed_before(key), entry);
        } else {
            assert(larger[at - smaller.len() - 1] == entry);
            assert(larger.contains(entry));
            kept.lemma_filter_contains_rev(keyed_after(key), entry);
        }
        let place = choose|place: int| 0 <= place < kept.len() && kept[place] == entry;
        let origin = if log.len() >= LOG_CAPACITY {
            place + 1
        } else {
            place
        };
        assert(log[origin] == entry);
        assert(log_values(log)[origin] == value);
    }
}

/// The operations of `record_steps` are those of the two phases in which a
/// store takes a text: first the eviction, for the length and smallest key
/// that the log has, then the insertion, for the length that it has after
/// the eviction.
pub proof fn lemma_record_in_two_phases(log: LogModel, text: Seq<char>)
    requires
        log_sorted(log),
    ensures
        record_steps(log, text) == eviction_steps(log.len(), first_key_of(log)) + insertion_steps(
            log_after_steps(log, eviction_steps(log.len(), first_key_of(log))).len(),
            text,
        ),
{
    let eviction = eviction_steps(log.len(), first_key_of(log));
    if log.len() >= LOG_CAPACITY {
        lemma_log_remove_at(log, 0);
        assert(eviction.drop_last() =~= Seq::<StoreStep>::empty());
        reveal_with_fuel(log_after_steps, 2);
        assert(log_after_steps(log, eviction) == log.remove(0));
    } else {
        assert(log_after_steps(log, eviction) == log);
    }
    assert(record_steps(log, text) =~= eviction + insertion_steps(
        log_after_steps(log, eviction).len(),
        text,
    ));
}

/// Performing the operations of `record_steps` on a sorted log gives
/// `log_after_record`: a sorted log that holds the text under its sequence
/// key. A log of at most `LOG_CAPACITY` entries stays within that bound.
pub proof fn lemma_record_steps(log: LogModel, text: Seq<char>)
    requires
        log_sorted(log),
    ensures
        log_after_steps(log, record_steps(log, text)) == log_after_record(log, text),
        log_sorted(log_after_record(log, text)),
        log_values(log_after_record(log, text)).contains(encode_utf8(text)),
        log.len() <= LOG_CAPACITY ==> log_after_record(log, text).len() <= LOG_CAPACITY,
{
    let steps = record_steps(log, text);
    let kept = if log.len() >= LOG_CAPACITY {
        log.drop_first()
    } else {
        log
    };
    let key = sequence_key(kept.len() as u64);
    let value = encode_utf8(text);
    if log.len() >= LOG_CAPACITY {
        lemma_log_remove_at(log, 0);
        assert(log.remove(0) =~= log.drop_first());
        assert(steps.drop_last().drop_last().drop_last() =~= Seq::<StoreStep>::empty());
        assert(steps.drop_last().drop_last() =~= seq![steps[0]]);
        assert(steps.drop_last() =~= seq![steps[0], steps[1]]);
        reveal_with_fuel(log_after_steps, 4);
        assert(log_after_steps(log, steps.drop_last().drop_last()) == kept);
        assert(log_after_steps(log, steps) == log_after_record(log, text));
    } else {
        assert(steps.drop_last().drop_last() =~= Seq::<StoreStep>::empty());
        assert(steps.drop_last() =~= seq![steps[0]]);
        reveal_with_fuel(log_after_steps, 3);
        assert(log_after_steps(log, steps) == log_after_record(log, text));
    }
    lemma_log_insert_sorted(kept, key, value);
    let after = log_after_record(log, text);
    let at = choose|at: int| 0 <= at < after.len() && after[at] == (key, value);
    assert(log_values(after)[at] == value);
}

} // verus!
