//! The persistent log as plain values: what the store holds, in key order,
//! and the operations that change it.
//!
//! The store itself lives outside this crate. A `PersistentLog` is a copy
//! of its contents that the embedding program reads from it, the functions
//! here decide which operations a change of the history asks for, and the
//! program performs them on the store.

use vstd::prelude::*;
use vstd::slice::slice_to_vec;
use vstd::string::*;
use vstd::utf8::encode_utf8;
use crate::keys::{key_before, key_order, make_sequence_key, KeyOrder};
use crate::log_model::{
    clear_steps, eviction_steps, first_key_of, insertion_steps, lemma_log_insert_between,
    lemma_log_insert_same, lemma_log_of, lemma_log_remove_absent, lemma_log_remove_at,
    log_after_step, log_insert, log_of, log_remove, log_sorted, log_values, record_steps,
    LogModel, StoreStep, LOG_CAPACITY,
};
use crate::text::{byte_strings, bytes_equal};

verus! {

/// One entry of the log.
#[derive(Debug, PartialEq, Eq)]
pub struct LogEntry {
    pub key: Vec<u8>,
    pub value: Vec<u8>,
}

impl View for LogEntry {
    type V = (Seq<u8>, Seq<u8>);

    open spec fn view(&self) -> (Seq<u8>, Seq<u8>) {
        (self.key@, self.value@)
    }
}

/// The key and value pairs of a list of entries.
pub open spec fn pairs_of(entries: Seq<LogEntry>) -> LogModel {
    entries.map_values(|entry: LogEntry| entry@)
}

/// An operation on the store.
#[derive(Debug, PartialEq, Eq)]
pub enum StoreOp {
    /// Remove the entry stored under `key`.
    Remove { key: Vec<u8> },
    /// Store `value` under `key`.
    Insert { key: Vec<u8>, value: Vec<u8> },
    /// Make what was written durable.
    Flush,
    /// Remove every entry.
    Clear,
}

impl View for StoreOp {
    type V = StoreStep;

    open spec fn view(&self) -> StoreStep {
        match *self {
            StoreOp::Remove { key } => StoreStep::Remove { key: key@ },
            StoreOp::Insert { key, value } => StoreStep::Insert { key: key@, value: value@ },
            StoreOp::Flush => StoreStep::Flush,
            StoreOp::Clear => StoreStep::Clear,
        }
    }
}

/// The bytes of an optional key.
pub open spec fn key_of(key: Option<Vec<u8>>) -> Option<Seq<u8>> {
    match key {
        Some(k) => Some(k@),
        None => None,
    }
}

/// The steps of a list of operations.
pub open spec fn steps_of(ops: Seq<StoreOp>) -> Seq<StoreStep> {
    ops.map_values(|op: StoreOp| op@)
}

/// A copy of what the persistent store holds: its entries in key order.
///
/// Its view is the list of key and value pairs. The keys rise strictly.
pub struct PersistentLog {
    entries: Vec<LogEntry>,
}

impl View for PersistentLog {
    type V = LogModel;

    closed spec fn view(&self) -> LogModel {
        pairs_of(self.entries@)
    }
}

impl PersistentLog {
    #[verifier::type_invariant]
    spec fn sorted(&self) -> bool {
        log_sorted(pairs_of(self.entries@))
    }

    /// A log without entries.
    pub fn new() -> (log: Self)
        ensures
            log@ == LogModel::empty(),
    {
        let log = PersistentLog { entries: Vec::new() };
        assert(log@ =~= LogModel::empty());
        log
    }

    /// The log that holds the given entries. Handed the entries of the
    /// store in the order in which it iterates, it is a copy of the store.
    pub fn from_entries(entries: Vec<LogEntry>) -> (log: Self)
        ensures
            log@ == log_of(pairs_of(entries@)),
            log_sorted(log@),
            log_sorted(pairs_of(entries@)) ==> log@ == pairs_of(entries@),
    {
        let ghost pairs = pairs_of(entries@);
        let mut log = PersistentLog::new();
        let mut rest = entries;
        // Entries leave `rest` from its end, so the pairs are stored last to
        // first into a second list, and from there first to last into the log.
        let mut stack: Vec<LogEntry> = Vec::new();
        while rest.len() > 0
            invariant
                rest.len() + stack.len() == pairs.len(),
                pairs_of(rest@) == pairs.take(rest.len() as int),
                forall|i: int|
                    0 <= i < stack.len() ==> (#[trigger] stack[i])@ == pairs[pairs.len() - 1 - i],
            decreases rest.len(),
        {
            let ghost before = pairs_of(rest@);
            let entry = rest.pop().unwrap();
            assert(entry@ == before[before.len() - 1]);
            stack.push(entry);
            assert(pairs_of(rest@) =~= pairs.take(rest.len() as int));
        }
        assert(pairs.take(0) =~= LogModel::empty());
        while stack.len() > 0
            invariant
                stack.len() <= pairs.len(),
                forall|i: int|
                    0 <= i < stack.len() ==> (#[trigger] stack[i])@ == pairs[pairs.len() - 1 - i],
                log@ == log_of(pairs.take(pairs.len() - stack.len())),
            decreases stack.len(),
        {
            let ghost done = pairs.len() - stack.len();
            let entry = stack.pop().unwrap();
            assert(entry@ == pairs[done]);
            assert(pairs.take(done + 1).drop_last() =~= pairs.take(done));
            log.insert(entry.key, entry.value);
        }
        assert(pairs.take(pairs.len() as int) =~= pairs);
        proof {
            lemma_log_of(pairs);
        }
        log
    }

    /// The number of entries.
    pub fn len(&self) -> (n: usize)
        ensures
            n == self@.len(),
    {
        self.entries.len()
    }

    /// The smallest key, under which the oldest entry is stored.
    pub fn first_key(&self) -> (key: Option<Vec<u8>>)
        ensures
            key_of(key) == first_key_of(self@),
            log_sorted(self@),
    {
        proof {
            use_type_invariant(self);
        }
        if self.entries.len() > 0 {
            Some(slice_to_vec(self.entries[0].key.as_slice()))
        } else {
            None
        }
    }

    /// The values, in key order: what a start-up loads the history from.
    pub fn values(&self) -> (values: Vec<Vec<u8>>)
        ensures
            byte_strings(values@) == log_values(self@),
    {
        let mut values: Vec<Vec<u8>> = Vec::new();
        let mut i: usize = 0;
        while i < self.entries.len()
            invariant
                i <= self.entries.len(),
                values.len() == i,
                forall|j: int| 0 <= j < i ==> (#[trigger] values[j])@ == self.entries[j].value@,
            decreases self.entries.len() - i,
        {
            values.push(slice_to_vec(self.entries[i].value.as_slice()));
            i += 1;
        }
        assert(byte_strings(values@) =~= log_values(self@));
        values
    }

    /// Whether some value of the log is exactly `text`, byte for byte: the
    /// question by which the monitor tells a text that was recorded before.
    pub fn holds_text(&self, text: &str) -> (found: bool)
        ensures
            found == log_values(self@).contains(encode_utf8(text@)),
    {
        let wanted = text.as_bytes();
        let mut i: usize = 0;
        while i < self.entries.len()
            invariant
                i <= self.entries.len(),
                wanted@ == encode_utf8(text@),
                forall|j: int| 0 <= j < i ==> log_values(self@)[j] != wanted@,
            decreases self.entries.len() - i,
        {
            if bytes_equal(self.entries[i].value.as_slice(), wanted) {
                assert(log_values(self@)[i as int] == wanted@);
                return true;
            }
            i += 1;
        }
        false
    }

    /// Stores `value` under `key`, in place of what was stored there.
    pub fn insert(&mut self, key: Vec<u8>, value: Vec<u8>)
        ensures
            final(self)@ == log_insert(old(self)@, key@, value@),
            log_sorted(final(self)@),
    {
        proof {
            use_type_invariant(&*self);
        }
        let ghost before = self@;
        let mut entries: Vec<LogEntry> = Vec::new();
        std::mem::swap(&mut entries, &mut self.entries);
        let mut at: usize = 0;
        let mut same: bool = false;
        while at < entries.len()
            invariant_except_break
                !same,
            invariant
                at <= entries.len(),
                pairs_of(entries@) == before,
                forall|i: int| 0 <= i < at ==> key_before(#[trigger] before[i].0, key@),
            ensures
                at <= entries.len(),
                pairs_of(entries@) == before,
                forall|i: int| 0 <= i < at ==> key_before(#[trigger] before[i].0, key@),
                same ==> at < entries.len() && before[at as int].0 == key@,
                !same && at < entries.len() ==> key_before(key@, before[at as int].0),
            decreases entries.len() - at,
        {
            match key_order(entries[at].key.as_slice(), key.as_slice()) {
                KeyOrder::Before => {
                    assert(before[at as int].0 == entries[at as int].key@);
                    at += 1;
                },
                KeyOrder::Same => {
                    assert(before[at as int].0 == entries[at as int].key@);
                    same = true;
                    break ;
                },
                KeyOrder::After => {
                    assert(before[at as int].0 == entries[at as int].key@);
                    break ;
                },
            }
        }
        let entry = LogEntry { key, value };
        if same {
            proof {
                lemma_log_insert_same(before, key@, value@, at as int);
            }
            entries.set(at, entry);
            assert(pairs_of(entries@) =~= before.update(at as int, (key@, value@)));
        } else {
            proof {
                lemma_log_insert_between(before, key@, value@, at as int);
            }
            entries.insert(at, entry);
            assert(pairs_of(entries@) =~= before.insert(at as int, (key@, value@)));
        }
        self.entries = entries;
    }

    /// Removes the entry stored under `key`, if there is one.
    pub fn remove(&mut self, key: &[u8])
        ensures
            final(self)@ == log_remove(old(self)@, key@),
            log_sorted(final(self)@),
    {
        proof {
            use_type_invariant(&*self);
        }
        let ghost before = self@;
        let mut entries: Vec<LogEntry> = Vec::new();
        std::mem::swap(&mut entries, &mut self.entries);
        let mut at: usize = 0;
        while at < entries.len()
            invariant
                at <= entries.len(),
                pairs_of(entries@) == before,
                before == old(self)@,
                log_sorted(before),
                forall|i: int| 0 <= i < at ==> (#[trigger] before[i]).0 != key@,
            decreases entries.len() - at,
        {
            if bytes_equal(entries[at].key.as_slice(), key) {
                assert(before[at as int].0 == entries[at as int].key@);
                proof {
                    lemma_log_remove_at(before, at as int);
                }
                entries.remove(at);
                assert(pairs_of(entries@) =~= before.remove(at as int));
                self.entries = entries;
                return ;
            }
            assert(before[at as int].0 == entries[at as int].key@);
            at += 1;
        }
        proof {
            lemma_log_remove_absent(before, key@);
        }
        self.entries = entries;
    }

    /// Removes every entry.
    pub fn clear(&mut self)
        ensures
            final(self)@ == LogModel::empty(),
    {
        let entries: Vec<LogEntry> = Vec::new();
        assert(pairs_of(entries@) =~= LogModel::empty());
        self.entries = entries;
    }

    /// Performs one operation on this copy, as the store performs it.
    pub fn apply(&mut self, op: StoreOp)
        ensures
            final(self)@ == log_after_step(old(self)@, op@),
            log_sorted(final(self)@),
    {
        proof {
            use_type_invariant(&*self);
        }
        match op {
            StoreOp::Remove { key } => self.remove(key.as_slice()),
            StoreOp::Insert { key, value } => self.insert(key, value),
            StoreOp::Flush => {},
            StoreOp::Clear => self.clear(),
        }
    }

    /// The operations that the store is to perform so that the log takes
    /// `text`, given that this is what the store holds now: those of
    /// `eviction_ops` for this log, then those of `insertion_ops` for the
    /// length that it has after them.
    pub fn record_ops(&self, text: &str) -> (ops: Vec<StoreOp>)
        ensures
            steps_of(ops@) == record_steps(self@, text@),
    {
        let length = self.entries.len();
        let mut ops = eviction_ops(length, self.first_key());
        let ghost eviction = steps_of(ops@);
        assert(ops@.len() == eviction.len());
        let kept = length - ops.len();
        let mut insertion = insertion_ops(kept, text);
        let ghost inserted = steps_of(insertion@);
        ops.append(&mut insertion);
        assert(steps_of(ops@) =~= eviction + inserted);
        assert(steps_of(ops@) =~= record_steps(self@, text@));
        ops
    }

    /// The operations that the store is to perform so that the log forgets
    /// everything.
    pub fn clear_ops() -> (ops: Vec<StoreOp>)
        ensures
            steps_of(ops@) == clear_steps(),
    {
        let mut ops: Vec<StoreOp> = Vec::new();
        ops.push(StoreOp::Clear);
        assert(steps_of(ops@) =~= clear_steps());
        ops
    }
}

/// The first phase of taking a text: the operations by which the store
/// makes room, given the number of its entries and its smallest key, if it
/// has one.
pub fn eviction_ops(length: usize, first_key: Option<Vec<u8>>) -> (ops: Vec<StoreOp>)
    ensures
        steps_of(ops@) == eviction_steps(length as nat, key_of(first_key)),
{
    let mut ops: Vec<StoreOp> = Vec::new();
    match first_key {
        Some(key) => {
            if length >= LOG_CAPACITY {
                ops.push(StoreOp::Remove { key });
            }
        },
        None => {},
    }
    assert(steps_of(ops@) =~= eviction_steps(length as nat, key_of(first_key)));
    ops
}

/// The second phase of taking a text: the operations by which the store
/// takes it, given the number of entries that the store holds at that
/// moment.
pub fn insertion_ops(length: usize, text: &str) -> (ops: Vec<StoreOp>)
    ensures
        steps_of(ops@) == insertion_steps(length as nat, text@),
{
    let mut ops: Vec<StoreOp> = Vec::new();
    ops.push(
        StoreOp::Insert {
            key: make_sequence_key(length as u64),
            value: slice_to_vec(text.as_bytes()),
        },
    );
    ops.push(StoreOp::Flush);
    assert(steps_of(ops@) =~= insertion_steps(length as nat, text@));
    ops
}

} // verus!
