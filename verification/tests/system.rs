use clipboard_history::history::History;
use clipboard_history::monitor::Monitor;
use clipboard_history::persistent_log::PersistentLog;
use clipboard_history::view_model::{received, update, Effect, Message, Received};

/// The parts of the utility, with a copy of the log in place of the store
/// and a string in place of the clipboard.
struct System {
    monitor: Monitor,
    history: History,
    log: PersistentLog,
    clipboard: Option<String>,
}

fn start(log: PersistentLog) -> System {
    let history = History::load(&log.values());
    System { monitor: Monitor::new(), history, log, clipboard: None }
}

fn handle(system: &mut System, message: Message) {
    match update(&mut system.history, message) {
        Effect::Nothing => {}
        Effect::Persist { text } => {
            for op in system.log.record_ops(&text) {
                system.log.apply(op);
            }
        }
        Effect::ClearLog => {
            for op in PersistentLog::clear_ops() {
                system.log.apply(op);
            }
        }
        Effect::WriteClipboard { text } => system.clipboard = Some(text),
    }
}

fn feed(system: &mut System, text: &str) {
    if let Some(found) = system.monitor.poll_tick(Some(text.to_string()), &system.log) {
        handle(system, Message::NewClipboardEntry(found));
    }
}

fn shown(system: &System) -> Vec<String> {
    system.history.entries().clone()
}

fn strings(items: &[&str]) -> Vec<String> {
    items.iter().map(|s| s.to_string()).collect()
}

#[test]
fn three_texts_into_an_empty_store_show_newest_first() {
    let mut system = start(PersistentLog::new());
    feed(&mut system, "a");
    feed(&mut system, "b");
    feed(&mut system, "c");
    assert_eq!(shown(&system), strings(&["c", "b", "a"]));
    assert_eq!(system.log.values(), vec![b"a".to_vec(), b"b".to_vec(), b"c".to_vec()]);
}

#[test]
fn known_text_fed_again_leaves_the_history_unchanged() {
    let mut system = start(PersistentLog::new());
    for t in ["a", "b", "c"] {
        feed(&mut system, t);
    }
    assert_eq!(shown(&system), strings(&["c", "b", "a"]));
    feed(&mut system, "b");
    assert_eq!(shown(&system), strings(&["c", "b", "a"]));
    handle(&mut system, Message::NewClipboardEntry("b".to_string()));
    assert_eq!(shown(&system), strings(&["c", "b", "a"]));
    assert_eq!(system.log.len(), 3);
}

#[test]
fn eleventh_text_fed_evicts_the_oldest() {
    let mut system = start(PersistentLog::new());
    for t in ["a", "b", "c", "d", "e", "f", "g", "h", "i", "j"] {
        feed(&mut system, t);
    }
    assert_eq!(
        shown(&system),
        strings(&["j", "i", "h", "g", "f", "e", "d", "c", "b", "a"])
    );
    feed(&mut system, "k");
    assert_eq!(
        shown(&system),
        strings(&["k", "j", "i", "h", "g", "f", "e", "d", "c", "b"])
    );
    assert_eq!(system.history.len(), 10);
}

#[test]
fn copy_at_an_index_writes_that_entry_or_nothing() {
    let mut system = start(PersistentLog::new());
    for t in ["a", "b", "c"] {
        feed(&mut system, t);
    }
    handle(&mut system, Message::CopyEntry(1));
    assert_eq!(system.clipboard, Some("b".to_string()));
    system.clipboard = None;
    handle(&mut system, Message::CopyEntry(5));
    assert_eq!(system.clipboard, None);
    assert_eq!(shown(&system), strings(&["c", "b", "a"]));
}

#[test]
fn clear_then_fresh_start_shows_an_empty_history() {
    let mut system = start(PersistentLog::new());
    for t in ["a", "b", "c"] {
        feed(&mut system, t);
    }
    handle(&mut system, Message::ClearEntries);
    assert_eq!(system.history.len(), 0);
    assert_eq!(system.log.len(), 0);
    let restarted = start(system.log);
    assert_eq!(restarted.history.len(), 0);
}

#[test]
fn fresh_start_shows_what_was_recorded() {
    let mut system = start(PersistentLog::new());
    for t in ["a", "b", "c", "d"] {
        feed(&mut system, t);
    }
    let before = shown(&system);
    let restarted = start(system.log);
    assert_eq!(shown(&restarted), before);
}

#[test]
fn cleared_text_can_be_recorded_again_after_another() {
    let mut system = start(PersistentLog::new());
    feed(&mut system, "a");
    handle(&mut system, Message::ClearEntries);
    feed(&mut system, "a");
    assert_eq!(shown(&system), strings(&[]));
    feed(&mut system, "b");
    feed(&mut system, "a");
    assert_eq!(shown(&system), strings(&["a", "b"]));
}

#[test]
fn empty_reads_and_repeats_record_nothing() {
    let mut system = start(PersistentLog::new());
    feed(&mut system, "");
    feed(&mut system, "a");
    feed(&mut system, "a");
    feed(&mut system, "");
    feed(&mut system, "a");
    assert_eq!(shown(&system), strings(&["a"]));
    assert_eq!(system.log.len(), 1);
}

#[test]
fn start_from_a_stale_store_repairs_what_it_shows() {
    let mut log = PersistentLog::new();
    let stale: [&[u8]; 6] = [b"x", b"y", b"x", &[0xff], b"z", b"y"];
    for (i, value) in stale.iter().enumerate() {
        log.insert(vec![i as u8], value.to_vec());
    }
    let system = start(log);
    assert_eq!(shown(&system), strings(&["z", "y", "x"]));
}

#[test]
fn failed_receives_between_messages_add_nothing() {
    let mut system = start(PersistentLog::new());
    let outcomes = [
        None,
        Some(Message::NewClipboardEntry("a".to_string())),
        None,
        None,
        Some(Message::NewClipboardEntry("b".to_string())),
        None,
    ];
    for outcome in outcomes {
        match received(outcome) {
            Received::Handle(message) => handle(&mut system, message),
            Received::RetryAfter { milliseconds } => assert_eq!(milliseconds, 100),
        }
    }
    assert_eq!(shown(&system), strings(&["b", "a"]));
    assert_eq!(system.log.values(), vec![b"a".to_vec(), b"b".to_vec()]);
}
