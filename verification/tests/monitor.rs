use clipboard_history::monitor::{
    notification, Monitor, NOTIFICATION_BACKLOG, POLL_INTERVAL_SECONDS,
};
use clipboard_history::persistent_log::PersistentLog;

fn log_with(texts: &[&str]) -> PersistentLog {
    let mut log = PersistentLog::new();
    for t in texts {
        for op in log.record_ops(t) {
            log.apply(op);
        }
    }
    log
}

#[test]
fn constants_are_those_of_the_monitor() {
    assert_eq!(POLL_INTERVAL_SECONDS, 1);
    assert_eq!(NOTIFICATION_BACKLOG, 100);
}

#[test]
fn new_monitor_has_seen_nothing() {
    let monitor = Monitor::new();
    assert_eq!(monitor.last_seen(), "");
}

#[test]
fn failed_read_is_passed_over() {
    let mut monitor = Monitor::new();
    assert_eq!(monitor.observe(Some("a".to_string())), Some("a".to_string()));
    assert_eq!(monitor.observe(None), None);
    assert_eq!(monitor.last_seen(), "a");
    assert_eq!(monitor.poll_tick(None, &PersistentLog::new()), None);
    assert_eq!(monitor.last_seen(), "a");
}

#[test]
fn empty_text_is_passed_over() {
    let mut monitor = Monitor::new();
    assert_eq!(monitor.observe(Some(String::new())), None);
    assert_eq!(monitor.observe(Some("a".to_string())), Some("a".to_string()));
    assert_eq!(monitor.observe(Some(String::new())), None);
    assert_eq!(monitor.last_seen(), "a");
}

#[test]
fn text_seen_last_is_passed_over() {
    let mut monitor = Monitor::new();
    assert_eq!(monitor.observe(Some("a".to_string())), Some("a".to_string()));
    assert_eq!(monitor.observe(Some("a".to_string())), None);
    assert_eq!(monitor.observe(Some("b".to_string())), Some("b".to_string()));
    assert_eq!(monitor.observe(Some("a".to_string())), Some("a".to_string()));
    assert_eq!(monitor.last_seen(), "a");
}

#[test]
fn text_in_the_log_is_seen_but_not_notified() {
    let log = log_with(&["a", "b"]);
    let mut monitor = Monitor::new();
    assert_eq!(monitor.poll_tick(Some("b".to_string()), &log), None);
    assert_eq!(monitor.last_seen(), "b");
    assert_eq!(monitor.poll_tick(Some("c".to_string()), &log), Some("c".to_string()));
    assert_eq!(monitor.last_seen(), "c");
}

#[test]
fn text_seen_last_is_not_notified_even_if_the_log_lost_it() {
    let mut monitor = Monitor::new();
    let log = log_with(&["a"]);
    assert_eq!(monitor.poll_tick(Some("a".to_string()), &log), None);
    assert_eq!(monitor.poll_tick(Some("a".to_string()), &PersistentLog::new()), None);
}

#[test]
fn new_text_is_notified_once() {
    let log = PersistentLog::new();
    let mut monitor = Monitor::new();
    assert_eq!(monitor.poll_tick(Some("x".to_string()), &log), Some("x".to_string()));
    assert_eq!(monitor.poll_tick(Some("x".to_string()), &log), None);
    assert_eq!(monitor.poll_tick(Some("y".to_string()), &log), Some("y".to_string()));
}

#[test]
fn notification_passes_a_text_that_the_log_does_not_hold() {
    let log = log_with(&["a", "b"]);
    assert_eq!(notification("c".to_string(), &log), Some("c".to_string()));
    assert_eq!(notification("A".to_string(), &log), Some("A".to_string()));
    assert_eq!(notification("x".to_string(), &PersistentLog::new()), Some("x".to_string()));
}

#[test]
fn notification_holds_back_a_text_that_the_log_holds() {
    let log = log_with(&["a", "b"]);
    assert_eq!(notification("a".to_string(), &log), None);
    assert_eq!(notification("b".to_string(), &log), None);
}

#[test]
fn observe_then_notification_is_a_tick() {
    let log = log_with(&["a"]);
    let reads = [Some("a"), Some(""), None, Some("b"), Some("b"), Some("a"), Some("c")];
    let mut whole = Monitor::new();
    let mut halves = Monitor::new();
    for read in reads {
        let read = read.map(|t| t.to_string());
        let by_tick = whole.poll_tick(read.clone(), &log);
        let by_halves = match halves.observe(read) {
            Some(candidate) => notification(candidate, &log),
            None => None,
        };
        assert_eq!(by_tick, by_halves);
        assert_eq!(whole.last_seen(), halves.last_seen());
    }
}
