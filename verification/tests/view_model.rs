use clipboard_history::history::History;
use clipboard_history::view_model::{
    received, update, Effect, Message, Received, RECEIVE_RETRY_MILLISECONDS,
};

fn history_of(texts: &[&str]) -> History {
    let mut history = History::new();
    for t in texts {
        history.on_new_entry(t.to_string());
    }
    history
}

fn strings(items: &[&str]) -> Vec<String> {
    items.iter().map(|s| s.to_string()).collect()
}

#[test]
fn new_text_is_recorded_and_persisted() {
    let mut history = History::new();
    let effect = update(&mut history, Message::NewClipboardEntry("a".to_string()));
    assert_eq!(effect, Effect::Persist { text: "a".to_string() });
    assert_eq!(history.entries().clone(), strings(&["a"]));
}

#[test]
fn known_text_asks_for_nothing() {
    let mut history = history_of(&["a", "b"]);
    let effect = update(&mut history, Message::NewClipboardEntry("a".to_string()));
    assert_eq!(effect, Effect::Nothing);
    assert_eq!(history.entries().clone(), strings(&["b", "a"]));
}

#[test]
fn clear_empties_the_history_and_clears_the_log() {
    let mut history = history_of(&["a", "b"]);
    assert_eq!(update(&mut history, Message::ClearEntries), Effect::ClearLog);
    assert_eq!(history.len(), 0);
    assert_eq!(update(&mut history, Message::ClearEntries), Effect::ClearLog);
}

#[test]
fn copy_of_a_shown_entry_writes_it_to_the_clipboard() {
    let mut history = history_of(&["a", "b", "c"]);
    assert_eq!(
        update(&mut history, Message::CopyEntry(2)),
        Effect::WriteClipboard { text: "a".to_string() }
    );
    assert_eq!(history.entries().clone(), strings(&["c", "b", "a"]));
}

#[test]
fn copy_out_of_bounds_does_nothing() {
    let mut history = history_of(&["a", "b", "c"]);
    assert_eq!(update(&mut history, Message::CopyEntry(3)), Effect::Nothing);
    assert_eq!(update(&mut history, Message::CopyEntry(usize::MAX)), Effect::Nothing);
    assert_eq!(history.entries().clone(), strings(&["c", "b", "a"]));
}

#[test]
fn received_message_is_handed_on() {
    assert_eq!(received(Some(Message::ClearEntries)), Received::Handle(Message::ClearEntries));
    assert_eq!(received(Some(Message::CopyEntry(4))), Received::Handle(Message::CopyEntry(4)));
    assert_eq!(
        received(Some(Message::NewClipboardEntry("t".to_string()))),
        Received::Handle(Message::NewClipboardEntry("t".to_string()))
    );
}

#[test]
fn failed_receive_hands_nothing_to_the_history() {
    assert_eq!(RECEIVE_RETRY_MILLISECONDS, 100);
    assert_eq!(received(None), Received::RetryAfter { milliseconds: 100 });
    assert!(!matches!(received(None), Received::Handle(_)));
}

#[test]
fn failed_receive_leaves_the_history_as_it_was() {
    let mut history = history_of(&["a", "b"]);
    for outcome in [None, Some(Message::CopyEntry(9)), None] {
        if let Received::Handle(message) = received(outcome) {
            update(&mut history, message);
        }
    }
    assert_eq!(history.entries().clone(), strings(&["b", "a"]));
}
