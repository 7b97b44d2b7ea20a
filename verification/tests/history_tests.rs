use eldoria_npc::history::{compose_messages, reply_text, HistoryMessage, NpcHistories};

fn pair(m: &HistoryMessage) -> (Option<String>, Option<String>) {
    (m.role.clone(), m.content.clone())
}

#[test]
fn record_then_read_appends_exchange() {
    let mut h = NpcHistories::new();
    assert!(h.history("Aldric").is_empty());
    h.record_exchange("Aldric", HistoryMessage::new("user", "Hi"), HistoryMessage::new("assistant", "Hail!"));
    h.record_exchange("Aldric", HistoryMessage::new("user", "Bye"), HistoryMessage::new("assistant", "Farewell."));
    let got: Vec<_> = h.history("Aldric").iter().map(pair).collect();
    assert_eq!(
        got,
        vec![
            (Some("user".to_string()), Some("Hi".to_string())),
            (Some("assistant".to_string()), Some("Hail!".to_string())),
            (Some("user".to_string()), Some("Bye".to_string())),
            (Some("assistant".to_string()), Some("Farewell.".to_string())),
        ]
    );
    assert!(h.history("Mira").is_empty());
}

#[test]
fn reset_forgets_only_that_npc() {
    let mut h = NpcHistories::new();
    h.record_exchange("Aldric", HistoryMessage::new("user", "a"), HistoryMessage::new("assistant", "b"));
    h.record_exchange("Mira", HistoryMessage::new("user", "c"), HistoryMessage::new("assistant", "d"));
    h.reset("Aldric");
    assert!(h.history("Aldric").is_empty());
    assert_eq!(h.history("Mira").len(), 2);
    h.reset("Nobody");
    assert_eq!(h.history("Mira").len(), 2);
    h.record_exchange("Aldric", HistoryMessage::new("user", "e"), HistoryMessage::new("assistant", "f"));
    assert_eq!(h.history("Aldric").len(), 2);
}

#[test]
fn names_are_compared_exactly() {
    let mut h = NpcHistories::new();
    h.record_exchange("Aldric", HistoryMessage::new("user", "a"), HistoryMessage::new("assistant", "b"));
    assert!(h.history("aldric").is_empty());
}

#[test]
fn messages_to_model() {
    let history = vec![HistoryMessage::new("user", "Hi"), HistoryMessage::new("assistant", "Hail!")];
    let msgs = compose_messages("You are Aldric.", &history, "Who are you?");
    let got: Vec<_> = msgs.iter().map(pair).collect();
    assert_eq!(
        got,
        vec![
            (Some("system".to_string()), Some("You are Aldric.".to_string())),
            (Some("user".to_string()), Some("Hi".to_string())),
            (Some("assistant".to_string()), Some("Hail!".to_string())),
            (Some("user".to_string()), Some("Who are you?".to_string())),
        ]
    );
}

#[test]
fn reply_defaults_to_ellipsis() {
    assert_eq!(reply_text(Some("Greetings".to_string())), "Greetings");
    assert_eq!(reply_text(None), "...");
}
