use eldoria_npc::chat::{finish_chat, ChatReply};
use eldoria_npc::history::{HistoryMessage, NpcHistories};

fn contents(h: &NpcHistories, npc: &str) -> Vec<Option<String>> {
    h.history(npc).iter().map(|m| m.content.clone()).collect()
}

#[test]
fn answered_chat_records_the_exchange() {
    let mut h = NpcHistories::new();
    let outcome = Some((
        "Well met.".to_string(),
        HistoryMessage::new("user", "Hello"),
        HistoryMessage::new("assistant", "Well met."),
    ));
    match finish_chat(&mut h, "Aldric", outcome) {
        ChatReply::Answered(text) => assert_eq!(text, "Well met."),
        ChatReply::ModelFailed => panic!("a reply was given"),
    }
    assert_eq!(contents(&h, "Aldric"), vec![Some("Hello".to_string()), Some("Well met.".to_string())]);
    assert!(h.history("Mira").is_empty());
}

#[test]
fn failed_chat_leaves_history_unchanged() {
    let mut h = NpcHistories::new();
    h.record_exchange("Aldric", HistoryMessage::new("user", "a"), HistoryMessage::new("assistant", "b"));
    assert!(matches!(finish_chat(&mut h, "Aldric", None), ChatReply::ModelFailed));
    assert_eq!(contents(&h, "Aldric"), vec![Some("a".to_string()), Some("b".to_string())]);
    assert!(matches!(finish_chat(&mut h, "Mira", None), ChatReply::ModelFailed));
    assert!(h.history("Mira").is_empty());
}
