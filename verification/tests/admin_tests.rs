use eldoria_npc::admin::{appended_content, knowledge_path, sanitize_filename};
use eldoria_npc::bank::balance_after_withdrawal;

#[test]
fn filename_loses_dots_and_separators() {
    assert_eq!(sanitize_filename("npc_aldric.txt"), Some("npc_aldric.txt".to_string()));
    assert_eq!(sanitize_filename("../../etc/passwd"), Some("etcpasswd".to_string()));
    assert_eq!(sanitize_filename("..\\win\\ini"), Some("winini".to_string()));
    assert_eq!(sanitize_filename("../"), None);
    assert_eq!(sanitize_filename(""), None);
}

#[test]
fn filename_can_still_hold_two_dots() {
    // ".." is removed before "/", so a "/" between dots leaves a ".." behind.
    assert_eq!(sanitize_filename("./."), Some("..".to_string()));
    let s = sanitize_filename("././/./.").unwrap();
    assert!(!s.contains('/') && !s.contains('\\'));
}

#[test]
fn path_and_appended_text() {
    assert_eq!(knowledge_path("lore.txt"), "knowledge/lore.txt");
    assert_eq!(appended_content("old", "new"), "old\n\nnew");
    assert_eq!(appended_content("", "new"), "\n\nnew");
}

#[test]
fn withdrawal_may_overdraw() {
    assert_eq!(balance_after_withdrawal(1000, 300), 700);
    assert_eq!(balance_after_withdrawal(100, 300), -200);
}
