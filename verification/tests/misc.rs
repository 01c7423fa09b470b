use family_tree::assets::AssetHandle;
use family_tree::dialog::{Dialog, DialogOption, Severity as DialogSeverity};
use family_tree::drag::{set_payload, Draggable};
use family_tree::keys::{escape_action, EscapeAction};
use family_tree::notification::{tick, Notification, Severity, NOTIFICATION_TIMEOUT_MS};
use family_tree::text::{contains, ends_with, starts_with, trim};

#[test]
fn text_helpers() {
    assert_eq!(trim("  a b \t\n"), "a b");
    assert_eq!(trim("   "), "");
    assert_eq!(trim("\u{2003}x\u{2003}"), "x");
    assert!(ends_with("ann.chara.ron", ".chara.ron"));
    assert!(!ends_with("ron", ".chara.ron"));
    assert!(ends_with("x", ""));
    assert!(starts_with("image/png", "image"));
    assert!(!starts_with("text/plain", "image"));
    assert!(!starts_with("im", "image"));
}

#[test]
fn notifications_count_down() {
    let mut list = vec![
        Notification::info("a".to_string(), "first".to_string()),
        Notification::error("b".to_string(), "second".to_string()),
    ];
    assert_eq!(list[0].timeout_ms, NOTIFICATION_TIMEOUT_MS);
    assert_eq!(list[0].severity, Severity::Info);
    assert_eq!(list[1].severity, Severity::Error);
    tick(&mut list, 20);
    assert_eq!(list[0].timeout_ms, 4980);
    assert_eq!(list[1].timeout_ms, 5000);
    assert_eq!(list[0].title, "a");
    tick(&mut list, 4980);
    assert_eq!(list.len(), 1);
    assert_eq!(list[0].content, "second");
    let mut empty: Vec<Notification> = Vec::new();
    tick(&mut empty, 20);
    assert!(empty.is_empty());
    let d = Notification::destructive("c".to_string(), "x".to_string());
    assert_eq!(d.severity, Severity::Destructive);
}

#[test]
fn notification_lasts_250_ticks() {
    let mut list = vec![Notification::info("a".to_string(), "b".to_string())];
    for _ in 0..249 {
        tick(&mut list, 20);
    }
    assert_eq!(list.len(), 1);
    assert_eq!(list[0].timeout_ms, 20);
    tick(&mut list, 20);
    assert!(list.is_empty());
}

#[test]
fn dialog_holds_its_parts() {
    let option = DialogOption::new(DialogSeverity::Warn, "Load Anyway".to_string(), 7u8);
    assert_eq!(option.severity(), DialogSeverity::Warn);
    assert_eq!(option.text(), "Load Anyway");
    assert_eq!(*option.on_press(), 7);
    let dialog = Dialog::new("Title".to_string(), "Body".to_string(), 0u8, vec![option]);
    assert_eq!(dialog.title(), "Title");
    assert_eq!(dialog.body_text(), "Body");
    assert_eq!(*dialog.on_cancel(), 0);
    assert_eq!(dialog.options().len(), 1);
    assert_eq!(dialog.options()[0].text(), "Load Anyway");
}

#[test]
fn contains_finds_substrings() {
    assert!(contains("images/cat.png", "cat"));
    assert!(contains("abc", ""));
    assert!(contains("abc", "abc"));
    assert!(!contains("abc", "abcd"));
    assert!(!contains("abc", "ac"));
    assert!(contains("aab", "ab"));
}

#[test]
fn later_notifications_wait_for_the_first() {
    let mut list = vec![
        Notification::info("a".to_string(), "first".to_string()),
        Notification::error("b".to_string(), "second".to_string()),
    ];
    list[1].timeout_ms = 70;
    for _ in 0..250 {
        tick(&mut list, 20);
    }
    assert_eq!(list.len(), 1);
    assert_eq!(list[0].title, "b");
    assert_eq!(list[0].timeout_ms, 70);
    for _ in 0..3 {
        tick(&mut list, 20);
    }
    assert_eq!(list[0].timeout_ms, 10);
    tick(&mut list, 20);
    assert!(list.is_empty());
}

#[test]
fn a_drag_under_way_is_not_replaced() {
    let first = Draggable::Asset(AssetHandle::from_id(1));
    let second = Draggable::Asset(AssetHandle::from_id(2));
    let mut payload = None;
    set_payload(&mut payload, Some(first));
    assert_eq!(payload, Some(first));
    set_payload(&mut payload, Some(second));
    assert_eq!(payload, Some(first));
    set_payload(&mut payload, None);
    assert_eq!(payload, None);
    set_payload(&mut payload, Some(second));
    assert_eq!(payload, Some(second));
}

#[test]
fn escape_closes_the_dialog_first_then_stops_renaming_then_clears_the_search() {
    assert_eq!(escape_action(true, true, true), EscapeAction::CloseDialog);
    assert_eq!(escape_action(false, true, true), EscapeAction::StopRenaming);
    assert_eq!(escape_action(false, false, true), EscapeAction::ClearQuery);
    assert_eq!(escape_action(false, false, false), EscapeAction::Nothing);
}

#[test]
fn whitespace_is_what_std_says() {
    for x in 0u32..0x11_0000 {
        if let Some(c) = char::from_u32(x) {
            assert_eq!(family_tree::text::is_whitespace(c), c.is_whitespace(), "{x:#x}");
        }
    }
}
