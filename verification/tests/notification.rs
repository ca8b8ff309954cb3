use moon_ui_components::notification::{MoonNotification, Notification, NotificationKind};

#[test]
fn a_new_notification_hides_itself() {
    let n = MoonNotification::new().into_inner();
    assert!(n.autohide);
    assert!(n.kind.is_none());
    assert!(n.title.is_none() && n.message.is_none());
}

#[test]
fn notification_builders_set_kind_title_message_and_autohide() {
    let n = MoonNotification::error("disk full".to_string())
        .title("Save failed".to_string())
        .autohide(false)
        .into_inner();
    assert_eq!(n.kind, Some(NotificationKind::Error));
    assert_eq!(n.title.as_deref(), Some("Save failed"));
    assert_eq!(n.message.as_deref(), Some("disk full"));
    assert!(!n.autohide);
    let w = MoonNotification::warning("w".to_string()).message("changed".to_string()).into_inner();
    assert_eq!(w.kind, Some(NotificationKind::Warning));
    assert_eq!(w.message.as_deref(), Some("changed"));
    assert_eq!(MoonNotification::info("i".to_string()).into_inner().kind, Some(NotificationKind::Info));
    assert_eq!(MoonNotification::success("s".to_string()).into_inner().kind, Some(NotificationKind::Success));
}

#[test]
fn a_moon_notification_converts_into_the_notification_it_built() {
    let built = Notification::from(MoonNotification::warning("disk".to_string()).title("Storage".to_string()).autohide(false));
    let direct = Notification::warning("disk".to_string()).title("Storage".to_string()).autohide(false);
    assert_eq!(built.kind, direct.kind);
    assert_eq!(built.title, direct.title);
    assert_eq!(built.message, direct.message);
    assert_eq!(built.autohide, direct.autohide);
    let plain: Notification = MoonNotification::new().into();
    let fresh = Notification::new();
    assert_eq!(plain.kind, fresh.kind);
    assert_eq!(plain.title, fresh.title);
    assert_eq!(plain.message, fresh.message);
    assert!(plain.autohide && fresh.autohide);
    let msg = Notification::info("a".to_string()).message("b".to_string());
    assert_eq!(msg.kind, Some(NotificationKind::Info));
    assert_eq!(msg.message, Some("b".to_string()));
}
