//! Toast notifications in the Moon style: a kind, an optional title and message, and whether
//! the toast hides itself.

use vstd::prelude::*;

verus! {

/// The severity a notification is shown with.
#[derive(Clone, Copy, Debug, PartialEq, Eq, Structural)]
pub enum NotificationKind {
    Info,
    Success,
    Warning,
    Error,
}

/// A notification as the notification list shows it.
pub struct Notification {
    /// The severity, or `None` for a plain notification.
    pub kind: Option<NotificationKind>,
    pub title: Option<String>,
    pub message: Option<String>,
    /// Whether the notification disappears on its own after a while.
    pub autohide: bool,
}

/// The value of a notification: kind, title, message and autohide flag.
pub open spec fn notification_view(n: Notification) -> (Option<NotificationKind>, Option<Seq<char>>, Option<Seq<char>>, bool) {
    (
        n.kind,
        match n.title { Some(t) => Some(t@), None => None },
        match n.message { Some(m) => Some(m@), None => None },
        n.autohide,
    )
}

impl Notification {
    /// A plain notification without title or message that hides itself.
    pub fn new() -> (r: Notification)
        ensures
            notification_view(r) == (None::<NotificationKind>, None::<Seq<char>>, None::<Seq<char>>, true),
    {
        Notification { kind: None, title: None, message: None, autohide: true }
    }

    fn of_kind(kind: NotificationKind, message: String) -> (r: Notification)
        ensures
            notification_view(r) == (Some(kind), None::<Seq<char>>, Some(message@), true),
    {
        Notification { kind: Some(kind), title: None, message: Some(message), autohide: true }
    }

    /// An informational notification with a message.
    pub fn info(message: String) -> (r: Notification)
        ensures
            notification_view(r) == (Some(NotificationKind::Info), None::<Seq<char>>, Some(message@), true),
    {
        Self::of_kind(NotificationKind::Info, message)
    }

    /// A success notification with a message.
    pub fn success(message: String) -> (r: Notification)
        ensures
            notification_view(r) == (Some(NotificationKind::Success), None::<Seq<char>>, Some(message@), true),
    {
        Self::of_kind(NotificationKind::Success, message)
    }

    /// A warning notification with a message.
    pub fn warning(message: String) -> (r: Notification)
        ensures
            notification_view(r) == (Some(NotificationKind::Warning), None::<Seq<char>>, Some(message@), true),
    {
        Self::of_kind(NotificationKind::Warning, message)
    }

    /// An error notification with a message.
    pub fn error(message: String) -> (r: Notification)
        ensures
            notification_view(r) == (Some(NotificationKind::Error), None::<Seq<char>>, Some(message@), true),
    {
        Self::of_kind(NotificationKind::Error, message)
    }

    /// This notification with another message.
    pub fn message(self, message: String) -> (r: Notification)
        ensures
            notification_view(r) == (notification_view(self).0, notification_view(self).1, Some(message@), notification_view(self).3),
    {
        Notification { message: Some(message), ..self }
    }

    /// This notification with another title.
    pub fn title(self, title: String) -> (r: Notification)
        ensures
            notification_view(r) == (notification_view(self).0, Some(title@), notification_view(self).2, notification_view(self).3),
    {
        Notification { title: Some(title), ..self }
    }

    /// This notification, hiding itself or staying until dismissed.
    pub fn autohide(self, autohide: bool) -> (r: Notification)
        ensures
            notification_view(r) == (notification_view(self).0, notification_view(self).1, notification_view(self).2, autohide),
    {
        Notification { autohide, ..self }
    }
}

/// A notification builder with the Moon defaults.
pub struct MoonNotification {
    inner: Notification,
}

impl View for MoonNotification {
    type V = (Option<NotificationKind>, Option<Seq<char>>, Option<Seq<char>>, bool);

    closed spec fn view(&self) -> Self::V {
        notification_view(self.inner)
    }
}

impl MoonNotification {
    /// A plain notification without title or message that hides itself.
    pub fn new() -> (r: MoonNotification)
        ensures
            r@ == (None::<NotificationKind>, None::<Seq<char>>, None::<Seq<char>>, true),
    {
        MoonNotification { inner: Notification::new() }
    }

    /// An informational notification with a message.
    pub fn info(message: String) -> (r: MoonNotification)
        ensures
            r@ == (Some(NotificationKind::Info), None::<Seq<char>>, Some(message@), true),
    {
        MoonNotification { inner: Notification::info(message) }
    }

    /// A success notification with a message.
    pub fn success(message: String) -> (r: MoonNotification)
        ensures
            r@ == (Some(NotificationKind::Success), None::<Seq<char>>, Some(message@), true),
    {
        MoonNotification { inner: Notification::success(message) }
    }

    /// A warning notification with a message.
    pub fn warning(message: String) -> (r: MoonNotification)
        ensures
            r@ == (Some(NotificationKind::Warning), None::<Seq<char>>, Some(message@), true),
    {
        MoonNotification { inner: Notification::warning(message) }
    }

    /// An error notification with a message.
    pub fn error(message: String) -> (r: MoonNotification)
        ensures
            r@ == (Some(NotificationKind::Error), None::<Seq<char>>, Some(message@), true),
    {
        MoonNotification { inner: Notification::error(message) }
    }

    /// This notification with another message.
    pub fn message(self, message: String) -> (r: MoonNotification)
        ensures
            r@ == (self@.0, self@.1, Some(message@), self@.3),
    {
        MoonNotification { inner: self.inner.message(message) }
    }

    /// This notification with another title.
    pub fn title(self, title: String) -> (r: MoonNotification)
        ensures
            r@ == (self@.0, Some(title@), self@.2, self@.3),
    {
        MoonNotification { inner: self.inner.title(title) }
    }

    /// This notification, hiding itself or staying until dismissed.
    pub fn autohide(self, autohide: bool) -> (r: MoonNotification)
        ensures
            r@ == (self@.0, self@.1, self@.2, autohide),
    {
        MoonNotification { inner: self.inner.autohide(autohide) }
    }

    /// The notification this builder made.
    pub fn into_inner(self) -> (r: Notification)
        ensures
            notification_view(r) == self@,
    {
        self.inner
    }
}

impl From<MoonNotification> for Notification {
    /// The notification the builder made, as [`MoonNotification::into_inner`] gives it.
    fn from(note: MoonNotification) -> (r: Notification)
        ensures
            notification_view(r) == note@,
    {
        note.inner
    }
}

impl vstd::std_specs::convert::FromSpecImpl<MoonNotification> for Notification {
    open spec fn obeys_from_spec() -> bool {
        true
    }

    closed spec fn from_spec(v: MoonNotification) -> Notification {
        v.inner
    }
}

} // verus!
