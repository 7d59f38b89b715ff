//! Notifications shown over the panes: a bounded ring, newest first, whose
//! entries leave when their display time has passed.

use vstd::prelude::*;
use std::collections::VecDeque;

verus! {

/// How serious a notification is.
#[derive(Debug, Clone, Copy, PartialEq, Eq, Structural)]
pub enum NotificationKind {
    Info,
    Warning,
    Error,
}

/// A message for the user.
pub struct Notification {
    pub title: String,
    pub content: String,
    pub kind: NotificationKind,
}

impl Notification {
    pub fn new(title: String, content: String, kind: NotificationKind) -> (r: Notification)
        ensures
            r.title == title,
            r.content == content,
            r.kind == kind,
    {
        Notification { title, content, kind }
    }

    pub fn info(title: String, content: String) -> (r: Notification)
        ensures
            r.title == title,
            r.content == content,
            r.kind == NotificationKind::Info,
    {
        Notification::new(title, content, NotificationKind::Info)
    }

    pub fn warning(title: String, content: String) -> (r: Notification)
        ensures
            r.title == title,
            r.content == content,
            r.kind == NotificationKind::Warning,
    {
        Notification::new(title, content, NotificationKind::Warning)
    }

    pub fn error(title: String, content: String) -> (r: Notification)
        ensures
            r.title == title,
            r.content == content,
            r.kind == NotificationKind::Error,
    {
        Notification::new(title, content, NotificationKind::Error)
    }
}

/// A notification on screen: how long it stays and when it came, in
/// milliseconds.
pub struct Toast {
    pub notification: Notification,
    pub duration: u64,
    pub created: u64,
}

/// Whether a toast is still on screen at `now`; a clock that went back counts
/// as no time passed.
pub open spec fn still_shown(t: Toast, now: u64) -> bool {
    (if now >= t.created { now - t.created } else { 0 }) < t.duration
}

/// The toasts of `s` still on screen at `now`, in their order.
pub open spec fn kept(s: Seq<Toast>, now: u64) -> Seq<Toast>
    decreases s.len(),
{
    if s.len() == 0 {
        seq![]
    } else if still_shown(s.last(), now) {
        kept(s.drop_last(), now).push(s.last())
    } else {
        kept(s.drop_last(), now)
    }
}

/// The ring after a push: the new toast first, the oldest one gone when
/// the ring was full.
pub open spec fn pushed(s: Seq<Toast>, t: Toast, cap: nat) -> Seq<Toast> {
    if s.len() >= cap && s.len() > 0 {
        seq![t] + s.drop_last()
    } else {
        seq![t] + s
    }
}

proof fn lemma_kept_len(s: Seq<Toast>, now: u64)
    ensures
        kept(s, now).len() <= s.len(),
    decreases s.len(),
{
    if s.len() > 0 {
        lemma_kept_len(s.drop_last(), now);
    }
}

/// A toast stays exactly when it is still shown, and the order is kept:
/// the toasts kept are `s` filtered by `still_shown`.
pub proof fn lemma_kept_is_filter(s: Seq<Toast>, now: u64)
    ensures
        kept(s, now) == s.filter(|t: Toast| still_shown(t, now)),
    decreases s.len(),
{
    reveal(Seq::filter);
    if s.len() > 0 {
        lemma_kept_is_filter(s.drop_last(), now);
    }
    assert(kept(s, now) =~= s.filter(|t: Toast| still_shown(t, now)));
}

/// The notifications on screen, at most `N` of them, newest first.
pub struct NotificationServiceWidget<const N: usize> {
    stack: VecDeque<Toast>,
}

impl<const N: usize> NotificationServiceWidget<N> {
    pub closed spec fn view(&self) -> Seq<Toast> {
        self.stack@
    }

    /// No notification on screen.
    pub fn new() -> (r: NotificationServiceWidget<N>)
        ensures
            r.view() == Seq::<Toast>::empty(),
    {
        NotificationServiceWidget { stack: VecDeque::with_capacity(N) }
    }

    /// Shows `notification` for `duration` milliseconds from `now`; when `N`
    /// are on screen, the oldest one leaves. The ring holds at least one.
    pub fn push_notification(&mut self, notification: Notification, duration: u64, now: u64)
        requires
            N > 0,
        ensures
            old(self).view().len() <= N ==> final(self).view().len() <= N,
            final(self).view() == pushed(
                old(self).view(),
                Toast { notification, duration, created: now },
                N as nat,
            ),
    {
        if self.stack.len() >= N && self.stack.len() > 0 {
            self.stack.pop_back();
        }
        self.stack.push_front(Toast { notification, duration, created: now });
        proof {
            let t = Toast { notification, duration, created: now };
            if old(self).view().len() >= N && old(self).view().len() > 0 {
                assert(self.stack@ =~= seq![t] + old(self).view().drop_last());
            } else {
                assert(self.stack@ =~= seq![t] + old(self).view());
            }
        }
    }

    /// Removes the notifications whose time is up at `now`; `true` when any
    /// left, so that the screen is drawn again.
    pub fn tick(&mut self, now: u64) -> (r: bool)
        ensures
            final(self).view() == kept(old(self).view(), now),
            final(self).view().len() <= old(self).view().len(),
            r == (kept(old(self).view(), now).len() != old(self).view().len()),
    {
        let ghost orig = self.stack@;
        let start = self.stack.len();
        let mut rest: VecDeque<Toast> = VecDeque::new();
        core::mem::swap(&mut self.stack, &mut rest);
        let mut out: VecDeque<Toast> = VecDeque::with_capacity(N);
        let ghost mut i: int = 0;
        while rest.len() > 0
            invariant
                0 <= i <= orig.len(),
                rest@ == orig.subrange(i, orig.len() as int),
                out@ == kept(orig.subrange(0, i), now),
            decreases rest.len(),
        {
            let t = rest.pop_front().unwrap();
            proof {
                assert(t == orig[i]);
                assert(orig.subrange(0, i + 1).drop_last() =~= orig.subrange(0, i));
                assert(orig.subrange(0, i + 1).last() == orig[i]);
                i = i + 1;
                assert(rest@ =~= orig.subrange(i, orig.len() as int));
            }
            let elapsed: u64 = if now >= t.created {
                now - t.created
            } else {
                0
            };
            if elapsed < t.duration {
                out.push_back(t);
            }
        }
        proof {
            assert(orig.subrange(0, i) =~= orig);
            lemma_kept_len(orig, now);
        }
        self.stack = out;
        start != self.stack.len()
    }

    /// Whether any notification is on screen.
    pub fn should_render(&self) -> (r: bool)
        ensures
            r == (self.view().len() != 0),
    {
        self.stack.len() != 0
    }

    /// The notifications on screen, newest first.
    pub fn toasts(&self) -> (r: &VecDeque<Toast>)
        ensures
            r@ == self.view(),
    {
        &self.stack
    }
}

} // verus!
