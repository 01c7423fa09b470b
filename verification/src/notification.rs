//! Notifications: short messages that stay for a while, the oldest one
//! counting down first.

use vstd::prelude::*;

verus! {

/// How serious a notification is.
#[derive(Debug, Clone, Copy, PartialEq, Eq, Structural)]
pub enum Severity {
    Info,
    Destructive,
    Error,
}

/// How long a new notification stays, in milliseconds.
pub const NOTIFICATION_TIMEOUT_MS: u32 = 5000;

/// A notification: its severity, title and text, and how many
/// milliseconds it has left.
#[derive(Debug)]
pub struct Notification {
    pub severity: Severity,
    pub title: String,
    pub content: String,
    pub timeout_ms: u32,
}

impl Notification {
    fn with_severity(severity: Severity, title: String, content: String) -> (res: Self)
        ensures
            res.severity == severity,
            res.title@ == title@,
            res.content@ == content@,
            res.timeout_ms == NOTIFICATION_TIMEOUT_MS,
    {
        Notification { severity, title, content, timeout_ms: NOTIFICATION_TIMEOUT_MS }
    }

    pub fn info(title: String, content: String) -> (res: Self)
        ensures
            res.severity == Severity::Info,
            res.title@ == title@,
            res.content@ == content@,
            res.timeout_ms == NOTIFICATION_TIMEOUT_MS,
    {
        Self::with_severity(Severity::Info, title, content)
    }

    pub fn destructive(title: String, content: String) -> (res: Self)
        ensures
            res.severity == Severity::Destructive,
            res.title@ == title@,
            res.content@ == content@,
            res.timeout_ms == NOTIFICATION_TIMEOUT_MS,
    {
        Self::with_severity(Severity::Destructive, title, content)
    }

    pub fn error(title: String, content: String) -> (res: Self)
        ensures
            res.severity == Severity::Error,
            res.title@ == title@,
            res.content@ == content@,
            res.timeout_ms == NOTIFICATION_TIMEOUT_MS,
    {
        Self::with_severity(Severity::Error, title, content)
    }
}

/// The notifications after `elapsed_ms` pass for the oldest one: its time
/// left goes down, and it is dropped once none is left. The others wait.
pub open spec fn spec_tick(s: Seq<Notification>, elapsed_ms: u32) -> Seq<Notification> {
    if s.len() == 0 {
        s
    } else if s[0].timeout_ms <= elapsed_ms {
        s.drop_first()
    } else {
        s.update(0, Notification { timeout_ms: (s[0].timeout_ms - elapsed_ms) as u32, ..s[0] })
    }
}

/// The notifications after `n` ticks of `elapsed_ms` each.
pub open spec fn ticks(s: Seq<Notification>, elapsed_ms: u32, n: nat) -> Seq<Notification>
    decreases n,
{
    if n == 0 {
        s
    } else {
        spec_tick(ticks(s, elapsed_ms, (n - 1) as nat), elapsed_ms)
    }
}

/// Lets `elapsed_ms` pass for the oldest notification: its time left goes
/// down, and it is dropped once none is left. The others wait.
pub fn tick(notifications: &mut Vec<Notification>, elapsed_ms: u32)
    ensures
        final(notifications)@ == spec_tick(old(notifications)@, elapsed_ms),
        old(notifications)@.len() == 0 ==> final(notifications)@ == old(notifications)@,
        old(notifications)@.len() > 0 && old(notifications)@[0].timeout_ms <= elapsed_ms
            ==> final(notifications)@ == old(notifications)@.drop_first(),
        old(notifications)@.len() > 0 && old(notifications)@[0].timeout_ms > elapsed_ms ==> {
            &&& final(notifications)@.len() == old(notifications)@.len()
            &&& final(notifications)@.drop_first() == old(notifications)@.drop_first()
            &&& final(notifications)@[0].timeout_ms == old(notifications)@[0].timeout_ms
                - elapsed_ms
            &&& final(notifications)@[0].severity == old(notifications)@[0].severity
            &&& final(notifications)@[0].title == old(notifications)@[0].title
            &&& final(notifications)@[0].content == old(notifications)@[0].content
        },
{
    if notifications.len() == 0 {
        return;
    }
    let first = notifications.remove(0);
    if first.timeout_ms <= elapsed_ms {
        proof {
            assert(notifications@ =~= old(notifications)@.drop_first());
        }
        return;
    }
    let left = first.timeout_ms - elapsed_ms;
    let updated = Notification {
        severity: first.severity,
        title: first.title,
        content: first.content,
        timeout_ms: left,
    };
    notifications.insert(0, updated);
    proof {
        assert(notifications@.drop_first() =~= old(notifications)@.drop_first());
        assert(notifications@ =~= spec_tick(old(notifications)@, elapsed_ms));
    }
}

/// Ticks of `e` milliseconds each, `e` above zero, count down the oldest
/// notification only: while fewer than its time left have passed, it stays
/// first with `n * e` milliseconds less, and those behind it keep their
/// place and time; the tick that uses up its time drops it, so a
/// notification with `t` milliseconds left is gone after `t / e` ticks,
/// rounded up (250 ticks of 20 milliseconds for a new one).
pub proof fn lemma_ticks_count_down_head(s: Seq<Notification>, e: u32, n: nat)
    requires
        s.len() > 0,
        e > 0,
    ensures
        n * e < s[0].timeout_ms ==> {
            let r = ticks(s, e, n);
            &&& r.len() == s.len()
            &&& r.drop_first() == s.drop_first()
            &&& r[0].timeout_ms == s[0].timeout_ms - n * e
            &&& r[0].severity == s[0].severity
            &&& r[0].title == s[0].title
            &&& r[0].content == s[0].content
        },
        n > 0 && (n - 1) * e < s[0].timeout_ms <= n * e ==> ticks(s, e, n) == s.drop_first(),
    decreases n,
{
    if n == 0 {
        assert(n * e == 0);
    } else {
        let m = (n - 1) as nat;
        lemma_ticks_count_down_head(s, e, m);
        assert(m * e + e == n * e) by (nonlinear_arith)
            requires
                m + 1 == n,
        ;
        assert(m * e >= 0) by (nonlinear_arith);
        if m * e < s[0].timeout_ms {
            let r = ticks(s, e, m);
            if n * e < s[0].timeout_ms {
                assert(r[0].timeout_ms > e);
                let h = Notification { timeout_ms: (r[0].timeout_ms - e) as u32, ..r[0] };
                assert(ticks(s, e, n) == r.update(0, h));
                assert(ticks(s, e, n)[0] == h);
                assert(h.timeout_ms == s[0].timeout_ms - n * e);
                assert(ticks(s, e, n).drop_first() =~= r.drop_first());
            } else {
                assert(ticks(s, e, n) =~= r.drop_first());
            }
        }
    }
}

} // verus!
