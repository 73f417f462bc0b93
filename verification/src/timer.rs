use vstd::prelude::*;

verus! {

/// What a poll of a timer answers.
pub enum TimerPoll {
    /// The timer has run out.
    Ready,
    /// The timer is still running; the waker of the polling task must be stored
    /// so that the end of the timer can wake it.
    Pending,
}

/// The state that a timer future shares with the thread that runs it out:
/// whether the time is up, and whether a waker is stored.
pub struct TimerFuture {
    completed: bool,
    waker_stored: bool,
}

/// The state after a poll of a timer in state `s`.
pub open spec fn after_poll(s: (bool, bool)) -> (bool, bool) {
    if s.0 {
        s
    } else {
        (false, true)
    }
}

/// The state after the timer in state `s` runs out.
pub open spec fn after_complete(s: (bool, bool)) -> (bool, bool) {
    (true, false)
}

impl View for TimerFuture {
    /// Whether the time is up, and whether a waker is stored.
    type V = (bool, bool);

    closed spec fn view(&self) -> (bool, bool) {
        (self.completed, self.waker_stored)
    }
}

impl TimerFuture {
    /// A timer that is still running, with no waker stored.
    pub fn new() -> (t: TimerFuture)
        ensures
            t@ == (false, false),
    {
        TimerFuture { completed: false, waker_stored: false }
    }

    /// Polls the timer: `Ready` once the time is up, with the state unchanged;
    /// otherwise `Pending`, and the caller stores the waker of the polling task.
    pub fn poll(&mut self) -> (res: TimerPoll)
        ensures
            final(self)@ == after_poll(old(self)@),
            final(self)@.0 == old(self)@.0,
            !old(self)@.0 ==> final(self)@.1,
            old(self)@.0 ==> final(self)@ == old(self)@,
            res is Ready <==> old(self)@.0,
    {
        if self.completed {
            TimerPoll::Ready
        } else {
            self.waker_stored = true;
            TimerPoll::Pending
        }
    }

    /// Marks the time as up; returns whether a stored waker must be taken and
    /// woken.
    pub fn complete(&mut self) -> (wake: bool)
        ensures
            final(self)@ == after_complete(old(self)@),
            final(self)@.0,
            !final(self)@.1,
            wake == old(self)@.1,
    {
        self.completed = true;
        let wake = self.waker_stored;
        self.waker_stored = false;
        wake
    }
}


/// Once the time is up, every poll answers `Ready` and changes nothing.
pub proof fn completed_timer_stays_ready(s: (bool, bool))
    ensures
        after_complete(s).0,
        after_poll(after_complete(s)) == after_complete(s),
{
}

/// A poll of a running timer stores a waker, so the end of the timer wakes the
/// polling task; after the end no waker stays stored, so no task is woken twice.
pub proof fn polled_timer_is_woken(s: (bool, bool))
    ensures
        !s.0 ==> after_poll(s).1,
        !after_complete(s).1,
{
}
/// The state after `n` polls of a timer in state `s`.
pub open spec fn after_polls(s: (bool, bool), n: nat) -> (bool, bool)
    decreases n,
{
    if n == 0 {
        s
    } else {
        after_poll(after_polls(s, (n - 1) as nat))
    }
}

/// A poll never marks the time as up: it leaves the completed flag as it was,
/// stores a waker when the timer is running, and changes nothing once the time
/// is up.  Only `complete` marks the time as up.
pub proof fn poll_never_completes(s: (bool, bool))
    ensures
        after_poll(s).0 == s.0,
        !s.0 ==> after_poll(s).1,
        s.0 ==> after_poll(s) == s,
        after_complete(s).0,
{
}

/// However many times a running timer is polled, it stays running, so every one
/// of those polls answers `Pending`; once the time is up, every poll answers
/// `Ready`.
pub proof fn polls_answer_pending_until_complete(s: (bool, bool), n: nat)
    ensures
        after_polls(s, n).0 == s.0,
        n > 0 && !s.0 ==> after_polls(s, n) == (false, true),
        s.0 ==> after_polls(s, n) == s,
    decreases n,
{
    if n > 0 {
        polls_answer_pending_until_complete(s, (n - 1) as nat);
    }
}

} // verus!
