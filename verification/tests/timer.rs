use rust_study::timer::{TimerFuture, TimerPoll};

#[test]
fn timer_is_pending_until_complete() {
    let mut t = TimerFuture::new();
    assert!(matches!(t.poll(), TimerPoll::Pending));
    assert!(matches!(t.poll(), TimerPoll::Pending));
    assert!(t.complete());
    assert!(matches!(t.poll(), TimerPoll::Ready));
    assert!(matches!(t.poll(), TimerPoll::Ready));
    assert!(!t.complete());
}

#[test]
fn unpolled_timer_wakes_nobody() {
    let mut t = TimerFuture::new();
    assert!(!t.complete());
    assert!(matches!(t.poll(), TimerPoll::Ready));
}
