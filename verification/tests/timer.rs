use swarm_core::timer::{TimerInfo, TimerQueue, TimerRequest, TimerResponse};

#[test]
fn timer_thread_basic() {
    let mut timers = TimerQueue::new();

    let duration = 100;

    let new_timer = TimerRequest::Timer(TimerInfo { timer_len: duration, id: 727, repeat: false });

    let before = 5;

    timers.handle(before, new_timer);

    // nothing fires before its time
    assert_eq!(timers.next_timeout(before), Some(duration));
    assert_eq!(timers.expire(before + duration - 1), None);

    let resp = timers.expire(before + duration).unwrap();

    assert_eq!(resp.id, 727);
    assert_eq!(timers.len(), 0);
    assert_eq!(timers.next_timeout(before + duration), None);
    assert_eq!(timers.expire(before + 10 * duration), None);
}

#[test]
fn timers_fire_in_the_order_they_fall_due() {
    let mut timers = TimerQueue::new();
    timers.schedule(30, TimerInfo { timer_len: 50, id: 3, repeat: false });
    timers.schedule(10, TimerInfo { timer_len: 50, id: 1, repeat: false });
    timers.schedule(20, TimerInfo { timer_len: 50, id: 2, repeat: false });
    assert_eq!(timers.next_timeout(40), Some(20));
    assert_eq!(timers.next_timeout(65), Some(0));
    let mut fired = Vec::new();
    while let Some(TimerResponse { id }) = timers.expire(1000) {
        fired.push(id);
    }
    assert_eq!(fired, vec![1, 2, 3]);
}

#[test]
fn cancelled_timers_do_not_fire() {
    let mut timers = TimerQueue::new();
    timers.schedule(0, TimerInfo { timer_len: 10, id: 1, repeat: false });
    timers.schedule(0, TimerInfo { timer_len: 20, id: 2, repeat: false });
    timers.schedule(0, TimerInfo { timer_len: 30, id: 1, repeat: true });
    timers.handle(5, TimerRequest::Cancel(1));
    assert_eq!(timers.len(), 1);
    assert_eq!(timers.expire(100), Some(TimerResponse { id: 2 }));
    assert_eq!(timers.expire(100), None);
    // cancelling what is not there changes nothing
    timers.cancel(9);
    assert_eq!(timers.len(), 0);
}

#[test]
fn repeating_timers_are_armed_again() {
    let mut timers = TimerQueue::new();
    timers.schedule(0, TimerInfo { timer_len: 10, id: 8, repeat: true });
    assert_eq!(timers.expire(9), None);
    assert_eq!(timers.expire(12), Some(TimerResponse { id: 8 }));
    // armed again for its length from the time it fired
    assert_eq!(timers.len(), 1);
    assert_eq!(timers.next_timeout(12), Some(10));
    assert_eq!(timers.expire(21), None);
    assert_eq!(timers.expire(22), Some(TimerResponse { id: 8 }));
}

#[test]
fn equal_timers_are_kept_once_and_ties_go_by_length_then_token() {
    let mut timers = TimerQueue::new();
    timers.schedule(0, TimerInfo { timer_len: 10, id: 5, repeat: false });
    timers.schedule(0, TimerInfo { timer_len: 10, id: 5, repeat: false });
    assert_eq!(timers.len(), 1);
    timers.schedule(0, TimerInfo { timer_len: 10, id: 4, repeat: false });
    timers.schedule(5, TimerInfo { timer_len: 5, id: 9, repeat: false });
    assert_eq!(timers.len(), 3);
    let mut fired = Vec::new();
    while let Some(TimerResponse { id }) = timers.expire(10) {
        fired.push(id);
    }
    assert_eq!(fired, vec![9, 4, 5]);
}

#[test]
fn a_timer_past_the_end_of_time_falls_due_at_the_end() {
    let mut timers = TimerQueue::new();
    timers.schedule(u64::MAX - 3, TimerInfo { timer_len: 10, id: 1, repeat: false });
    assert_eq!(timers.next_timeout(u64::MAX - 3), Some(3));
    assert_eq!(timers.expire(u64::MAX - 1), None);
    assert_eq!(timers.expire(u64::MAX), Some(TimerResponse { id: 1 }));
}
