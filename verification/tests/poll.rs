use swarm_core::poll::event::{Event, Events};
use swarm_core::poll::interest::Interest;

#[test]
fn interest_flags_are_epoll_flags() {
    assert_eq!(Interest::readable().flags(), 1);
    assert_eq!(Interest::writable().flags(), 4);
    let both = Interest::readable().or(Interest::writable());
    assert_eq!(both.flags(), 5);
    assert_eq!(both.or(Interest::readable()), both);
}

#[test]
fn events_tell_what_is_ready() {
    let event = Event { events: 0x001 | 0x008, data: 77 };
    assert_eq!(event.token(), 77usize);
    assert!(event.is_readable());
    assert!(!event.is_writable());
    assert!(event.is_error());
    assert_eq!(Event::default(), Event { events: 0, data: 0 });
    assert!(!Event::default().is_readable());
}

#[test]
fn events_hold_what_a_wait_brought() {
    let mut events = Events::with_capacity(2);
    assert_eq!(events.capacity(), 2);
    assert_eq!(events.len(), 0);
    let reported = [
        Event { events: 1, data: 1 },
        Event { events: 4, data: 2 },
        Event { events: 1, data: 3 },
    ];
    events.fill(&reported[..1]);
    assert_eq!(events.iter(), &reported[..1]);
    // no more than there is room for
    events.fill(&reported);
    assert_eq!(events.len(), 2);
    assert_eq!(events.iter(), &reported[..2]);
    events.clear();
    assert_eq!(events.len(), 0);
    assert_eq!(events.capacity(), 2);
    assert_eq!(events.iter(), &[] as &[Event]);
}
