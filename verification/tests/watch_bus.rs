use tailview::bus::{make_status_notice, Broadcast, Notice, RecvOutcome};
use tailview::store::SessionStatusValue;
use tailview::watch::{classify_path, Debouncer, PathClass};

#[test]
fn paths_classify_by_suffix() {
    assert!(matches!(classify_path("/home/u/.logs/history.jsonl"), PathClass::Roster));
    match classify_path("/home/u/.logs/projects/-p/abc123.jsonl") {
        PathClass::SessionFile { id } => assert_eq!(id, "abc123"),
        _ => panic!("expected a session file"),
    }
    assert!(matches!(
        classify_path("/home/u/.logs/projects/-p/abc/subagents/agent-1.jsonl"),
        PathClass::Ignored
    ));
    assert!(matches!(classify_path("/home/u/.logs/settings.json"), PathClass::Ignored));
}

#[test]
fn debounce_fires_once_after_quiescence() {
    let mut d = Debouncer::new(20);
    d.record("/a".to_string(), 100);
    d.record("/b".to_string(), 105);
    // still inside the window: nothing fires
    assert_eq!(d.due(110).len(), 0);
    // /a has been quiet for 20ms, /b has not
    let fired = d.due(120);
    assert_eq!(fired, vec!["/a".to_string()]);
    // a new event re-arms the path
    d.record("/b".to_string(), 121);
    assert_eq!(d.due(130).len(), 0);
    let fired2 = d.due(141);
    assert_eq!(fired2, vec!["/b".to_string()]);
    // nothing left pending
    assert_eq!(d.due(1000).len(), 0);
}

#[test]
fn burst_of_events_collapses_to_one_notification() {
    let mut d = Debouncer::new(20);
    for t in [100u64, 103, 106, 109] {
        d.record("/a".to_string(), t);
    }
    assert_eq!(d.due(120).len(), 0);
    assert_eq!(d.due(129), vec!["/a".to_string()]);
}

#[test]
fn every_subscriber_sees_every_notice() {
    let mut bus = Broadcast::new(8);
    let mut s1 = bus.subscribe();
    let mut s2 = bus.subscribe();
    bus.publish(Notice::RosterChanged);
    bus.publish(Notice::SessionChanged { id: "abc".to_string(), path: "/p/abc.jsonl".to_string() });

    for sub in [&mut s1, &mut s2] {
        assert!(matches!(bus.recv(sub), RecvOutcome::Msg(Notice::RosterChanged)));
        match bus.recv(sub) {
            RecvOutcome::Msg(Notice::SessionChanged { id, path }) => {
                assert_eq!(id, "abc");
                assert_eq!(path, "/p/abc.jsonl");
            },
            _ => panic!("expected the session notice"),
        }
        assert!(matches!(bus.recv(sub), RecvOutcome::Empty));
    }
}

#[test]
fn a_lagging_subscriber_is_told_what_it_missed() {
    let mut bus = Broadcast::new(2);
    let mut slow = bus.subscribe();
    bus.publish(Notice::RosterChanged);
    bus.publish(Notice::OpenUrl { url: "https://one".to_string() });
    bus.publish(Notice::OpenUrl { url: "https://two".to_string() });
    // the ring held two: the first notice was overwritten
    match bus.recv(&mut slow) {
        RecvOutcome::Lagged { missed } => assert_eq!(missed, 1),
        _ => panic!("expected a lag signal"),
    }
    // after the signal the subscriber continues from the oldest held notice
    match bus.recv(&mut slow) {
        RecvOutcome::Msg(Notice::OpenUrl { url }) => assert_eq!(url, "https://one"),
        _ => panic!("expected the oldest held notice"),
    }
    match bus.recv(&mut slow) {
        RecvOutcome::Msg(Notice::OpenUrl { url }) => assert_eq!(url, "https://two"),
        _ => panic!("expected the newest notice"),
    }
    assert!(matches!(bus.recv(&mut slow), RecvOutcome::Empty));
}

#[test]
fn status_changes_make_status_notices() {
    match make_status_notice(&"abc".to_string(), Some(SessionStatusValue::Responding)) {
        Notice::StatusChanged { id, status } => {
            assert_eq!(id, "abc");
            assert_eq!(status, Some(SessionStatusValue::Responding));
        },
        _ => panic!("expected a status notice"),
    }
}

#[test]
fn publishing_at_the_sequence_bound_drops_the_notice() {
    // unreachable in any real run; the bus stays well-formed instead of
    // wrapping a cursor
    let mut bus = Broadcast { buf: Vec::new(), start: u64::MAX, cap: 4 };
    bus.publish(Notice::RosterChanged);
    assert_eq!(bus.buf.len(), 0);
    assert_eq!(bus.start, u64::MAX);
}

#[test]
fn subscribing_sees_only_future_notices() {
    let mut bus = Broadcast::new(4);
    bus.publish(Notice::RosterChanged);
    let mut late = bus.subscribe();
    assert!(matches!(bus.recv(&mut late), RecvOutcome::Empty));
    bus.publish(Notice::RosterChanged);
    assert!(matches!(bus.recv(&mut late), RecvOutcome::Msg(Notice::RosterChanged)));
}
