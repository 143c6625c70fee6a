use io_utils::threaded::{identity_message, IdentityCounter, PumpAction, PumpState, RoutingError};

fn pump(inboxes: usize, messages: Vec<Option<Vec<u8>>>) -> (PumpState, Vec<Vec<Vec<u8>>>, PumpAction) {
    let mut state = PumpState::new();
    let mut boxes: Vec<Vec<Vec<u8>>> = vec![Vec::new(); inboxes];
    let mut last = PumpAction::Read;
    for event in messages {
        let (next, action) = state.step(event, boxes.len());
        state = next;
        if let PumpAction::Deliver { inbox, body } = &action {
            boxes[*inbox].push(body.clone());
        }
        last = action;
        if state == PumpState::Stopped {
            break;
        }
    }
    (state, boxes, last)
}

fn stream_of(sends: &[(u8, Vec<u8>)]) -> Vec<Option<Vec<u8>>> {
    let mut out = Vec::new();
    for (identity, payload) in sends {
        out.push(Some(identity_message(*identity)));
        out.push(Some(payload.clone()));
    }
    out
}

#[test]
fn the_first_clone_gets_identity_one() {
    let mut counter = IdentityCounter::new();
    assert_eq!(counter.issue(), Some(1));
    assert_eq!(counter.issue(), Some(2));
    assert_eq!(counter.issue(), Some(3));
}

#[test]
fn identities_are_distinct_and_increase() {
    let mut counter = IdentityCounter::new();
    let mut identities = vec![0u8];
    for _ in 0..255 {
        identities.push(counter.issue().unwrap());
    }
    for (k, identity) in identities.iter().enumerate() {
        assert_eq!(*identity as usize, k);
    }
    for pair in identities.windows(2) {
        assert!(pair[0] < pair[1]);
    }
}

#[test]
fn no_identity_is_issued_twice() {
    let mut counter = IdentityCounter::new();
    for _ in 0..254 {
        assert!(counter.issue().is_some());
    }
    assert_eq!(counter.issue(), Some(255));
    assert_eq!(counter.issue(), None);
    assert_eq!(counter.issue(), None);
}

#[test]
fn an_exhausted_counter_stays_exhausted() {
    let mut counter = IdentityCounter::new();
    let mut seen = vec![false; 256];
    seen[0] = true;
    for _ in 0..1000 {
        if let Some(identity) = counter.issue() {
            assert!(!seen[identity as usize]);
            seen[identity as usize] = true;
        }
    }
    assert!(seen.iter().all(|&s| s));
    assert_eq!(counter.issue(), None);
}

#[test]
fn identity_message_is_one_byte() {
    assert_eq!(identity_message(0), vec![0u8]);
    assert_eq!(identity_message(7), vec![7u8]);
    assert_eq!(identity_message(255), vec![255u8]);
}

#[test]
fn the_pump_starts_by_awaiting_an_identity() {
    assert_eq!(PumpState::new(), PumpState::AwaitIdentity);
}

#[test]
fn an_identity_is_remembered() {
    let (next, action) = PumpState::AwaitIdentity.step(Some(vec![2]), 3);
    assert_eq!(next, PumpState::AwaitBody { identity: Some(2) });
    assert_eq!(action, PumpAction::Read);
    let (next, action) = PumpState::AwaitIdentity.step(Some(vec![4, 9, 9]), 1);
    assert_eq!(next, PumpState::AwaitBody { identity: Some(4) });
    assert_eq!(action, PumpAction::Read);
}

#[test]
fn a_body_goes_to_the_inbox_of_its_sender() {
    let state = PumpState::AwaitBody { identity: Some(2) };
    let (next, action) = state.step(Some(vec![1, 2, 3]), 3);
    assert_eq!(next, PumpState::AwaitIdentity);
    assert_eq!(
        action,
        PumpAction::Deliver {
            inbox: 2,
            body: vec![1, 2, 3]
        }
    );
}

#[test]
fn an_identity_without_inbox_is_a_routing_failure() {
    let state = PumpState::AwaitBody { identity: Some(3) };
    let (next, action) = state.step(Some(vec![1]), 3);
    assert_eq!(next, PumpState::Stopped);
    assert_eq!(
        action,
        PumpAction::Fail(RoutingError {
            identity: Some(3),
            inboxes: 3
        })
    );
    let (next, action) = PumpState::AwaitBody { identity: Some(0) }.step(Some(vec![]), 0);
    assert_eq!(next, PumpState::Stopped);
    assert_eq!(
        action,
        PumpAction::Fail(RoutingError {
            identity: Some(0),
            inboxes: 0
        })
    );
}

#[test]
fn an_empty_identity_message_is_a_routing_failure() {
    let (next, action) = PumpState::AwaitIdentity.step(Some(vec![]), 2);
    assert_eq!(next, PumpState::AwaitBody { identity: None });
    assert_eq!(action, PumpAction::Read);
    let (next, action) = next.step(Some(vec![5]), 2);
    assert_eq!(next, PumpState::Stopped);
    assert_eq!(
        action,
        PumpAction::Fail(RoutingError {
            identity: None,
            inboxes: 2
        })
    );
}

#[test]
fn a_failed_read_stops_the_pump() {
    assert_eq!(
        PumpState::AwaitIdentity.step(None, 2),
        (PumpState::Stopped, PumpAction::Stop)
    );
    assert_eq!(
        PumpState::AwaitBody { identity: Some(1) }.step(None, 2),
        (PumpState::Stopped, PumpAction::Stop)
    );
}

#[test]
fn a_stopped_pump_stays_stopped() {
    assert_eq!(
        PumpState::Stopped.step(Some(vec![0]), 2),
        (PumpState::Stopped, PumpAction::Stop)
    );
    assert_eq!(
        PumpState::Stopped.step(None, 2),
        (PumpState::Stopped, PumpAction::Stop)
    );
}

#[test]
fn an_inbox_registered_late_is_found() {
    let (state, _) = PumpState::new().step(Some(vec![1]), 1);
    let (next, action) = state.step(Some(vec![42]), 2);
    assert_eq!(next, PumpState::AwaitIdentity);
    assert_eq!(
        action,
        PumpAction::Deliver {
            inbox: 1,
            body: vec![42]
        }
    );
}

#[test]
fn each_clone_receives_what_its_writer_sent() {
    let k = 5u8;
    let mut counter = IdentityCounter::new();
    let mut identities = vec![0u8];
    for _ in 1..k {
        identities.push(counter.issue().unwrap());
    }
    let sends: Vec<(u8, Vec<u8>)> = identities
        .iter()
        .map(|&i| (i, vec![i; 3 + i as usize]))
        .collect();
    let orders: Vec<Vec<usize>> = vec![
        vec![0, 1, 2, 3, 4],
        vec![4, 3, 2, 1, 0],
        vec![2, 0, 4, 1, 3],
        vec![1, 4, 0, 3, 2],
    ];
    for order in orders {
        let interleaved: Vec<(u8, Vec<u8>)> = order.iter().map(|&i| sends[i].clone()).collect();
        let (state, boxes, _) = pump(k as usize, stream_of(&interleaved));
        assert_eq!(state, PumpState::AwaitIdentity);
        for i in 0..k as usize {
            assert_eq!(boxes[i], vec![vec![i as u8; 3 + i]]);
        }
    }
}

#[test]
fn messages_of_one_writer_keep_their_order() {
    let sends = vec![
        (1u8, vec![10u8]),
        (0u8, vec![20u8]),
        (1u8, vec![11u8]),
        (1u8, vec![]),
        (0u8, vec![21u8, 22]),
    ];
    let (state, boxes, last) = pump(2, stream_of(&sends));
    assert_eq!(state, PumpState::AwaitIdentity);
    assert_eq!(boxes[0], vec![vec![20u8], vec![21, 22]]);
    assert_eq!(boxes[1], vec![vec![10u8], vec![11], vec![]]);
    assert_eq!(
        last,
        PumpAction::Deliver {
            inbox: 0,
            body: vec![21, 22]
        }
    );
}

#[test]
fn the_pump_ends_when_the_stream_closes() {
    let mut events = stream_of(&[(0u8, vec![1u8]), (1u8, vec![2u8])]);
    events.push(None);
    events.push(Some(vec![0]));
    let (state, boxes, last) = pump(2, events);
    assert_eq!(state, PumpState::Stopped);
    assert_eq!(last, PumpAction::Stop);
    assert_eq!(boxes, vec![vec![vec![1u8]], vec![vec![2u8]]]);
}
