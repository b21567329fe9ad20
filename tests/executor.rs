use battle_net_api::executor::{repair_body, Action, Event, Failure, RequestExecutor};

#[test]
fn delivers_after_any_number_of_failures() {
    let mut ex = RequestExecutor::new();
    assert_eq!(ex.attempts, 1);
    let failures = [Failure::Transport, Failure::Upstream(503), Failure::Read, Failure::Decode, Failure::Upstream(404)];
    for f in failures {
        assert!(matches!(ex.on_event(Event::Failed(f)), Action::Attempt));
        assert!(!ex.finished);
    }
    assert_eq!(ex.attempts, 6);
    match ex.on_event(Event::BodyRead("{\"id\":7}".to_string())) {
        Action::Decode(t) => assert_eq!(t, "{\"id\":7}"),
        _ => panic!("a body read in full is decoded"),
    }
    assert!(!ex.finished);
    assert!(matches!(ex.on_event(Event::Decoded), Action::Deliver));
    assert!(ex.finished);
    assert_eq!(ex.attempts, 6);
}

#[test]
fn attempts_stop_counting_at_the_maximum() {
    let mut ex = RequestExecutor { attempts: u64::MAX, finished: false };
    assert!(matches!(ex.on_event(Event::Failed(Failure::Transport)), Action::Attempt));
    assert_eq!(ex.attempts, u64::MAX);
}

#[test]
fn owner_fields_are_replaced() {
    let body = "{\"auctions\":[{\"item\":1,\"owner\":\"Gr\u{fffd}mm\",\"buyout\":5},{\"owner\":\"Bob\",\"item\":2}]}";
    let fixed = repair_body(body);
    assert_eq!(fixed, "{\"auctions\":[{\"item\":1,\"owner\":\"_\",\"buyout\":5},{\"owner\":\"_\",\"item\":2}]}");
}

#[test]
fn empty_owner_field_is_left_alone() {
    let body = "{\"owner\":\"\",\"item\":3}";
    assert_eq!(repair_body(body), body);
}

#[test]
fn body_read_is_repaired_before_decoding() {
    let mut ex = RequestExecutor::new();
    match ex.on_event(Event::BodyRead("[{\"owner\":\"x y\"}]".to_string())) {
        Action::Decode(t) => assert_eq!(t, "[{\"owner\":\"_\"}]"),
        _ => panic!("a body read in full is decoded"),
    }
}
