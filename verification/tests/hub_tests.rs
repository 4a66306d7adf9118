use workshop::hub::{FrameOutcome, Hub};
use workshop::wire;

#[test]
fn test_ping_pong_handshake() {
    let mut hub = Hub::new();
    // a ping before any serve yields no reply
    assert_eq!(hub.pingpong_step("ping"), None);
    // serve switches the shared state, without a reply
    assert_eq!(hub.pingpong_step("serve"), None);
    // every later ping yields exactly one pong
    assert_eq!(hub.pingpong_step("ping"), Some(String::from("pong")));
    assert_eq!(hub.pingpong_step("ping"), Some(String::from("pong")));
    // other text is ignored
    assert_eq!(hub.pingpong_step("volley"), None);
    assert_eq!(hub.pingpong_step("ping"), Some(String::from("pong")));
}

#[test]
fn test_serve_is_shared_across_connections() {
    // the game state is process-wide: a serve on one connection makes a
    // ping on another connection pong
    let mut hub = Hub::new();
    assert_eq!(hub.pingpong_step("serve"), None);
    // a different connection's frames go through the same hub
    assert_eq!(hub.pingpong_step("ping"), Some(String::from("pong")));
}

#[test]
fn test_reset_clears_views_and_game() {
    let mut hub = Hub::new();
    hub.ensure_room(7);
    let mut a = hub.subscribe(7).unwrap();
    hub.pingpong_step("serve");
    let outcome = hub.handle_frame(7, "A", "{\"message\":\"hi\"}");
    assert!(matches!(outcome, FrameOutcome::Published));
    assert!(hub.next_message(&mut a).is_some());
    hub.record_delivery();
    assert_eq!(hub.views_text(), String::from("1"));
    hub.reset();
    assert_eq!(hub.views_text(), String::from("0"));
    // a ping without a new serve yields no pong after the reset
    assert_eq!(hub.pingpong_step("ping"), None);
}

#[test]
fn test_room_scenario() {
    // subscriber A joins room 7; B joins room 7; B sends a message;
    // A receives the envelope; the counter reports the delivery
    let mut hub = Hub::new();
    hub.ensure_room(7);
    let mut a = hub.subscribe(7).unwrap();
    hub.ensure_room(7);
    let mut b = hub.subscribe(7).unwrap();
    let outcome = hub.handle_frame(7, "B", "{\"message\":\"hi\"}");
    assert!(matches!(outcome, FrameOutcome::Published));
    let got = hub.next_message(&mut a).unwrap();
    assert_eq!(got, String::from("{\"user\":\"B\",\"message\":\"hi\"}"));
    hub.record_delivery();
    assert_eq!(hub.views_text(), String::from("1"));
    // B's own writer half also receives and sends it, raising the
    // counter again
    assert!(hub.next_message(&mut b).is_some());
    hub.record_delivery();
    assert_eq!(hub.views_text(), String::from("2"));
}

#[test]
fn test_both_subscribers_receive_in_publish_order() {
    let mut hub = Hub::new();
    hub.ensure_room(3);
    let mut a = hub.subscribe(3).unwrap();
    let mut b = hub.subscribe(3).unwrap();
    hub.handle_frame(3, "X", "{\"message\":\"first\"}");
    hub.handle_frame(3, "X", "{\"message\":\"second\"}");
    let a1 = hub.next_message(&mut a).unwrap();
    let a2 = hub.next_message(&mut a).unwrap();
    let b1 = hub.next_message(&mut b).unwrap();
    let b2 = hub.next_message(&mut b).unwrap();
    assert_eq!(a1, String::from("{\"user\":\"X\",\"message\":\"first\"}"));
    assert_eq!(a2, String::from("{\"user\":\"X\",\"message\":\"second\"}"));
    assert_eq!(a1, b1);
    assert_eq!(a2, b2);
    assert_eq!(hub.next_message(&mut a), None);
}

#[test]
fn test_late_joiner_gets_no_replay() {
    let mut hub = Hub::new();
    hub.ensure_room(5);
    hub.handle_frame(5, "X", "{\"message\":\"early\"}");
    let mut late = hub.subscribe(5).unwrap();
    assert_eq!(hub.next_message(&mut late), None);
    hub.handle_frame(5, "X", "{\"message\":\"later\"}");
    assert_eq!(
        hub.next_message(&mut late),
        Some(String::from("{\"user\":\"X\",\"message\":\"later\"}"))
    );
}

#[test]
fn test_overlong_message_is_never_delivered() {
    let mut hub = Hub::new();
    hub.ensure_room(1);
    let mut a = hub.subscribe(1).unwrap();
    let long: String = "x".repeat(129);
    let frame = format!("{{\"message\":\"{}\"}}", long);
    let outcome = hub.handle_frame(1, "A", frame.as_str());
    assert!(matches!(outcome, FrameOutcome::Discarded));
    assert_eq!(hub.next_message(&mut a), None);
    assert_eq!(hub.views_text(), String::from("0"));
    // exactly 128 scalar values still goes through
    let ok: String = "y".repeat(128);
    let frame = format!("{{\"message\":\"{}\"}}", ok);
    assert!(matches!(hub.handle_frame(1, "A", frame.as_str()), FrameOutcome::Published));
    assert!(hub.next_message(&mut a).is_some());
}

#[test]
fn test_malformed_frame_ends_session() {
    let mut hub = Hub::new();
    hub.ensure_room(2);
    assert!(matches!(hub.handle_frame(2, "A", "not json"), FrameOutcome::Malformed));
    assert!(matches!(hub.handle_frame(2, "A", "{\"msg\":\"hi\"}"), FrameOutcome::Malformed));
    assert!(matches!(hub.handle_frame(2, "A", "{\"message\":7}"), FrameOutcome::Malformed));
}

#[test]
fn test_room_zero_is_a_sink() {
    let mut hub = Hub::new();
    hub.ensure_room(0);
    assert!(hub.subscribe(0).is_none());
}

#[test]
fn test_lagging_subscriber_skips_to_oldest_buffered() {
    let mut hub = Hub::new();
    hub.ensure_room(9);
    let mut slow = hub.subscribe(9).unwrap();
    for k in 0..1001u32 {
        let frame = format!("{{\"message\":\"m{}\"}}", k);
        assert!(matches!(hub.handle_frame(9, "P", frame.as_str()), FrameOutcome::Published));
    }
    // the subscriber fell one entry behind the backlog of 1000: the
    // oldest still-buffered message is m1, not m0
    let got = hub.next_message(&mut slow).unwrap();
    assert_eq!(got, String::from("{\"user\":\"P\",\"message\":\"m1\"}"));
    let got = hub.next_message(&mut slow).unwrap();
    assert_eq!(got, String::from("{\"user\":\"P\",\"message\":\"m2\"}"));
}

#[test]
fn test_envelope_encoding_escapes() {
    let out = wire::encode_envelope("B", "a\"b\\c\nd");
    assert_eq!(out, String::from("{\"user\":\"B\",\"message\":\"a\\\"b\\\\c\\nd\"}"));
    let out = wire::encode_envelope("", "");
    assert_eq!(out, String::from("{\"user\":\"\",\"message\":\"\"}"));
    let out = wire::encode_envelope("u", "\u{1}");
    assert_eq!(out, String::from("{\"user\":\"u\",\"message\":\"\\u0001\"}"));
}

#[test]
fn test_envelope_parsing() {
    assert_eq!(
        wire::parse_envelope("{\"message\":\"hi\"}"),
        Some(String::from("hi"))
    );
    assert_eq!(
        wire::parse_envelope("  { \"message\" : \"hi\" }  "),
        Some(String::from("hi"))
    );
    // escapes, including a \u form and a surrogate pair
    assert_eq!(
        wire::parse_envelope("{\"message\":\"a\\nb\\u0041\\uD83C\\uDF81\"}"),
        Some(String::from("a\nbA\u{1F381}"))
    );
    // frames outside the grammar
    assert_eq!(wire::parse_envelope(""), None);
    assert_eq!(wire::parse_envelope("{\"message\":\"hi\"} trailing"), None);
    assert_eq!(wire::parse_envelope("{\"message\":\"unterminated}"), None);
    assert_eq!(wire::parse_envelope("{\"message\":\"bad\\q\"}"), None);
    assert_eq!(wire::parse_envelope("{\"message\":\"lone\\uD800\"}"), None);
}

#[test]
fn test_counter_counts_each_delivery() {
    // a message delivered to three live subscribers raises the counter
    // by exactly three
    let mut hub = Hub::new();
    hub.ensure_room(4);
    let mut s1 = hub.subscribe(4).unwrap();
    let mut s2 = hub.subscribe(4).unwrap();
    let mut s3 = hub.subscribe(4).unwrap();
    hub.handle_frame(4, "U", "{\"message\":\"fan out\"}");
    assert!(hub.next_message(&mut s1).is_some());
    hub.record_delivery();
    assert!(hub.next_message(&mut s2).is_some());
    hub.record_delivery();
    assert!(hub.next_message(&mut s3).is_some());
    hub.record_delivery();
    assert_eq!(hub.views_text(), String::from("3"));
}

#[test]
fn test_failed_send_is_not_counted() {
    // a message handed out but never successfully sent (the client was
    // gone) leaves the counter untouched
    let mut hub = Hub::new();
    hub.ensure_room(6);
    let mut s = hub.subscribe(6).unwrap();
    hub.handle_frame(6, "U", "{\"message\":\"lost\"}");
    assert!(hub.next_message(&mut s).is_some());
    // the send failed: nothing is recorded
    assert_eq!(hub.views_text(), String::from("0"));
}
