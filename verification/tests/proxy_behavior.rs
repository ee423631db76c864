//! Preview-proxy translation rules: status collapsing, method mapping,
//! header filtering, the body cap, and the WebSocket relay steps.

use opensandbox::proxy::{
    backend_relay_step, body_within_limit, client_relay_step, collapse_status, forward_header,
    health, method_of, BackendFrame, ProxyMethod, RelayStep, WsFrame, MAX_PROXY_BODY_BYTES,
};
use opensandbox::strutil::u64_to_dec;

#[test]
fn status_codes_collapse_outside_the_valid_range() {
    assert_eq!(collapse_status(200), 200);
    assert_eq!(collapse_status(100), 100);
    assert_eq!(collapse_status(599), 599);
    assert_eq!(collapse_status(99), 502);
    assert_eq!(collapse_status(600), 502);
    assert_eq!(collapse_status(0), 502);
}

#[test]
fn methods_map_and_unknown_methods_default_to_get() {
    assert_eq!(method_of("GET"), ProxyMethod::Get);
    assert_eq!(method_of("POST"), ProxyMethod::Post);
    assert_eq!(method_of("PUT"), ProxyMethod::Put);
    assert_eq!(method_of("DELETE"), ProxyMethod::Delete);
    assert_eq!(method_of("PATCH"), ProxyMethod::Patch);
    assert_eq!(method_of("HEAD"), ProxyMethod::Head);
    assert_eq!(method_of("OPTIONS"), ProxyMethod::Options);
    assert_eq!(method_of("BREW"), ProxyMethod::Get);
}

#[test]
fn only_the_host_header_is_dropped() {
    assert!(!forward_header("host"));
    assert!(forward_header("content-type"));
    assert!(forward_header("x-forwarded-for"));
}

#[test]
fn body_cap_is_ten_mebibytes() {
    assert_eq!(MAX_PROXY_BODY_BYTES, 10 * 1024 * 1024);
    assert!(body_within_limit(MAX_PROXY_BODY_BYTES));
    assert!(!body_within_limit(MAX_PROXY_BODY_BYTES + 1));
    assert!(body_within_limit(0));
}

#[test]
fn client_frames_forward_unchanged_until_close() {
    match client_relay_step(WsFrame::Text("hello".to_string())) {
        RelayStep::Forward(WsFrame::Text(t)) => assert_eq!(t, "hello"),
        _ => panic!("text frame must be forwarded"),
    }
    match client_relay_step(WsFrame::Binary(vec![1, 2, 3])) {
        RelayStep::Forward(WsFrame::Binary(b)) => assert_eq!(b, vec![1, 2, 3]),
        _ => panic!("binary frame must be forwarded"),
    }
    assert!(matches!(client_relay_step(WsFrame::Ping(vec![9])), RelayStep::Forward(WsFrame::Ping(_))));
    assert!(matches!(client_relay_step(WsFrame::Pong(vec![])), RelayStep::Forward(WsFrame::Pong(_))));
    assert!(matches!(client_relay_step(WsFrame::Close), RelayStep::Stop));
}

#[test]
fn backend_frames_forward_skip_raw_and_stop_on_close() {
    match backend_relay_step(BackendFrame::Text("hi".to_string())) {
        RelayStep::Forward(WsFrame::Text(t)) => assert_eq!(t, "hi"),
        _ => panic!("text frame must be forwarded"),
    }
    assert!(matches!(backend_relay_step(BackendFrame::Other), RelayStep::Skip));
    assert!(matches!(backend_relay_step(BackendFrame::Close), RelayStep::Stop));
    match backend_relay_step(BackendFrame::Binary(vec![7])) {
        RelayStep::Forward(WsFrame::Binary(b)) => assert_eq!(b, vec![7]),
        _ => panic!("binary frame must be forwarded"),
    }
}

#[test]
fn health_returns_ok() {
    assert_eq!(health(), "OK");
}

#[test]
fn decimal_rendering() {
    assert_eq!(u64_to_dec(0), "0");
    assert_eq!(u64_to_dec(7), "7");
    assert_eq!(u64_to_dec(10000), "10000");
    assert_eq!(u64_to_dec(65535), "65535");
    assert_eq!(u64_to_dec(1048576), "1048576");
}
