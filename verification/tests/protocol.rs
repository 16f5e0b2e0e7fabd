use skinartplus::mc::client::{
    chat_body, claim_after_login, claim_candidates, clean_url, connecting_as_msg, encryption_response_body,
    every_version_refused, handshake_payload, join_failed_msg, login_packet_action, login_start_body,
    parse_encryption_request, play_packet_action, play_read_failure, play_tick, plugin_response_body,
    protocol_from_status, unsupported_protocol_msg, version_label, ChatStyle, ClaimNext, Layout, LoginAction,
    LoginEnd, PlayAction, PlayTick,
};
use skinartplus::mc::codec::varint_bytes;

fn mc_string(s: &str) -> Vec<u8> {
    let mut v = varint_bytes(s.len() as i32);
    v.extend_from_slice(s.as_bytes());
    v
}

#[test]
fn layouts_by_protocol() {
    assert!(Layout::for_protocol(758).is_none());
    assert!(Layout::for_protocol(764).is_none());
    assert_eq!(Layout::for_protocol(759).unwrap().protocol(), 759);
    assert_eq!(Layout::for_protocol(760).unwrap().protocol(), 761);
    assert_eq!(Layout::for_protocol(763).unwrap().protocol(), 763);
    let l = Layout::for_protocol(759).unwrap();
    assert_eq!((l.client_keepalive_id(), l.server_keepalive_id(), l.server_chat_id(), l.client_kick_id()), (0x1E, 0x11, 0x04, 0x17));
    let l = Layout::for_protocol(761).unwrap();
    assert_eq!((l.client_keepalive_id(), l.server_keepalive_id(), l.server_chat_id(), l.client_kick_id()), (0x20, 0x12, 0x05, 0x19));
    let l = Layout::for_protocol(762).unwrap();
    assert_eq!((l.client_keepalive_id(), l.server_keepalive_id(), l.server_chat_id(), l.client_kick_id()), (0x23, 0x12, 0x05, 0x1A));
    assert!(matches!(Layout::for_protocol(762).unwrap().chat_style(), ChatStyle::V763));
    assert!(matches!(Layout::for_protocol(760).unwrap().chat_style(), ChatStyle::V761));
}

#[test]
fn version_labels() {
    assert_eq!(version_label(759), "1.19");
    assert_eq!(version_label(760), "1.19.1/1.19.2");
    assert_eq!(version_label(763), "1.20/1.20.1");
    assert_eq!(version_label(1), "unknown");
    assert_eq!(connecting_as_msg(761), "Connecting as 1.19.3...");
    assert_eq!(unsupported_protocol_msg(42), "Unsupported protocol 42");
}

#[test]
fn candidates_start_with_the_detected_version() {
    assert_eq!(claim_candidates(None), vec![763, 760, 759, 762, 761]);
    assert_eq!(claim_candidates(Some(760)), vec![760, 759, 762, 761]);
    assert_eq!(claim_candidates(Some(5)), vec![5, 760, 759, 762, 761]);
}

#[test]
fn handshake_bytes() {
    let v = handshake_payload(763, "ab", 25565, 2);
    let mut expect = varint_bytes(763);
    expect.extend_from_slice(&[2, b'a', b'b', 0x63, 0xdd, 2]);
    assert_eq!(v, expect);
}

#[test]
fn login_start_bytes() {
    assert_eq!(login_start_body(759, "Bob", "x"), vec![3, b'B', b'o', b'b', 0]);
    let v = login_start_body(761, "Bob", "069a79f4-44e9-4726-a5be-fca90e38aaf5");
    assert_eq!(&v[..6], &[3, b'B', b'o', b'b', 0, 1]);
    assert_eq!(&v[6..], &[0x06, 0x9a, 0x79, 0xf4, 0x44, 0xe9, 0x47, 0x26, 0xa5, 0xbe, 0xfc, 0xa9, 0x0e, 0x38, 0xaa, 0xf5]);
}

#[test]
fn encryption_response_bytes() {
    assert_eq!(encryption_response_body(760, &[9, 9], &[7]), vec![2, 9, 9, 1, 1, 7]);
    assert_eq!(encryption_response_body(762, &[9, 9], &[7]), vec![2, 9, 9, 1, 7]);
    assert_eq!(plugin_response_body(300), vec![0xac, 0x02, 0]);
}

#[test]
fn chat_bodies() {
    let v = chat_body(Layout::for_protocol(759).unwrap(), "/namemc", 1);
    let mut expect = mc_string("/namemc");
    expect.extend_from_slice(&1i64.to_be_bytes());
    expect.extend_from_slice(&0i64.to_be_bytes());
    let mut a = expect.clone();
    a.extend_from_slice(&[0, 0]);
    assert_eq!(v, a);
    let v = chat_body(Layout::for_protocol(761).unwrap(), "/namemc", 1);
    let mut b = expect.clone();
    b.extend_from_slice(&[0, 0, 0, 0]);
    assert_eq!(v, b);
    let v = chat_body(Layout::for_protocol(763).unwrap(), "/namemc", 1);
    let mut c = expect.clone();
    c.extend_from_slice(&[0, 0, 0, 0, 0]);
    assert_eq!(v, c);
}

#[test]
fn encryption_request_is_read() {
    let mut data = mc_string("");
    data.extend_from_slice(&[3, 1, 2, 3]);
    data.extend_from_slice(&[2, 8, 9]);
    let q = parse_encryption_request(&data).unwrap();
    assert_eq!(q.server_id, "");
    assert_eq!(q.public_key, vec![1, 2, 3]);
    assert_eq!(q.verify_token, vec![8, 9]);
    match login_packet_action(0x01, &data) {
        LoginAction::Encrypt(q) => assert_eq!(q.verify_token, vec![8, 9]),
        _ => panic!("expected an encryption request"),
    }
}

#[test]
fn login_packets() {
    assert!(matches!(login_packet_action(0x02, &[]), LoginAction::Play));
    assert!(matches!(login_packet_action(0x03, &[0xac, 0x02]), LoginAction::SetCompression(300)));
    match login_packet_action(0x03, &[0x80]) {
        LoginAction::Failed(e) => assert_eq!(e, "invalid varint"),
        _ => panic!("expected a failure"),
    }
    match login_packet_action(0x04, &[5, 1, 2]) {
        LoginAction::PluginResponse(b) => assert_eq!(b, vec![5, 0]),
        _ => panic!("expected a plugin response"),
    }
    match login_packet_action(0x00, &mc_string("{\"text\":\"bye\"}")) {
        LoginAction::Disconnected(r) => assert_eq!(r, "{\"text\":\"bye\"}"),
        _ => panic!("expected a disconnect"),
    }
    match login_packet_action(0x00, &[0x80]) {
        LoginAction::Disconnected(r) => assert_eq!(r, "unknown"),
        _ => panic!("expected a disconnect"),
    }
    assert!(matches!(login_packet_action(0x17, &[]), LoginAction::Ignore));
}

#[test]
fn play_packets() {
    let l = Layout::for_protocol(763).unwrap();
    match play_packet_action(l, 0x23, &[1, 2, 3, 4, 5, 6, 7, 8]) {
        PlayAction::KeepAlive(id, d) => {
            assert_eq!(id, 0x12);
            assert_eq!(d, vec![1, 2, 3, 4, 5, 6, 7, 8]);
        }
        _ => panic!("expected a keep alive"),
    }
    match play_packet_action(l, 0x1A, &mc_string("banned")) {
        PlayAction::Kicked(e) => assert_eq!(e, "Disconnected by server: banned"),
        _ => panic!("expected a kick"),
    }
    match play_packet_action(l, 0x1A, &[]) {
        PlayAction::Kicked(e) => assert_eq!(e, "Disconnected by server"),
        _ => panic!("expected a kick"),
    }
    let text = b"{\"text\":\"Click: https://namemc.com/claim?key=abc123\"}";
    match play_packet_action(l, 0x64, text) {
        PlayAction::Link(u) => assert_eq!(u, "https://namemc.com/claim?key=abc123"),
        _ => panic!("expected the link"),
    }
    assert!(matches!(play_packet_action(l, 0x64, b"nothing here"), PlayAction::Continue));
}

#[test]
fn urls_lose_trailing_junk() {
    assert_eq!(clean_url("https://namemc.com/claim?key=1\"}"), "https://namemc.com/claim?key=1");
    assert_eq!(clean_url("https://namemc.com/x/"), "https://namemc.com/x/");
    assert_eq!(clean_url("\"\""), "");
}

#[test]
fn play_loop_ticks() {
    assert!(matches!(play_tick(true, 0, None), PlayTick::Cancelled));
    assert!(matches!(play_tick(false, 300_001, None), PlayTick::TimedOut));
    assert!(matches!(play_tick(false, 1999, None), PlayTick::Read));
    assert!(matches!(play_tick(false, 2000, None), PlayTick::SendChat));
    assert!(matches!(play_tick(false, 30_000, Some(20_001)), PlayTick::LinkTimedOut));
    assert!(matches!(play_tick(false, 30_000, Some(5)), PlayTick::Read));
}

#[test]
fn claim_steps_after_login() {
    assert!(matches!(claim_after_login(LoginEnd::Play), ClaimNext::Play));
    assert!(matches!(claim_after_login(LoginEnd::Rejected), ClaimNext::TryNext));
    match claim_after_login(LoginEnd::Disconnected("full".to_string())) {
        ClaimNext::Fail(e) => assert_eq!(e, "Disconnected during login: full"),
        _ => panic!("expected a failure"),
    }
    match claim_after_login(LoginEnd::Failed("boom".to_string())) {
        ClaimNext::Fail(e) => assert_eq!(e, "boom"),
        _ => panic!("expected a failure"),
    }
    assert!(every_version_refused().starts_with("The server closed the connection during login"));
}

#[test]
fn failure_messages() {
    let long = "x".repeat(300);
    let m = join_failed_msg(&long);
    assert!(m.starts_with("Mojang rejected the session join (HTTP)."));
    assert!(m.ends_with(&"x".repeat(200)));
    assert!(!m.ends_with(&"x".repeat(201)));
    assert_eq!(play_read_failure("io: early eof"), "Server closed the connection while waiting for the NameMC link (early EOF).");
    assert_eq!(play_read_failure("reset"), "reset");
}

#[test]
fn status_protocol() {
    let data = mc_string("{\"version\":{\"name\":\"1.20.1\",\"protocol\":763}}");
    assert_eq!(protocol_from_status(0, &data), Some(763));
    assert_eq!(protocol_from_status(1, &data), None);
    assert_eq!(protocol_from_status(0, &mc_string("not json")), None);
}
