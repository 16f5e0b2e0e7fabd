use skinartplus::commands::auth::{callback_outcome, profile_from_json, AuthCodeState, CodePoll, PollResult};
use skinartplus::json::parse_json;

#[test]
fn code_flow_waits_then_exchanges_once() {
    let mut state = AuthCodeState::new();
    match state.begin_poll() {
        CodePoll::Answer(r) => {
            assert_eq!(r.status, "pending");
            assert!(r.message.is_none());
        }
        _ => panic!("expected pending"),
    }
    state.record_callback(&callback_outcome("/cb?code=abc"));
    match state.begin_poll() {
        CodePoll::Exchange(c) => assert_eq!(c, "abc"),
        _ => panic!("expected the exchange"),
    }
    // the code is taken out: the next poll waits again
    assert!(matches!(state.begin_poll(), CodePoll::Answer(_)));
    state.finish_poll(PollResult {
        status: "success".to_string(),
        bearer_token: Some("mc".to_string()),
        refresh_token: None,
        message: None,
    });
    for _ in 0..2 {
        match state.begin_poll() {
            CodePoll::Answer(r) => {
                assert_eq!(r.status, "success");
                assert_eq!(r.bearer_token.as_deref(), Some("mc"));
            }
            _ => panic!("expected the kept result"),
        }
    }
}

#[test]
fn callback_errors_end_the_code_flow() {
    let mut state = AuthCodeState::new();
    state.record_callback(&callback_outcome("/cb?error=denied"));
    match state.begin_poll() {
        CodePoll::Answer(r) => {
            assert_eq!(r.status, "error");
            assert_eq!(r.message.as_deref(), Some("denied"));
        }
        _ => panic!("expected an error"),
    }
    let mut state = AuthCodeState::new();
    state.record_callback(&callback_outcome("/nothing"));
    match state.begin_poll() {
        CodePoll::Answer(r) => assert_eq!(r.message.as_deref(), Some("Invalid callback request")),
        _ => panic!("expected an error"),
    }
}

#[test]
fn profiles_read_from_json() {
    let p = profile_from_json(&parse_json("{\"id\":\"abc\",\"name\":\"Bob\",\"skins\":[]}").unwrap());
    assert_eq!((p.id.as_str(), p.name.as_str()), ("abc", "Bob"));
    let p = profile_from_json(&parse_json("{\"id\":5}").unwrap());
    assert_eq!((p.id.as_str(), p.name.as_str()), ("", ""));
}
