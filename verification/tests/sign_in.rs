use skinartplus::commands::files::urlencode;
use skinartplus::commands::auth::{
    auth_flow_mode, callback_error, callback_outcome, callback_query_decodable, callback_request_path, callback_status,
    code_flow_start, device_poll_step, form_body, http_response, http_status_error, identity_token, minecraft_access,
    poll_result_after_exchange, redirect_host_port, rps_ticket, urldecode, urldecode_would_split, CallbackOutcome,
    PollStep, TokenResponse,
};

#[test]
fn urldecode_reads_escapes_and_plus() {
    assert_eq!(urldecode("a+b%20c"), "a b c");
    assert_eq!(urldecode("%41%62"), "Ab");
    assert_eq!(urldecode("%zz"), "%zz");
    assert_eq!(urldecode("100%"), "100%");
    assert_eq!(urldecode("%+5"), "\u{5}");
    assert_eq!(urldecode("%C3%A9"), "é");
    assert_eq!(urldecode("%ff"), "\u{fffd}");
}

#[test]
fn urldecode_split_check() {
    assert!(!urldecode_would_split("abc%41"));
    assert!(urldecode_would_split("%aé"));
    assert!(!urldecode_would_split("%é"));
}

#[test]
fn redirect_uri_host_and_port() {
    assert_eq!(redirect_host_port("http://localhost:53682/callback"), ("localhost".to_string(), 53682));
    assert_eq!(redirect_host_port("http://127.0.0.1/cb"), ("127.0.0.1".to_string(), 80));
    assert_eq!(redirect_host_port("localhost:99999"), ("localhost".to_string(), 80));
    assert_eq!(redirect_host_port("http://host:+8080"), ("host".to_string(), 8080));
}

#[test]
fn form_bodies() {
    let body = form_body(&[("grant_type", "refresh_token"), ("scope", "XboxLive.signin offline_access")], None);
    assert_eq!(body, "grant_type=refresh_token&scope=XboxLive.signin%20offline_access");
    let body = form_body(&[("a", "1")], Some("s&t"));
    assert_eq!(body, "a=1&client_secret=s%26t");
    assert_eq!(form_body(&[], Some("x")), "client_secret=x");
    assert_eq!(form_body(&[], None), "");
}

#[test]
fn flow_mode_follows_the_secret() {
    assert_eq!(auth_flow_mode(Some("s")), "code");
    assert_eq!(auth_flow_mode(None), "device");
}

#[test]
fn authorize_url() {
    let r = code_flow_start("consumers", "id 1", "http://localhost:1/cb");
    assert_eq!(r.flow, "code");
    assert!(r.verification_uri.starts_with("https://login.microsoftonline.com/consumers/oauth2/v2.0/authorize?client_id=id%201"));
}

fn token(error: Option<&str>, desc: Option<&str>, access: Option<&str>) -> TokenResponse {
    TokenResponse {
        has_error: error.is_some(),
        error: error.map(|s| s.to_string()),
        error_description: desc.map(|s| s.to_string()),
        access_token: access.map(|s| s.to_string()),
        refresh_token: None,
    }
}

#[test]
fn device_polling() {
    match device_poll_step(&token(Some("authorization_pending"), None, None)) {
        PollStep::Done(p) => assert_eq!(p.status, "pending"),
        _ => panic!("expected pending"),
    }
    match device_poll_step(&token(Some("slow_down"), None, None)) {
        PollStep::Done(p) => assert_eq!(p.status, "slow_down"),
        _ => panic!("expected slow_down"),
    }
    match device_poll_step(&token(Some("expired_token"), Some("too late"), None)) {
        PollStep::Done(p) => {
            assert_eq!(p.status, "error");
            assert_eq!(p.message.as_deref(), Some("too late"));
        }
        _ => panic!("expected an error"),
    }
    match device_poll_step(&token(None, None, Some("ms-token"))) {
        PollStep::Exchange(a) => assert_eq!(a, "ms-token"),
        _ => panic!("expected the exchange"),
    }
    let done = poll_result_after_exchange(Ok("mc".to_string()), Some("rt".to_string()));
    assert_eq!(done.status, "success");
    assert_eq!(done.bearer_token.as_deref(), Some("mc"));
    assert_eq!(done.refresh_token.as_deref(), Some("rt"));
}

#[test]
fn xbox_pieces() {
    assert_eq!(rps_ticket("abc"), "d=abc");
    assert_eq!(identity_token("uhs1", "xsts"), "XBL3.0 x=uhs1;xsts");
    assert_eq!(minecraft_access(None).unwrap_err(), "Minecraft auth failed: no access_token");
    assert_eq!(minecraft_access(Some("t".to_string())).unwrap(), "t");
    assert_eq!(http_status_error(404), "HTTP 404");
}

#[test]
fn callback_path_is_the_request_target() {
    assert_eq!(callback_request_path(b"GET /callback?code=abc HTTP/1.1\r\nHost: x\r\n\r\n"), "/callback?code=abc");
    assert_eq!(callback_request_path(b""), "/");
    assert_eq!(callback_request_path(b"GET"), "/");
    assert_eq!(callback_request_path(b"  GET   /x  "), "/x");
}

fn outcome(path: &str) -> CallbackOutcome {
    assert!(callback_query_decodable(path));
    callback_outcome(path)
}

#[test]
fn callback_outcomes() {
    match outcome("/cb?state=1&code=M.abc%2B1") {
        CallbackOutcome::Code(c) => assert_eq!(c, "M.abc+1"),
        _ => panic!("expected a code"),
    }
    match outcome("/cb?code=first&code=second") {
        CallbackOutcome::Code(c) => assert_eq!(c, "second"),
        _ => panic!("expected a code"),
    }
    let o = outcome("/cb?error=access_denied&error_description=The+user+said+no");
    match &o {
        CallbackOutcome::Error(e) => assert_eq!(e, "The user said no"),
        _ => panic!("expected an error"),
    }
    assert_eq!(callback_status(&o), 200);
    match outcome("/cb?error=access_denied") {
        CallbackOutcome::Error(e) => assert_eq!(e, "access_denied"),
        _ => panic!("expected an error"),
    }
    let o = outcome("/cb?x=1");
    assert!(matches!(o, CallbackOutcome::MissingCode));
    assert_eq!(callback_status(&o), 400);
    assert_eq!(callback_error(&o).as_deref(), Some("No authorization code received"));
    let o = outcome("/favicon.ico");
    assert!(matches!(o, CallbackOutcome::BadRequest));
    assert_eq!(callback_error(&o).as_deref(), Some("Invalid callback request"));
    assert!(!callback_query_decodable("/cb?code=%aé"));
}

#[test]
fn http_responses() {
    assert_eq!(
        http_response(200, "hé"),
        "HTTP/1.1 200 OK\r\nContent-Type: text/html; charset=utf-8\r\nContent-Length: 3\r\nConnection: close\r\n\r\nhé"
    );
    assert!(http_response(400, "Bad request").starts_with("HTTP/1.1 400 Bad Request\r\n"));
}

#[test]
fn urldecode_undoes_urlencode() {
    for s in ["", "plain", "a b+c&d=e/f?g", "100% ümlaut ✓ 😀", "~-._"] {
        assert_eq!(urldecode(&urlencode(s)), s);
    }
}
