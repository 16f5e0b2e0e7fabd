use skinartplus::commands::claim::{claim_busy, claim_config, claim_result, status_payload, ClaimProfile, ClaimRequest};
use skinartplus::commands::files::{
    base64_result, copy_failed_message, decode_temp_buffer, export_file_name, namemc_profile_url, temp_file_name, urlencode,
};
use skinartplus::commands::templates::{remote_template_url, remote_templates_json_url, template_filename, template_filenames, templates_array};
use skinartplus::json::parse_json;

#[test]
fn export_names_have_two_digits() {
    assert_eq!(export_file_name(7), "skin_07.png");
    assert_eq!(export_file_name(0), "skin_00.png");
    assert_eq!(export_file_name(26), "skin_26.png");
    assert_eq!(export_file_name(123), "skin_123.png");
    assert_eq!(export_file_name(-5), "skin_-5.png");
    assert_eq!(copy_failed_message("skin_01.png", "denied"), "Failed to copy skin_01.png: denied");
}

#[test]
fn urls_are_percent_encoded() {
    assert_eq!(urlencode("a b/c~d"), "a%20b%2Fc~d");
    assert_eq!(urlencode("é"), "%C3%A9");
    assert_eq!(namemc_profile_url("Iraqies 1"), "https://namemc.com/profile/Iraqies%201");
}

#[test]
fn temp_names() {
    assert_eq!(temp_file_name("a.png", 5), "a.png");
    assert_eq!(temp_file_name("   ", 1700000000000), "skinartplus_temp_1700000000000.png");
    assert_eq!(temp_file_name("", 0), "skinartplus_temp_0.png");
}

#[test]
fn base64_files() {
    let r = base64_result(Ok(vec![104, 105]));
    assert!(r.success);
    assert_eq!(r.data.as_deref(), Some("aGk="));
    let r = base64_result(Err("missing".to_string()));
    assert!(!r.success);
    assert_eq!(r.error.as_deref(), Some("missing"));
    assert_eq!(decode_temp_buffer("aGk=").unwrap(), vec![104, 105]);
    assert!(decode_temp_buffer("***").is_err());
}

fn request(server: Option<&str>, port: Option<u16>) -> ClaimRequest {
    ClaimRequest {
        bearer_token: "tok".to_string(),
        profile: ClaimProfile { name: "Bob".to_string(), id: "id-1".to_string() },
        server: server.map(|s| s.to_string()),
        port,
    }
}

#[test]
fn claim_settings_have_defaults() {
    let cfg = claim_config(&request(None, None));
    assert_eq!(cfg.server, "blockmania.com");
    assert_eq!(cfg.port, 25565);
    assert_eq!(cfg.bearer_token, "tok");
    assert_eq!(cfg.username, "Bob");
    assert_eq!(cfg.uuid, "id-1");
    let cfg = claim_config(&request(Some("mc.example"), Some(1)));
    assert_eq!((cfg.server.as_str(), cfg.port), ("mc.example", 1));
}

#[test]
fn claim_answers() {
    let busy = claim_busy();
    assert!(!busy.success);
    assert_eq!(busy.error.as_deref(), Some("A claim is already in progress"));
    let ok = claim_result(Ok("https://namemc.com/claim?key=1".to_string()));
    assert!(ok.success);
    assert_eq!(ok.url.as_deref(), Some("https://namemc.com/claim?key=1"));
    let err = claim_result(Err("Cancelled".to_string()));
    assert!(!err.success && err.url.is_none());
    assert_eq!(err.error.as_deref(), Some("Cancelled"));
    assert_eq!(status_payload("Typing /namemc...").message, "Typing /namemc...");
}

#[test]
fn templates_by_id() {
    let doc = parse_json("{\"templates\":[{\"id\":\"a\",\"filename\":\"images/a.png\"},{\"id\":\"b\"},{\"id\":\"b\",\"filename\":\"b2.png\"}]}").unwrap();
    let list = templates_array(&doc).unwrap();
    assert_eq!(template_filename(list, "a").as_deref(), Some("images/a.png"));
    assert_eq!(template_filename(list, "b"), None);
    assert_eq!(template_filename(list, "z"), None);
    assert_eq!(template_filenames(list), vec!["images/a.png".to_string(), "b2.png".to_string()]);
    assert!(templates_array(&parse_json("{\"templates\":1}").unwrap()).is_none());
    assert_eq!(remote_template_url("x.png"), "https://raw.githubusercontent.com/iraqies/MySkinArt/main/templates/x.png");
    assert!(remote_templates_json_url().ends_with("/templates/templates.json"));
}

#[test]
fn blank_names_count_unicode_white_space() {
    assert_eq!(temp_file_name("\u{3000}\t\u{a0}\n", 7), "skinartplus_temp_7.png");
    assert_eq!(temp_file_name("\u{200b}", 7), "\u{200b}");
    assert_eq!(temp_file_name(" x ", 7), " x ");
}
