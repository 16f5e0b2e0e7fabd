use base64::engine::general_purpose::STANDARD;
use base64::Engine;
use skinartplus::commands::auth::{minecraft_access_of, skin_texture_result, skin_url_of_profile, texture_failure};
use skinartplus::json::parse_json;

fn profile_with_texture(texture_json: &str) -> String {
    format!(
        r#"{{"id":"abc","name":"Steve","properties":[{{"name":"textures","value":"{}"}}]}}"#,
        STANDARD.encode(texture_json)
    )
}

#[test]
fn profile_skin_url_is_read_from_the_textures_property() {
    let text = profile_with_texture(r#"{"textures":{"SKIN":{"url":"http://textures.minecraft.net/texture/ab12"}}}"#);
    let j = parse_json(&text).unwrap();
    assert_eq!(skin_url_of_profile(&j), Ok("http://textures.minecraft.net/texture/ab12".to_string()));
}

#[test]
fn profile_without_textures_has_no_texture_data() {
    let j = parse_json(r#"{"id":"abc","name":"Steve","properties":[]}"#).unwrap();
    assert_eq!(skin_url_of_profile(&j), Err("No texture data".to_string()));
}

#[test]
fn texture_download_answers() {
    let ok = skin_texture_result(Ok(vec![1, 2, 3]));
    assert!(ok.success);
    assert_eq!(ok.data.as_deref(), Some("AQID"));
    assert_eq!(ok.error, None);
    let failed = skin_texture_result(Err("HTTP 404".into()));
    assert!(!failed.success);
    assert_eq!(failed.data, None);
    assert_eq!(failed.error.as_deref(), Some("HTTP 404"));
    let f = texture_failure("boom".into());
    assert!(!f.success && f.data.is_none());
    assert_eq!(f.error.as_deref(), Some("boom"));
}

#[test]
fn minecraft_access_token_is_read_from_the_login_answer() {
    let j = parse_json(r#"{"access_token":"tok","expires_in":86400}"#).unwrap();
    assert_eq!(minecraft_access_of(&j), Ok("tok".to_string()));
    let j = parse_json(r#"{"error":"x"}"#).unwrap();
    assert_eq!(minecraft_access_of(&j), Err("Minecraft auth failed: no access_token".to_string()));
}
