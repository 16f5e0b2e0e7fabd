use skinartplus::commands::accounts::{delete_account, load_accounts, save_account, SaveAccountRequest};
use skinartplus::commands::crypto::{decrypt_tokens, derive_key, encrypt_tokens};
use skinartplus::json::{get_str, parse_json, Json};

fn accounts(text: &str) -> Vec<Json> {
    match parse_json(text).unwrap() {
        Json::Array(a) => a,
        _ => panic!("not an array"),
    }
}

fn last_used(a: &Json) -> Option<bool> {
    a.get("lastUsed").and_then(|v| v.as_bool())
}

fn request(ign: &str, uuid: Option<&str>, token: Option<&str>) -> SaveAccountRequest {
    SaveAccountRequest { ign: ign.to_string(), uuid: uuid.map(|s| s.to_string()), refresh_token: token.map(|s| s.to_string()) }
}

#[test]
fn saving_a_new_account_adds_it_as_last_used() {
    let key = derive_key("m");
    let list = accounts("[{\"ign\":\"A\",\"lastUsed\":true,\"extra\":1.5}]");
    let out = save_account(list, request("B", Some("u-b"), None), &key).unwrap();
    assert_eq!(out.len(), 2);
    assert_eq!(last_used(&out[0]), Some(false));
    assert_eq!(get_str(&out[0], "ign").as_deref(), Some("A"));
    assert!(out[0].get("extra").is_some());
    assert_eq!(get_str(&out[1], "ign").as_deref(), Some("B"));
    assert_eq!(get_str(&out[1], "uuid").as_deref(), Some("u-b"));
    assert_eq!(last_used(&out[1]), Some(true));
    assert!(out[1].get("refreshToken").is_none());
}

#[test]
fn saving_an_existing_account_merges_into_it() {
    let key = derive_key("m");
    let list = accounts("[{\"ign\":\"A\",\"uuid\":\"old\",\"note\":\"keep\"},{\"ign\":\"B\",\"lastUsed\":true}]");
    let out = save_account(list, request("A", Some(""), Some("rt-1")), &key).unwrap();
    assert_eq!(out.len(), 2);
    assert_eq!(last_used(&out[0]), Some(true));
    assert_eq!(last_used(&out[1]), Some(false));
    assert_eq!(get_str(&out[0], "uuid").as_deref(), Some("old"));
    assert_eq!(get_str(&out[0], "note").as_deref(), Some("keep"));
    let sealed = get_str(&out[0], "refreshToken").unwrap();
    assert!(sealed.starts_with("enc:"));
    assert_eq!(decrypt_tokens(&key, &sealed).unwrap(), "rt-1");
}

#[test]
fn exactly_one_account_is_last_used_after_saving() {
    let key = derive_key("m");
    let list = accounts("[{\"ign\":\"A\",\"lastUsed\":true},{\"ign\":\"B\",\"lastUsed\":true},null]");
    let out = save_account(list, request("C", None, None), &key).unwrap();
    assert_eq!(out.len(), 4);
    let used: Vec<usize> = (0..out.len()).filter(|&i| last_used(&out[i]) == Some(true)).collect();
    assert_eq!(used, vec![3]);
    assert_eq!(last_used(&out[2]), Some(false));
}

#[test]
fn deleting_removes_every_entry_of_the_name() {
    let list = accounts("[{\"ign\":\"A\"},{\"ign\":\"B\",\"lastUsed\":true},{\"ign\":\"A\"}]");
    let out = delete_account(list, "A");
    assert_eq!(out.len(), 1);
    assert_eq!(get_str(&out[0], "ign").as_deref(), Some("B"));
    assert_eq!(last_used(&out[0]), Some(true));
}

#[test]
fn deleting_the_last_used_marks_the_first_left() {
    let list = accounts("[{\"ign\":\"A\",\"lastUsed\":true},{\"ign\":\"B\"},{\"ign\":\"C\"}]");
    let out = delete_account(list, "A");
    assert_eq!(out.len(), 2);
    assert_eq!(last_used(&out[0]), Some(true));
    assert_eq!(last_used(&out[1]), None);
    assert!(delete_account(accounts("[{\"ign\":\"A\"}]"), "A").is_empty());
}

#[test]
fn loading_opens_sealed_tokens() {
    let key = derive_key("m");
    let sealed = encrypt_tokens(&key, "rt-9").unwrap();
    let foreign = encrypt_tokens(&derive_key("other"), "x").unwrap();
    let text = format!(
        "[{{\"ign\":\"A\",\"refreshToken\":\"{}\"}},{{\"ign\":\"B\",\"refreshToken\":\"plain\"}},{{\"ign\":\"C\",\"refreshToken\":\"{}\"}},{{\"ign\":\"D\"}}]",
        sealed, foreign
    );
    let out = load_accounts(accounts(&text), &key);
    assert_eq!(out.len(), 4);
    assert_eq!(get_str(&out[0], "refreshToken").as_deref(), Some("rt-9"));
    assert_eq!(get_str(&out[1], "refreshToken").as_deref(), Some("plain"));
    assert_eq!(get_str(&out[2], "refreshToken").as_deref(), Some(""));
    assert!(out[3].get("refreshToken").is_none());
}

#[test]
fn a_saved_token_loads_back() {
    let key = derive_key("machine-x");
    let saved = save_account(vec![], request("Neo", None, Some("refresh-me")), &key).unwrap();
    let loaded = load_accounts(saved, &key);
    assert_eq!(get_str(&loaded[0], "refreshToken").as_deref(), Some("refresh-me"));
}
