use skinartplus::commands::namemc::{
    canonical_from_redirect, dripfy_hashes, extract_hashes, face_data_urls, hash_from_skins_url, hashes_html,
    is_challenge, namemc_fetch_error, no_skins_found, profile_lookup_url, scrape_all_result, scraped_skin,
    skin_texture_url, take_first, to_ascii_lowercase, upload_cancelled, upload_failed, upload_result, uuid_result,
    DripfyResponse,
};
use skinartplus::commands::namemc::{fetch_backoff_ms, upload_variant};
use skinartplus::commands::namemc::{collect_ok, first_profile_source, profile_fetch_next, ProfileSource, ProfileStep, SourceOutcome};
use skinartplus::json::parse_json;

const H1: &str = "0123456789abcdef";
const H2: &str = "fedcba9876543210";

#[test]
fn challenge_pages() {
    assert!(is_challenge("<title>Just a moment...</title>"));
    assert!(is_challenge("x cf-chl-opt y"));
    assert!(is_challenge("Checking your browser before accessing"));
    assert!(!is_challenge("<script src=\"/cdn-cgi/challenge-platform/scripts/jsd/main.js\"></script>"));
    assert!(!is_challenge("<html>profile</html>"));
}

#[test]
fn hashes_html_reads_back() {
    let hs = vec![H1.to_string(), H2.to_string(), H1.to_string()];
    let html = hashes_html(&hs);
    assert_eq!(html, format!("\n<div data-id=\"{}\"></div>\n<div data-id=\"{}\"></div>\n<div data-id=\"{}\"></div>", H1, H2, H1));
    assert_eq!(extract_hashes(&html), vec![H1.to_string(), H2.to_string()]);
}

#[test]
fn hashes_come_from_data_ids_then_skin_links() {
    let html = format!("<a href=\"/skin/{}\"></a><div data-id=\"{}\"></div><a href=\"/skin/{}\">", H2, H1, H1);
    assert_eq!(extract_hashes(&html), vec![H1.to_string(), H2.to_string()]);
    assert!(extract_hashes("<div data-id=\"0123456789ABCDEF\"></div>").is_empty());
    assert!(extract_hashes("").is_empty());
}

#[test]
fn hashes_from_texture_urls() {
    assert_eq!(hash_from_skins_url("https://s.namemc.com/i/0123456789ABCDEF.png").as_deref(), Some(H1));
    assert_eq!(hash_from_skins_url("https://x.io/render?id=fedcba9876543210&s=1").as_deref(), Some(H2));
    assert_eq!(hash_from_skins_url("https://x.io/render?ID=0123456789abcdef").as_deref(), Some(H1));
    assert_eq!(hash_from_skins_url("https://x.io/i/0123"), None);
    assert_eq!(to_ascii_lowercase("AbC-É"), "abc-É");
}

#[test]
fn dripfy_answers() {
    let doc = parse_json(&format!(
        "{{\"ok\":true,\"skin\":{{\"raw\":\"https://s.namemc.com/i/{}.png\"}},\"skins\":[{{\"skin_id\":\"{}\",\"raw\":\"/i/{}.png\"}}]}}",
        H1, H2, H1
    ))
    .unwrap();
    let resp = DripfyResponse::from_json(&doc);
    assert!(resp.ok);
    assert_eq!(dripfy_hashes(&resp).unwrap(), vec![H1.to_string(), H2.to_string()]);
    let missing = DripfyResponse::from_json(&parse_json("{\"ok\":false}").unwrap());
    assert_eq!(dripfy_hashes(&missing).unwrap_err(), "Dripfy: player not found");
}

#[test]
fn canonical_names() {
    assert_eq!(canonical_from_redirect("Iraqies", 301, Some("https://namemc.com/profile/Iraqies.1/")).unwrap(), "Iraqies.1");
    assert_eq!(canonical_from_redirect("Iraqies", 200, None).unwrap(), "Iraqies");
    assert_eq!(canonical_from_redirect("Iraqies", 302, Some("/elsewhere")).unwrap(), "Iraqies");
    assert_eq!(canonical_from_redirect("Iraqies", 404, None).unwrap_err(), "profile not found: Iraqies");
}

#[test]
fn fetch_errors() {
    assert_eq!(namemc_fetch_error(Some("timeout".to_string())), "NameMC fetch failed: timeout");
    assert_eq!(namemc_fetch_error(None), "NameMC fetch failed: unknown error");
    assert!(namemc_fetch_error(Some("HTTP 403".to_string())).starts_with("NameMC is temporarily blocking this request (HTTP 403)."));
}

#[test]
fn uploads() {
    let ok = upload_result(200, "{\"skins\":[{\"state\":\"INACTIVE\",\"url\":\"a\"},{\"state\":\"ACTIVE\",\"url\":\"b\"}]}");
    assert!(ok.success && !ok.cancelled);
    assert_eq!(ok.status_code, Some(200));
    assert_eq!(ok.skin_url.as_deref(), Some("b"));
    let bad = upload_result(400, "{\"errorMessage\":\"x\",\"error\":\"Bad skin\"}");
    assert!(!bad.success);
    assert_eq!(bad.error.as_deref(), Some("Bad skin"));
    let bad = upload_result(429, "not json");
    assert_eq!(bad.error.as_deref(), Some("HTTP 429"));
    let c = upload_cancelled();
    assert!(c.cancelled && !c.success);
    assert_eq!(c.error.as_deref(), Some("Upload cancelled"));
    assert_eq!(upload_failed("e".to_string()).error.as_deref(), Some("e"));
}

#[test]
fn scrape_answers() {
    assert_eq!(skin_texture_url(H1), format!("https://s.namemc.com/i/{}.png", H1));
    let r = no_skins_found();
    assert_eq!(r.error.as_deref(), Some("No skins found on NameMC profile"));
    let r = scraped_skin(H1, &[1, 2, 3]);
    assert!(r.success);
    assert_eq!(r.skin_data_base64.as_deref(), Some("AQID"));
    assert_eq!(r.skin_hash.as_deref(), Some(H1));
    let none = scrape_all_result(vec![]);
    assert!(!none.success);
    assert_eq!(none.error.as_deref(), Some("Failed to download any skins"));
    let some = scrape_all_result(vec!["a".to_string()]);
    assert!(some.success);
    assert_eq!(some.count, 1);
    assert!(face_data_urls(&vec![b"broken".to_vec()]).is_empty());
    assert_eq!(take_first(vec!["a".into(), "b".into(), "c".into()], 2), vec!["a".to_string(), "b".to_string()]);
}

#[test]
fn profile_lookups() {
    assert_eq!(profile_lookup_url("a b"), "https://api.mojang.com/users/profiles/minecraft/a%20b");
    let p = uuid_result(&parse_json("{\"id\":\"abc\",\"name\":\"Bob\"}").unwrap());
    assert_eq!(p.uuid.as_deref(), Some("abc"));
    assert_eq!(p.name.as_deref(), Some("Bob"));
    assert!(p.error.is_none());
}

#[test]
fn fetch_pacing_and_upload_model() {
    assert_eq!((fetch_backoff_ms(1), fetch_backoff_ms(2), fetch_backoff_ms(3)), (1500, 4000, 0));
    assert_eq!(upload_variant(None), "classic");
    assert_eq!(upload_variant(Some("slim".to_string())), "slim");
}

#[test]
fn collect_ok_keeps_downloads_in_order() {
    let results: Vec<Result<Vec<u8>, String>> = vec![
        Ok(vec![1]),
        Err("timeout".to_string()),
        Ok(vec![2, 2]),
        Err(String::new()),
        Ok(vec![3]),
    ];
    assert_eq!(collect_ok(results), vec![vec![1], vec![2, 2], vec![3]]);
    assert!(collect_ok(Vec::new()).is_empty());
}

fn step_is_next(step: ProfileStep, expected: ProfileSource) -> bool {
    match step {
        ProfileStep::Next(s) => std::mem::discriminant(&s) == std::mem::discriminant(&expected),
        _ => false,
    }
}

#[test]
fn profile_lookup_walks_the_sources_in_order() {
    assert!(matches!(first_profile_source(), ProfileSource::BrowserTls));
    assert!(step_is_next(profile_fetch_next(ProfileSource::BrowserTls, SourceOutcome::Failed("x".into())), ProfileSource::Dripfy));
    assert!(step_is_next(profile_fetch_next(ProfileSource::Dripfy, SourceOutcome::Hashes(vec![])), ProfileSource::Curl));
    assert!(step_is_next(profile_fetch_next(ProfileSource::Curl, SourceOutcome::Html("   ".into())), ProfileSource::Reqwest));
    assert!(step_is_next(
        profile_fetch_next(ProfileSource::Reqwest, SourceOutcome::Html("<title>Just a moment...</title>".into())),
        ProfileSource::WebView
    ));
}

#[test]
fn profile_lookup_takes_the_first_usable_answer() {
    match profile_fetch_next(ProfileSource::BrowserTls, SourceOutcome::Html("<html>p</html>".into())) {
        ProfileStep::Done(h) => assert_eq!(h, "<html>p</html>"),
        _ => panic!("expected the page"),
    }
    let hashes = vec!["abc123".to_string()];
    match profile_fetch_next(ProfileSource::Dripfy, SourceOutcome::Hashes(hashes.clone())) {
        ProfileStep::Done(h) => assert_eq!(h, hashes_html(&hashes)),
        _ => panic!("expected the hashes page"),
    }
    match profile_fetch_next(ProfileSource::Curl, SourceOutcome::Html("<html>profile</html>".into())) {
        ProfileStep::Done(h) => assert_eq!(h, "<html>profile</html>"),
        _ => panic!("expected the page"),
    }
}

#[test]
fn profile_lookup_gives_up_after_the_web_view() {
    match profile_fetch_next(ProfileSource::WebView, SourceOutcome::Hashes(vec![])) {
        ProfileStep::Fail(m) => assert_eq!(m, "No skins found on NameMC profile"),
        _ => panic!("expected failure"),
    }
    match profile_fetch_next(ProfileSource::WebView, SourceOutcome::Failed("Invalid URL: x".into())) {
        ProfileStep::Fail(m) => assert_eq!(m, "Invalid URL: x"),
        _ => panic!("expected failure"),
    }
}
