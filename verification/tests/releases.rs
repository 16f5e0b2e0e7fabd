use skinartplus::commands::update::{
    current_version, download_url, is_installer_name, is_newer, parse_version, should_open_release, strip_v,
    unchecked_update_info, update_info, GitHubAsset, GitHubRelease,
};

#[test]
fn versions_parse_as_three_numbers() {
    assert_eq!(parse_version("1.2.3"), (1, 2, 3));
    assert_eq!(parse_version("v1.2.3"), (1, 2, 3));
    assert_eq!(parse_version("vv10.0"), (10, 0, 0));
    assert_eq!(parse_version("1.x.3"), (1, 0, 3));
    assert_eq!(parse_version("+4.5.6.7"), (4, 5, 6));
    assert_eq!(parse_version(""), (0, 0, 0));
    assert_eq!(parse_version("1..2"), (1, 0, 2));
    assert_eq!(parse_version("18446744073709551615.18446744073709551616"), (u64::MAX, 0, 0));
    assert_eq!(parse_version("1.2.3-beta"), (1, 2, 0));
}

#[test]
fn newer_compares_in_order() {
    assert!(is_newer("1.2.4", "1.2.3"));
    assert!(is_newer("v2.0.0", "1.9.9"));
    assert!(is_newer("1.10.0", "1.9.0"));
    assert!(!is_newer("1.2.3", "1.2.3"));
    assert!(!is_newer("1.2.3", "1.3.0"));
    assert!(!is_newer("garbage", "0.0.0"));
}

#[test]
fn leading_vs_are_dropped() {
    assert_eq!(strip_v("vvv1"), "1");
    assert_eq!(strip_v("1v"), "1v");
    assert_eq!(current_version("v0.4.2"), "0.4.2");
}

#[test]
fn installer_names() {
    assert!(is_installer_name("skinart_setup_1.0.zip"));
    assert!(is_installer_name("app.exe"));
    assert!(is_installer_name("app.msi"));
    assert!(!is_installer_name("app.exe.sig"));
    assert!(!is_installer_name("source.tar.gz"));
}

fn asset(name: &str, url: &str) -> GitHubAsset {
    GitHubAsset { name: name.to_string(), browser_download_url: url.to_string() }
}

#[test]
fn first_installer_is_offered() {
    let assets = vec![asset("latest.json", "u0"), asset("Skinart_1.1_x64-SETUP.EXE", "u1"), asset("app.msi", "u2")];
    assert_eq!(download_url(&assets).as_deref(), Some("u1"));
    assert_eq!(download_url(&vec![asset("notes.txt", "u")]), None);
}

#[test]
fn update_reports() {
    let release = GitHubRelease {
        tag_name: "v1.3.0".to_string(),
        html_url: "https://github.com/x/y/releases/tag/v1.3.0".to_string(),
        assets: vec![asset("app.msi", "u2")],
    };
    let info = update_info("1.2.9", &release);
    assert_eq!(info.current_version, "1.2.9");
    assert_eq!(info.latest_version, "1.3.0");
    assert!(info.is_outdated);
    assert_eq!(info.download_url.as_deref(), Some("u2"));
    assert!(should_open_release(&info));
    let same = update_info("1.3.0", &release);
    assert!(!same.is_outdated);
    assert!(!should_open_release(&same));
    let none = unchecked_update_info("1.0.0");
    assert_eq!(none.latest_version, "1.0.0");
    assert!(!none.is_outdated);
    assert!(none.release_url.is_empty());
    assert!(none.download_url.is_none());
}
