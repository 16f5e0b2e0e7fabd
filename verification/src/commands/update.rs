//! Release checks: version numbers compared as (major, minor, patch), and the
//! installer picked out of a release's assets.
use vstd::prelude::*;
use crate::commands::auth::{dec_value, unsigned_digits, all_ascii_digits, is_ascii_digit};
use crate::text::{str_chars, string_from_chars, chars_contain, contains_seq, chars_end_with, ends_with_seq, split_on, split_chars, lemma_split_on_nonempty};

verus! {

/// A release as the GitHub API describes it.
pub struct GitHubRelease {
    pub tag_name: String,
    pub html_url: String,
    pub assets: Vec<GitHubAsset>,
}

/// A file attached to a release.
pub struct GitHubAsset {
    pub name: String,
    pub browser_download_url: String,
}

/// What the update check tells the interface.
pub struct UpdateInfo {
    pub current_version: String,
    pub latest_version: String,
    pub is_outdated: bool,
    pub release_url: String,
    pub download_url: Option<String>,
}

/// `s` without its leading 'v's (`trim_start_matches('v')`).
pub open spec fn trim_v(s: Seq<char>) -> Seq<char>
    decreases s.len(),
{
    if s.len() > 0 && s[0] == 'v' {
        trim_v(s.drop_first())
    } else {
        s
    }
}

proof fn lemma_trim_v_skip(s: Seq<char>, i: int)
    requires
        0 <= i <= s.len(),
        forall|j: int| 0 <= j < i ==> s[j] == 'v',
    ensures
        trim_v(s) == trim_v(s.skip(i)),
    decreases i,
{
    if i > 0 {
        lemma_trim_v_skip(s.drop_first(), i - 1);
        assert(s.drop_first().skip(i - 1) == s.skip(i));
    } else {
        assert(s.skip(0) == s);
    }
}

/// Drops the leading 'v's of a version tag ("v1.2.3" reads "1.2.3").
pub fn strip_v(s: &str) -> (r: String)
    ensures
        r@ == trim_v(s@),
{
    let cs = str_chars(s);
    let mut i: usize = 0;
    while i < cs.len() && cs[i] == 'v'
        invariant
            cs@ == s@,
            i <= cs@.len(),
            forall|j: int| 0 <= j < i ==> cs@[j] == 'v',
        decreases cs@.len() - i,
    {
        i = i + 1;
    }
    proof {
        lemma_trim_v_skip(s@, i as int);
        assert(cs@.subrange(i as int, cs@.len() as int) == s@.skip(i as int));
    }
    string_from_chars(vstd::slice::slice_subrange(cs.as_slice(), i, cs.len()))
}

/// The version the running program reports, without a leading 'v'.
pub fn current_version(version_text: &str) -> (r: String)
    ensures
        r@ == trim_v(version_text@),
{
    strip_v(version_text)
}

/// `str::parse::<u64>`: an optional '+', then at least one decimal digit, the
/// value below 2^64.
pub open spec fn parse_u64_spec(s: Seq<char>) -> Option<u64> {
    let d = unsigned_digits(s);
    if d.len() > 0 && all_ascii_digits(d) && dec_value(d) <= u64::MAX {
        Some(dec_value(d) as u64)
    } else {
        None
    }
}

fn parse_u64(s: &[char]) -> (r: Option<u64>)
    ensures
        r == parse_u64_spec(s@),
{
    let start: usize = if s.len() > 0 && s[0] == '+' { 1 } else { 0 };
    let ghost d = unsigned_digits(s@);
    assert(d == s@.subrange(start as int, s@.len() as int));
    if start >= s.len() {
        return None;
    }
    let mut acc: u128 = 0;
    let mut i: usize = start;
    while i < s.len()
        invariant
            start <= i <= s@.len(),
            d == s@.subrange(start as int, s@.len() as int),
            d == unsigned_digits(s@),
            forall|j: int| start <= j < i ==> is_ascii_digit(s@[j]),
            acc as nat == if dec_value(s@.subrange(start as int, i as int)) <= u64::MAX {
                dec_value(s@.subrange(start as int, i as int))
            } else {
                u64::MAX as nat + 1
            },
        decreases s@.len() - i,
    {
        let c = s[i];
        if !('0' <= c && c <= '9') {
            assert(d[i - start] == c);
            assert(!is_ascii_digit(d[i - start]));
            return None;
        }
        let dv: u128 = (c as u128) - 48;
        let ghost pre = s@.subrange(start as int, i as int);
        assert(s@.subrange(start as int, i + 1).drop_last() == pre);
        assert(s@.subrange(start as int, i + 1).last() == c);
        if acc > 0xffff_ffff_ffff_ffff {
            acc = 0x1_0000_0000_0000_0000;
        } else {
            let v = acc * 10 + dv;
            acc = if v > 0xffff_ffff_ffff_ffff { 0x1_0000_0000_0000_0000 } else { v };
        }
        i = i + 1;
    }
    assert(s@.subrange(start as int, s@.len() as int) == d);
    assert(forall|j: int| 0 <= j < d.len() ==> d[j] == s@[start + j]);
    if acc > 0xffff_ffff_ffff_ffff {
        None
    } else {
        Some(acc as u64)
    }
}

/// The number in piece `i` of a split version, 0 where the piece is missing
/// or is not a number.
pub open spec fn version_part(parts: Seq<Seq<char>>, i: int) -> u64 {
    if i < parts.len() {
        match parse_u64_spec(parts[i]) {
            Some(n) => n,
            None => 0,
        }
    } else {
        0
    }
}

/// A version text read as (major, minor, patch): leading 'v's dropped, split
/// at the dots (`split('.')`), each of the first three pieces read as a number.
pub open spec fn parse_version_spec(v: Seq<char>) -> (u64, u64, u64) {
    let parts = split_on(trim_v(v), '.');
    (version_part(parts, 0), version_part(parts, 1), version_part(parts, 2))
}

/// Reads a version text as (major, minor, patch).
pub fn parse_version(v: &str) -> (r: (u64, u64, u64))
    ensures
        r == parse_version_spec(v@),
{
    let cleaned = strip_v(v);
    let cs = str_chars(cleaned.as_str());
    let parts = split_chars(cs.as_slice(), '.');
    proof {
        lemma_split_on_nonempty(cs@, '.');
    }
    let n = parts.len();
    let a = part_value(&parts[0]);
    let b = if n > 1 { part_value(&parts[1]) } else { 0 };
    let c = if n > 2 { part_value(&parts[2]) } else { 0 };
    (a, b, c)
}

fn part_value(p: &Vec<char>) -> (r: u64)
    ensures
        r == match parse_u64_spec(p@) {
            Some(n) => n,
            None => 0,
        },
{
    match parse_u64(p.as_slice()) {
        Some(n) => n,
        None => 0,
    }
}

/// (major, minor, patch) compared in that order, as tuples compare.
pub open spec fn version_gt(a: (u64, u64, u64), b: (u64, u64, u64)) -> bool {
    a.0 > b.0 || (a.0 == b.0 && (a.1 > b.1 || (a.1 == b.1 && a.2 > b.2)))
}

/// Whether `latest` is a later version than `current`.
pub fn is_newer(latest: &str, current: &str) -> (b: bool)
    ensures
        b == version_gt(parse_version_spec(latest@), parse_version_spec(current@)),
{
    let a = parse_version(latest);
    let b = parse_version(current);
    a.0 > b.0 || (a.0 == b.0 && (a.1 > b.1 || (a.1 == b.1 && a.2 > b.2)))
}

/// "Newer" orders versions strictly: no version is newer than itself, of two
/// versions at most one is newer than the other, and a version newer than a
/// newer one is newer still.
pub proof fn lemma_newer_is_strict(a: Seq<char>, b: Seq<char>, c: Seq<char>)
    ensures
        !version_gt(parse_version_spec(a), parse_version_spec(a)),
        version_gt(parse_version_spec(a), parse_version_spec(b)) ==> !version_gt(parse_version_spec(b), parse_version_spec(a)),
        version_gt(parse_version_spec(a), parse_version_spec(b)) && version_gt(parse_version_spec(b), parse_version_spec(c))
            ==> version_gt(parse_version_spec(a), parse_version_spec(c)),
{
}

/// What `str::to_lowercase` makes of `s`: the Unicode lowercase mapping,
/// which does not depend on the locale.
pub uninterp spec fn unicode_lowercase(s: Seq<char>) -> Seq<char>;

/// `str::to_lowercase`, named by `unicode_lowercase`.
#[verifier::external_body]
fn to_lowercase(s: &str) -> (r: String)
    ensures
        r@ == unicode_lowercase(s@),
{
    s.to_lowercase()
}

/// A lowercased asset name names an installer: it mentions "setup" or ends
/// in ".exe" or ".msi".
pub open spec fn installer_name(lower: Seq<char>) -> bool {
    contains_seq(lower, "setup"@) || ends_with_seq(lower, ".exe"@) || ends_with_seq(lower, ".msi"@)
}

/// Whether a lowercased asset name names an installer.
pub fn is_installer_name(lower: &str) -> (b: bool)
    ensures
        b == installer_name(lower@),
{
    let cs = str_chars(lower);
    let setup = str_chars("setup");
    let exe = str_chars(".exe");
    let msi = str_chars(".msi");
    chars_contain(cs.as_slice(), setup.as_slice()) || chars_end_with(cs.as_slice(), exe.as_slice())
        || chars_end_with(cs.as_slice(), msi.as_slice())
}

/// Whether an asset is the installer, its name compared in lowercase.
pub fn is_installer(asset: &GitHubAsset) -> (b: bool)
    ensures
        b == installer_name(unicode_lowercase(asset.name@)),
{
    let lower = to_lowercase(asset.name.as_str());
    is_installer_name(lower.as_str())
}

/// The first installer among `assets` from position `i` on.
pub open spec fn first_installer(assets: Seq<GitHubAsset>, i: int) -> Option<int>
    decreases assets.len() - i,
{
    if i < 0 || i >= assets.len() {
        None
    } else if installer_name(unicode_lowercase(assets[i].name@)) {
        Some(i)
    } else {
        first_installer(assets, i + 1)
    }
}

/// The download link of the first installer among the assets.
pub fn download_url(assets: &Vec<GitHubAsset>) -> (r: Option<String>)
    ensures
        match first_installer(assets@, 0) {
            Some(k) => r matches Some(u) && u@ == assets@[k].browser_download_url@,
            None => r is None,
        },
{
    let mut i: usize = 0;
    while i < assets.len()
        invariant
            i <= assets@.len(),
            first_installer(assets@, 0) == first_installer(assets@, i as int),
        decreases assets@.len() - i,
    {
        if is_installer(&assets[i]) {
            return Some(assets[i].browser_download_url.clone());
        }
        i = i + 1;
    }
    None
}

/// What the check reports from the latest release: its version without the
/// leading 'v's, whether that is newer than `current`, the release page, and
/// the installer's link.
pub fn update_info(current: &str, release: &GitHubRelease) -> (info: UpdateInfo)
    ensures
        info.current_version@ == current@,
        info.latest_version@ == trim_v(release.tag_name@),
        info.is_outdated == version_gt(parse_version_spec(trim_v(release.tag_name@)), parse_version_spec(current@)),
        info.release_url@ == release.html_url@,
        match first_installer(release.assets@, 0) {
            Some(k) => info.download_url matches Some(u) && u@ == release.assets@[k].browser_download_url@,
            None => info.download_url is None,
        },
{
    let latest = strip_v(release.tag_name.as_str());
    let download_url = download_url(&release.assets);
    let is_outdated = is_newer(latest.as_str(), current);
    UpdateInfo {
        current_version: String::from_str(current),
        latest_version: latest,
        is_outdated,
        release_url: release.html_url.clone(),
        download_url,
    }
}

/// What the check reports when the release could not be read: the current
/// version on both sides, not outdated, no links.
pub fn unchecked_update_info(current: &str) -> (info: UpdateInfo)
    ensures
        info.current_version@ == current@,
        info.latest_version@ == current@,
        !info.is_outdated,
        info.release_url@ == Seq::<char>::empty(),
        info.download_url is None,
{
    UpdateInfo {
        current_version: String::from_str(current),
        latest_version: String::from_str(current),
        is_outdated: false,
        release_url: String::new(),
        download_url: None,
    }
}

/// Whether the release page is to be opened: only for a newer release with a
/// page to open.
pub fn should_open_release(info: &UpdateInfo) -> (b: bool)
    ensures
        b == (info.is_outdated && info.release_url@.len() > 0),
{
    info.is_outdated && info.release_url.as_str().unicode_len() > 0
}

} // verus!
