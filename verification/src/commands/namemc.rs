//! NameMC: recognising challenge pages, finding skin hashes, and reading the
//! answers of the skin services.
use vstd::prelude::*;
use regex::Regex;
use crate::json::{Json, parse_json, json_of_text, get_spec, opt_str_spec, get_str};
use crate::text::str_eq;
use crate::text::{str_chars, chars_contain, contains_seq, occurs_at, push_char, with_str, chars_occur_at, string_from_chars, with_decimal, decimal_int};
use vstd::slice::slice_subrange;
use crate::commands::image::{chan_index, decode_image, decoded_image, encode_png, png_of, lemma_chan_decompose};
use crate::text::push_decimal;
use crate::json::field_str;
use crate::commands::auth::{opt_view, png_data_url, png_data_url_prefix};
use crate::commands::crypto::{base64_encode, base64_encoded};
use crate::commands::files::{urlencode, url_encoded, trim, unicode_trim};
use vstd::string::StringSliceAdditionalSpecFns;

verus! {

/// The marks of a Cloudflare interstitial page.
pub open spec fn challenge_marks() -> Seq<Seq<char>> {
    seq!["Just a moment"@, "cf-chl-"@, "__cf_chl"@, "Verify you are human"@, "Checking your browser"@]
}

/// A page is a Cloudflare interstitial rather than the profile when it
/// carries one of the marks ("challenge-platform" is deliberately not one:
/// every Cloudflare page loads a beacon from there).
pub open spec fn is_challenge_spec(html: Seq<char>) -> bool {
    exists|i: int| 0 <= i < 5 && #[trigger] contains_seq(html, challenge_marks()[i])
}

/// A page is a Cloudflare challenge exactly when it contains "Just a moment",
/// "cf-chl-", "__cf_chl", "Verify you are human" or "Checking your browser".
pub proof fn lemma_challenge_marks(html: Seq<char>)
    ensures
        is_challenge_spec(html) <==> (contains_seq(html, "Just a moment"@) || contains_seq(html, "cf-chl-"@)
            || contains_seq(html, "__cf_chl"@) || contains_seq(html, "Verify you are human"@)
            || contains_seq(html, "Checking your browser"@)),
{
    let m = challenge_marks();
    assert(m[0] == "Just a moment"@);
    assert(m[1] == "cf-chl-"@);
    assert(m[2] == "__cf_chl"@);
    assert(m[3] == "Verify you are human"@);
    assert(m[4] == "Checking your browser"@);
    if contains_seq(html, "Just a moment"@) { assert(contains_seq(html, m[0])); }
    if contains_seq(html, "cf-chl-"@) { assert(contains_seq(html, m[1])); }
    if contains_seq(html, "__cf_chl"@) { assert(contains_seq(html, m[2])); }
    if contains_seq(html, "Verify you are human"@) { assert(contains_seq(html, m[3])); }
    if contains_seq(html, "Checking your browser"@) { assert(contains_seq(html, m[4])); }
}

pub fn is_challenge(html: &str) -> (b: bool)
    ensures
        b == is_challenge_spec(html@),
{
    let hs = str_chars(html);
    let marks: [&str; 5] = ["Just a moment", "cf-chl-", "__cf_chl", "Verify you are human", "Checking your browser"];
    let mut i: usize = 0;
    while i < 5
        invariant
            i <= 5,
            hs@ == html@,
            forall|j: int| 0 <= j < 5 ==> #[trigger] marks@[j]@ == challenge_marks()[j],
            forall|j: int| 0 <= j < i ==> !contains_seq(html@, #[trigger] challenge_marks()[j]),
        decreases 5 - i,
    {
        let m = str_chars(marks[i]);
        if chars_contain(hs.as_slice(), m.as_slice()) {
            return true;
        }
        i = i + 1;
    }
    false
}


/// Joins the pieces.
pub open spec fn concat_all(parts: Seq<Seq<char>>) -> Seq<char>
    decreases parts.len(),
{
    if parts.len() == 0 {
        Seq::empty()
    } else {
        concat_all(parts.drop_last()) + parts.last()
    }
}

/// One skin hash as the HTML fragment that `extract_hashes` reads back.
pub open spec fn hash_div(h: Seq<char>) -> Seq<char> {
    "\n<div data-id=\""@ + h + "\"></div>"@
}

/// An HTML fragment carrying the skin hashes, one `data-id` element each.
pub fn hashes_html(hashes: &[String]) -> (r: String)
    ensures
        r@ == concat_all(hashes@.map_values(|h: String| hash_div(h@))),
        r@ == hashes_fragment(hashes@.map_values(|h: String| h@)),
{
    proof {
        assert(hashes@.map_values(|h: String| hash_div(h@)) =~= hashes@.map_values(|h: String| h@).map_values(
            |h: Seq<char>| hash_div(h),
        ));
    }
    let ghost parts = hashes@.map_values(|h: String| hash_div(h@));
    let mut r = String::new();
    let mut i: usize = 0;
    while i < hashes.len()
        invariant
            i <= hashes@.len(),
            parts == hashes@.map_values(|h: String| hash_div(h@)),
            r@ == concat_all(parts.subrange(0, i as int)),
        decreases hashes@.len() - i,
    {
        let mut piece = with_str("\n<div data-id=\"", hashes[i].as_str());
        piece.append("\"></div>");
        r.append(piece.as_str());
        assert(parts.subrange(0, i + 1).drop_last() == parts.subrange(0, i as int));
        i = i + 1;
    }
    assert(parts.subrange(0, hashes@.len() as int) == parts);
    r
}

pub open spec fn is_lower_hex_char(c: char) -> bool {
    ('0' <= c <= '9') || ('a' <= c <= 'f')
}

/// Sixteen lowercase hex characters at `i`.
pub open spec fn hex16_at(t: Seq<char>, i: int) -> bool {
    0 <= i && i + 16 <= t.len() && forall|k: int| 0 <= k < 16 ==> #[trigger] is_lower_hex_char(t[i + k])
}

/// `data-id="` + 16 lowercase hex + `"` at `i`.
pub open spec fn data_id_at(t: Seq<char>, i: int) -> bool {
    occurs_at(t, "data-id=\""@, i) && hex16_at(t, i + 9) && i + 26 <= t.len() && t[i + 25] == '"'
}

/// `/skin/` + 16 lowercase hex at `i`.
pub open spec fn skin_link_at(t: Seq<char>, i: int) -> bool {
    occurs_at(t, "/skin/"@, i) && hex16_at(t, i + 6)
}

/// The hashes of the `data-id` attributes at or after `i`, in order.
pub open spec fn data_id_hashes_from(t: Seq<char>, i: int) -> Seq<Seq<char>>
    decreases t.len() - i,
{
    if i < 0 || i >= t.len() {
        Seq::empty()
    } else {
        let here = if data_id_at(t, i) { seq![t.subrange(i + 9, i + 25)] } else { Seq::empty() };
        here + data_id_hashes_from(t, i + 1)
    }
}

/// The hashes of the `/skin/{hash}` links at or after `i`, in order.
pub open spec fn skin_link_hashes_from(t: Seq<char>, i: int) -> Seq<Seq<char>>
    decreases t.len() - i,
{
    if i < 0 || i >= t.len() {
        Seq::empty()
    } else {
        let here = if skin_link_at(t, i) { seq![t.subrange(i + 6, i + 22)] } else { Seq::empty() };
        here + skin_link_hashes_from(t, i + 1)
    }
}

/// `regex::Regex` `data-id="([a-f0-9]{16})"`, group 1 of each match of
/// `captures_iter`. Two matches of this pattern cannot overlap, so the
/// matches are all its occurrences, in order, as `data_id_hashes_from` lists them.
#[verifier::external_body]
fn data_id_captures(html: &str) -> (r: Vec<String>)
    ensures
        r@.map_values(|s: String| s@) == data_id_hashes_from(html@, 0),
{
    let re = Regex::new(r#"data-id="([a-f0-9]{16})""#).unwrap();
    re.captures_iter(html).map(|c| c[1].to_string()).collect()
}

/// `regex::Regex` `/skin/([a-f0-9]{16})`, group 1 of each match of
/// `captures_iter`: all its occurrences, in order (they cannot overlap), as
/// `skin_link_hashes_from` lists them.
#[verifier::external_body]
fn skin_link_captures(html: &str) -> (r: Vec<String>)
    ensures
        r@.map_values(|s: String| s@) == skin_link_hashes_from(html@, 0),
{
    let re = Regex::new(r#"/skin/([a-f0-9]{16})"#).unwrap();
    re.captures_iter(html).map(|c| c[1].to_string()).collect()
}

/// `items` with repeats dropped, first occurrences kept in order.
pub open spec fn dedup_strings(items: Seq<Seq<char>>) -> Seq<Seq<char>>
    decreases items.len(),
{
    if items.len() == 0 {
        items
    } else {
        let d = dedup_strings(items.drop_last());
        if d.contains(items.last()) {
            d
        } else {
            d.push(items.last())
        }
    }
}

pub open spec fn string_views(v: Seq<String>) -> Seq<Seq<char>> {
    v.map_values(|s: String| s@)
}

/// Appends the items of `more` that `out` does not hold yet.
fn push_unseen(out: &mut Vec<String>, more: Vec<String>, Ghost(base): Ghost<Seq<Seq<char>>>)
    requires
        string_views(old(out)@) == dedup_strings(base),
    ensures
        string_views(final(out)@) == dedup_strings(base + string_views(more@)),
{
    let mut i: usize = 0;
    let ghost mv = string_views(more@);
    assert(base + mv.subrange(0, 0) == base);
    while i < more.len()
        invariant
            i <= more@.len(),
            mv == string_views(more@),
            string_views(out@) == dedup_strings(base + mv.subrange(0, i as int)),
        decreases more@.len() - i,
    {
        let h = &more[i];
        let mut seen = false;
        let mut k: usize = 0;
        while k < out.len()
            invariant
                k <= out@.len(),
                seen == exists|j: int| 0 <= j < k && out@[j]@ == h@,
            decreases out@.len() - k,
        {
            if out[k] == *h {
                seen = true;
            }
            k = k + 1;
        }
        let ghost prev = base + mv.subrange(0, i as int);
        let ghost next = base + mv.subrange(0, i + 1);
        proof {
            assert(next.drop_last() == prev);
            assert(next.last() == h@);
            if seen {
                let j = choose|j: int| 0 <= j < out@.len() && out@[j]@ == h@;
                assert(string_views(out@)[j] == h@);
                assert(string_views(out@).contains(h@));
            } else {
                assert forall|j: int| 0 <= j < string_views(out@).len() implies string_views(out@)[j] != h@ by {
                    assert(string_views(out@)[j] == out@[j]@);
                }
                assert(!string_views(out@).contains(h@));
            }
        }
        if !seen {
            let ghost before = out@;
            out.push(h.clone());
            proof {
                assert(string_views(out@) =~= string_views(before).push(h@));
            }
        }
        i = i + 1;
    }
    assert(mv.subrange(0, more@.len() as int) == mv);
}


/// The skin hashes of a NameMC page, first those of `data-id` attributes,
/// then those of `/skin/{hash}` links, each hash once, first seen first.
pub open spec fn extract_hashes_spec(html: Seq<char>) -> Seq<Seq<char>> {
    dedup_strings(data_id_hashes_from(html, 0) + skin_link_hashes_from(html, 0))
}

pub fn extract_hashes(html: &str) -> (r: Vec<String>)
    ensures
        string_views(r@) == extract_hashes_spec(html@),
{
    let mut out: Vec<String> = Vec::new();
    let ghost empty = Seq::<Seq<char>>::empty();
    assert(string_views(out@) == dedup_strings(empty));
    let a = data_id_captures(html);
    push_unseen(&mut out, a, Ghost(empty));
    let ghost base = empty + data_id_hashes_from(html@, 0);
    let b = skin_link_captures(html);
    push_unseen(&mut out, b, Ghost(base));
    assert(empty + data_id_hashes_from(html@, 0) == data_id_hashes_from(html@, 0));
    out
}

/// A skin hash: sixteen lowercase hex digits.
pub open spec fn is_skin_hash(h: Seq<char>) -> bool {
    h.len() == 16 && forall|k: int| 0 <= k < 16 ==> #[trigger] is_lower_hex_char(h[k])
}

proof fn lemma_dedup_strings(items: Seq<Seq<char>>)
    ensures
        forall|i: int, j: int| 0 <= i < j < dedup_strings(items).len() ==> dedup_strings(items)[i] != dedup_strings(items)[j],
        forall|x: Seq<char>| dedup_strings(items).contains(x) <==> items.contains(x),
    decreases items.len(),
{
    if items.len() > 0 {
        let init = items.drop_last();
        lemma_dedup_strings(init);
        let d = dedup_strings(init);
        assert forall|x: Seq<char>| dedup_strings(items).contains(x) <==> items.contains(x) by {
            if items.contains(x) {
                let k = choose|k: int| 0 <= k < items.len() && items[k] == x;
                if k < init.len() {
                    assert(init[k] == x);
                    assert(init.contains(x));
                }
            }
            if init.contains(x) {
                let k = choose|k: int| 0 <= k < init.len() && init[k] == x;
                assert(items[k] == x);
            }
            if dedup_strings(items).contains(x) && !d.contains(x) {
                assert(x == items.last());
                assert(items[items.len() - 1] == x);
            }
            if d.contains(x) && !d.contains(items.last()) {
                let k = choose|k: int| 0 <= k < d.len() && d[k] == x;
                assert(d.push(items.last())[k] == x);
            }
            if x == items.last() && !d.contains(items.last()) {
                assert(d.push(items.last())[d.len() as int] == x);
            }
        }
    }
}

proof fn lemma_data_id_hashes(t: Seq<char>, i: int)
    requires
        0 <= i,
    ensures
        forall|n: int| 0 <= n < data_id_hashes_from(t, i).len() ==> #[trigger] is_skin_hash(data_id_hashes_from(t, i)[n]),
        forall|k: int| i <= k && #[trigger] data_id_at(t, k) ==> data_id_hashes_from(t, i).contains(t.subrange(k + 9, k + 25)),
        forall|h: Seq<char>| data_id_hashes_from(t, i).contains(h) ==> exists|k: int| i <= k && #[trigger] data_id_at(t, k) && h == t.subrange(k + 9, k + 25),
    decreases t.len() - i,
{
    if i < t.len() {
        lemma_data_id_hashes(t, i + 1);
        let rest = data_id_hashes_from(t, i + 1);
        let here = if data_id_at(t, i) { seq![t.subrange(i + 9, i + 25)] } else { Seq::<Seq<char>>::empty() };
        let all = data_id_hashes_from(t, i);
        assert(all == here + rest);
        if data_id_at(t, i) {
            let h = t.subrange(i + 9, i + 25);
            assert forall|q: int| 0 <= q < 16 implies #[trigger] is_lower_hex_char(h[q]) by {
                assert(h[q] == t[i + 9 + q]);
                assert(is_lower_hex_char(t[i + 9 + q]));
            }
        }
        assert forall|n: int| 0 <= n < all.len() implies #[trigger] is_skin_hash(all[n]) by {
            if n >= here.len() {
                assert(all[n] == rest[n - here.len()]);
            }
        }
        assert forall|k: int| i <= k && #[trigger] data_id_at(t, k) implies all.contains(t.subrange(k + 9, k + 25)) by {
            if k == i {
                assert(all[0] == t.subrange(k + 9, k + 25));
            } else {
                let m = choose|m: int| 0 <= m < rest.len() && rest[m] == t.subrange(k + 9, k + 25);
                assert(all[m + here.len()] == rest[m]);
            }
        }
        assert forall|h: Seq<char>| all.contains(h) implies exists|k: int| i <= k && #[trigger] data_id_at(t, k) && h == t.subrange(k + 9, k + 25) by {
            let m = choose|m: int| 0 <= m < all.len() && all[m] == h;
            if m < here.len() {
                assert(data_id_at(t, i));
            } else {
                assert(rest[m - here.len()] == h);
                assert(rest.contains(h));
            }
        }
    }
}

proof fn lemma_skin_link_hashes(t: Seq<char>, i: int)
    requires
        0 <= i,
    ensures
        forall|n: int| 0 <= n < skin_link_hashes_from(t, i).len() ==> #[trigger] is_skin_hash(skin_link_hashes_from(t, i)[n]),
        forall|k: int| i <= k && #[trigger] skin_link_at(t, k) ==> skin_link_hashes_from(t, i).contains(t.subrange(k + 6, k + 22)),
        forall|h: Seq<char>| skin_link_hashes_from(t, i).contains(h) ==> exists|k: int| i <= k && #[trigger] skin_link_at(t, k) && h == t.subrange(k + 6, k + 22),
    decreases t.len() - i,
{
    if i < t.len() {
        lemma_skin_link_hashes(t, i + 1);
        let rest = skin_link_hashes_from(t, i + 1);
        let here = if skin_link_at(t, i) { seq![t.subrange(i + 6, i + 22)] } else { Seq::<Seq<char>>::empty() };
        let all = skin_link_hashes_from(t, i);
        assert(all == here + rest);
        if skin_link_at(t, i) {
            let h = t.subrange(i + 6, i + 22);
            assert forall|q: int| 0 <= q < 16 implies #[trigger] is_lower_hex_char(h[q]) by {
                assert(h[q] == t[i + 6 + q]);
                assert(is_lower_hex_char(t[i + 6 + q]));
            }
        }
        assert forall|n: int| 0 <= n < all.len() implies #[trigger] is_skin_hash(all[n]) by {
            if n >= here.len() {
                assert(all[n] == rest[n - here.len()]);
            }
        }
        assert forall|k: int| i <= k && #[trigger] skin_link_at(t, k) implies all.contains(t.subrange(k + 6, k + 22)) by {
            if k == i {
                assert(all[0] == t.subrange(k + 6, k + 22));
            } else {
                let m = choose|m: int| 0 <= m < rest.len() && rest[m] == t.subrange(k + 6, k + 22);
                assert(all[m + here.len()] == rest[m]);
            }
        }
        assert forall|h: Seq<char>| all.contains(h) implies exists|k: int| i <= k && #[trigger] skin_link_at(t, k) && h == t.subrange(k + 6, k + 22) by {
            let m = choose|m: int| 0 <= m < all.len() && all[m] == h;
            if m < here.len() {
                assert(skin_link_at(t, i));
            } else {
                assert(rest[m - here.len()] == h);
                assert(rest.contains(h));
            }
        }
    }
}

/// What the hash extraction finds on a page: each hash once; every one a
/// skin hash (sixteen lowercase hex digits); every hash of a `data-id="..."`
/// attribute and of a `/skin/...` link on the page among them; and nothing
/// that is not one of those.
pub proof fn lemma_extracted_hashes(html: Seq<char>)
    ensures
        forall|i: int, j: int| 0 <= i < j < extract_hashes_spec(html).len()
            ==> extract_hashes_spec(html)[i] != extract_hashes_spec(html)[j],
        forall|n: int| 0 <= n < extract_hashes_spec(html).len() ==> #[trigger] is_skin_hash(extract_hashes_spec(html)[n]),
        forall|k: int| 0 <= k && #[trigger] occurs_at(html, "data-id=\""@, k) && hex16_at(html, k + 9)
            && k + 26 <= html.len() && html[k + 25] == '"'
            ==> extract_hashes_spec(html).contains(html.subrange(k + 9, k + 25)),
        forall|k: int| 0 <= k && #[trigger] occurs_at(html, "/skin/"@, k) && hex16_at(html, k + 6)
            ==> extract_hashes_spec(html).contains(html.subrange(k + 6, k + 22)),
        forall|h: Seq<char>| extract_hashes_spec(html).contains(h) ==> (
            (exists|k: int| 0 <= k && #[trigger] data_id_at(html, k) && h == html.subrange(k + 9, k + 25))
            || (exists|k: int| 0 <= k && #[trigger] skin_link_at(html, k) && h == html.subrange(k + 6, k + 22))),
{
    let a = data_id_hashes_from(html, 0);
    let b = skin_link_hashes_from(html, 0);
    let all = a + b;
    lemma_data_id_hashes(html, 0);
    lemma_skin_link_hashes(html, 0);
    lemma_dedup_strings(all);
    let r = extract_hashes_spec(html);
    assert(r == dedup_strings(all));
    assert forall|h: Seq<char>| all.contains(h) implies is_skin_hash(h) && (a.contains(h) || b.contains(h)) by {
        let m = choose|m: int| 0 <= m < all.len() && all[m] == h;
        if m < a.len() {
            assert(a[m] == h);
        } else {
            assert(b[m - a.len()] == h);
        }
    }
    assert forall|n: int| 0 <= n < r.len() implies #[trigger] is_skin_hash(r[n]) by {
        assert(r.contains(r[n]));
    }
    assert forall|h: Seq<char>| r.contains(h) implies (
        (exists|k: int| 0 <= k && #[trigger] data_id_at(html, k) && h == html.subrange(k + 9, k + 25))
        || (exists|k: int| 0 <= k && #[trigger] skin_link_at(html, k) && h == html.subrange(k + 6, k + 22))) by {
        assert(dedup_strings(all).contains(h));
        assert(all.contains(h));
        if a.contains(h) {
        } else {
            assert(b.contains(h));
        }
    }
    assert forall|k: int| 0 <= k && #[trigger] occurs_at(html, "data-id=\""@, k) && hex16_at(html, k + 9)
        && k + 26 <= html.len() && html[k + 25] == '"' implies r.contains(html.subrange(k + 9, k + 25)) by {
        assert(data_id_at(html, k));
        let h = html.subrange(k + 9, k + 25);
        let m = choose|m: int| 0 <= m < a.len() && a[m] == h;
        assert(all[m] == h);
        assert(all.contains(h));
        assert(dedup_strings(all).contains(h));
    }
    assert forall|k: int| 0 <= k && #[trigger] occurs_at(html, "/skin/"@, k) && hex16_at(html, k + 6)
        implies r.contains(html.subrange(k + 6, k + 22)) by {
        assert(skin_link_at(html, k));
        let h = html.subrange(k + 6, k + 22);
        let m = choose|m: int| 0 <= m < b.len() && b[m] == h;
        assert(all[m + a.len()] == h);
        assert(all.contains(h));
        assert(dedup_strings(all).contains(h));
    }
}

/// The fragment that `hashes_html` builds for `hs`.
pub open spec fn hashes_fragment(hs: Seq<Seq<char>>) -> Seq<char> {
    concat_all(hs.map_values(|h: Seq<char>| hash_div(h)))
}

proof fn lemma_concat_all_front(p: Seq<char>, ps: Seq<Seq<char>>)
    ensures
        concat_all(seq![p] + ps) == p + concat_all(ps),
    decreases ps.len(),
{
    if ps.len() == 0 {
        assert(ps =~= Seq::<Seq<char>>::empty());
        assert(seq![p] + ps == seq![p]);
        assert(seq![p].drop_last() =~= Seq::<Seq<char>>::empty());
        assert(concat_all(Seq::<Seq<char>>::empty()) == Seq::<char>::empty());
        assert(concat_all(seq![p]) == concat_all(seq![p].drop_last()) + seq![p].last());
        assert(Seq::<char>::empty() + p =~= p);
        assert(p + Seq::<char>::empty() =~= p);
    } else {
        let whole = seq![p] + ps;
        lemma_concat_all_front(p, ps.drop_last());
        assert(whole.drop_last() == seq![p] + ps.drop_last());
        assert(whole.last() == ps.last());
        assert(concat_all(whole) == concat_all(whole.drop_last()) + whole.last());
        assert(concat_all(ps) == concat_all(ps.drop_last()) + ps.last());
        assert((p + concat_all(ps.drop_last())) + ps.last() =~= p + (concat_all(ps.drop_last()) + ps.last()));
    }
}

proof fn lemma_shift_matches(a: Seq<char>, b: Seq<char>, j: int)
    requires
        0 <= j,
    ensures
        data_id_hashes_from(a + b, a.len() + j) == data_id_hashes_from(b, j),
        skin_link_hashes_from(a + b, a.len() + j) == skin_link_hashes_from(b, j),
    decreases b.len() - j,
{
    reveal_strlit("data-id=\"");
    reveal_strlit("/skin/");
    let t = a + b;
    let i = a.len() + j;
    if j < b.len() {
        lemma_shift_matches(a, b, j + 1);
        if j + 26 <= b.len() {
            assert(t[i + 25] == b[j + 25]);
        }
        if j + 9 <= b.len() {
            assert(t.subrange(i, i + 9) == b.subrange(j, j + 9));
        }
        if j + 6 <= b.len() {
            assert(t.subrange(i, i + 6) == b.subrange(j, j + 6));
        }
        if j + 25 <= b.len() {
            assert(t.subrange(i + 9, i + 25) == b.subrange(j + 9, j + 25));
        }
        if j + 22 <= b.len() {
            assert(t.subrange(i + 6, i + 22) == b.subrange(j + 6, j + 22));
        }
        assert(hex16_at(t, i + 9) == hex16_at(b, j + 9)) by {
            if hex16_at(b, j + 9) {
                assert forall|k: int| 0 <= k < 16 implies #[trigger] is_lower_hex_char(t[i + 9 + k]) by {
                    assert(t[i + 9 + k] == b[j + 9 + k]);
                }
            }
            if hex16_at(t, i + 9) {
                assert forall|k: int| 0 <= k < 16 implies #[trigger] is_lower_hex_char(b[j + 9 + k]) by {
                    assert(t[i + 9 + k] == b[j + 9 + k]);
                    assert(is_lower_hex_char(t[i + 9 + k]));
                }
            }
        }
        assert(hex16_at(t, i + 6) == hex16_at(b, j + 6)) by {
            if hex16_at(b, j + 6) {
                assert forall|k: int| 0 <= k < 16 implies #[trigger] is_lower_hex_char(t[i + 6 + k]) by {
                    assert(t[i + 6 + k] == b[j + 6 + k]);
                }
            }
            if hex16_at(t, i + 6) {
                assert forall|k: int| 0 <= k < 16 implies #[trigger] is_lower_hex_char(b[j + 6 + k]) by {
                    assert(t[i + 6 + k] == b[j + 6 + k]);
                    assert(is_lower_hex_char(t[i + 6 + k]));
                }
            }
        }
        assert(data_id_at(t, i) == data_id_at(b, j));
        assert(skin_link_at(t, i) == skin_link_at(b, j));
    }
}

/// Within one hash fragment followed by anything, the only match is the
/// hash's own `data-id`, and there is no skin link.
proof fn lemma_one_div(h: Seq<char>, rest: Seq<char>)
    requires
        is_skin_hash(h),
    ensures
        data_id_hashes_from(hash_div(h) + rest, 0) == seq![h] + data_id_hashes_from(hash_div(h) + rest, 39),
        skin_link_hashes_from(hash_div(h) + rest, 0) == skin_link_hashes_from(hash_div(h) + rest, 39),
{
    reveal_strlit("\n<div data-id=\"");
    reveal_strlit("\"></div>");
    reveal_strlit("data-id=\"");
    reveal_strlit("/skin/");
    let head = "\n<div data-id=\""@;
    let tail = "\"></div>"@;
    let d = hash_div(h);
    let t = d + rest;
    assert(d == head + h + tail);
    assert(head.len() == 15 && tail.len() == 8 && d.len() == 39);
    assert forall|q: int| 0 <= q < 15 implies #[trigger] t[q] == head[q] by {
        assert(d[q] == head[q]);
    }
    assert forall|q: int| 15 <= q < 31 implies #[trigger] t[q] == h[q - 15] by {
        assert(d[q] == h[q - 15]);
    }
    assert forall|q: int| 31 <= q < 39 implies #[trigger] t[q] == tail[q - 31] by {
        assert(d[q] == tail[q - 31]);
    }
    assert forall|q: int| 15 <= q < 31 implies is_lower_hex_char(#[trigger] t[q]) by {
        assert(is_lower_hex_char(h[q - 15]));
    }
    assert forall|p: int| 0 <= p < 39 && p != 6 implies !data_id_at(t, p) by {
        if data_id_at(t, p) {
            assert(t.subrange(p, p + 9) == "data-id=\""@);
            assert(t.subrange(p, p + 9)[0] == t[p] && t.subrange(p, p + 9)[1] == t[p + 1] && t.subrange(p, p + 9)[2] == t[p + 2]);
            assert(t[p] == 'd' && t[p + 1] == 'a' && t[p + 2] == 't');
            if p < 15 {
                assert(t[p] == head[p]);
                assert(t[p + 1] == head[p + 1]);
            } else if p < 31 {
                if p + 2 < 31 {
                    assert(is_lower_hex_char(t[p + 2]));
                } else {
                    assert(t[p + 2] == tail[p + 2 - 31]);
                }
            } else {
                assert(t[p] == tail[p - 31]);
                if p + 1 < 39 {
                    assert(t[p + 1] == tail[p + 1 - 31]);
                }
            }
        }
    }
    assert forall|p: int| 0 <= p < 39 implies !skin_link_at(t, p) by {
        if skin_link_at(t, p) {
            assert(t.subrange(p, p + 6) == "/skin/"@);
            assert(t.subrange(p, p + 6)[0] == t[p] && t.subrange(p, p + 6)[1] == t[p + 1]);
            assert(t[p] == '/' && t[p + 1] == 's');
            if p < 15 {
                assert(t[p] == head[p]);
            } else if p < 31 {
                assert(is_lower_hex_char(t[p]));
            } else {
                assert(t[p] == tail[p - 31]);
                if p + 1 < 39 {
                    assert(t[p + 1] == tail[p + 1 - 31]);
                }
            }
        }
    }
    assert(data_id_at(t, 6)) by {
        assert(t.subrange(6, 15) == "data-id=\""@);
        assert forall|k: int| 0 <= k < 16 implies #[trigger] is_lower_hex_char(t[15 + k]) by {
            assert(t[15 + k] == h[k]);
        }
        assert(t[31] == tail[0]);
    }
    assert(t.subrange(15, 31) == h);
    lemma_no_matches_between(t, 7, 39);
    lemma_no_matches_between(t, 0, 6);
    assert(data_id_hashes_from(t, 6) == seq![h] + data_id_hashes_from(t, 7));
    assert(skin_link_hashes_from(t, 6) == skin_link_hashes_from(t, 7));
    assert(seq![h] + data_id_hashes_from(t, 39) == seq![h] + data_id_hashes_from(t, 7));
}

/// Without matches from `i` up to `j`, reading from `i` is reading from `j`.
proof fn lemma_no_matches_between(t: Seq<char>, i: int, j: int)
    requires
        0 <= i <= j <= t.len(),
        forall|p: int| i <= p < j ==> !data_id_at(t, p) && !skin_link_at(t, p),
    ensures
        data_id_hashes_from(t, i) == data_id_hashes_from(t, j),
        skin_link_hashes_from(t, i) == skin_link_hashes_from(t, j),
    decreases j - i,
{
    if i < j {
        lemma_no_matches_between(t, i + 1, j);
        assert(Seq::<Seq<char>>::empty() + data_id_hashes_from(t, i + 1) == data_id_hashes_from(t, i + 1));
        assert(Seq::<Seq<char>>::empty() + skin_link_hashes_from(t, i + 1) == skin_link_hashes_from(t, i + 1));
    }
}

proof fn lemma_fragment_matches(hs: Seq<Seq<char>>)
    requires
        forall|i: int| 0 <= i < hs.len() ==> #[trigger] is_skin_hash(hs[i]),
    ensures
        data_id_hashes_from(hashes_fragment(hs), 0) == hs,
        skin_link_hashes_from(hashes_fragment(hs), 0) == Seq::<Seq<char>>::empty(),
    decreases hs.len(),
{
    if hs.len() == 0 {
        assert(hs.map_values(|h: Seq<char>| hash_div(h)) == Seq::<Seq<char>>::empty());
        assert(hashes_fragment(hs) == Seq::<char>::empty());
    } else {
        let h = hs[0];
        let rest = hs.drop_first();
        assert(is_skin_hash(hs[0]));
        lemma_fragment_matches(rest);
        let parts = hs.map_values(|x: Seq<char>| hash_div(x));
        assert(parts == seq![hash_div(h)] + rest.map_values(|x: Seq<char>| hash_div(x)));
        lemma_concat_all_front(hash_div(h), rest.map_values(|x: Seq<char>| hash_div(x)));
        let tr = hashes_fragment(rest);
        assert(hashes_fragment(hs) == hash_div(h) + tr);
        lemma_one_div(h, tr);
        lemma_shift_matches(hash_div(h), tr, 0);
        reveal_strlit("\n<div data-id=\"");
        reveal_strlit("\"></div>");
        assert(hash_div(h).len() == 39);
        assert(seq![h] + rest == hs);
    }
}

/// What `hashes_html` builds reads back through `extract_hashes` as the
/// hashes it carries, each once, first seen first, whenever each is a skin
/// hash (sixteen lowercase hex digits).
pub proof fn lemma_hashes_html_reads_back(hs: Seq<Seq<char>>)
    requires
        forall|i: int| 0 <= i < hs.len() ==> #[trigger] is_skin_hash(hs[i]),
    ensures
        extract_hashes_spec(hashes_fragment(hs)) == dedup_strings(hs),
{
    lemma_fragment_matches(hs);
    assert(hs + Seq::<Seq<char>>::empty() == hs);
}

pub open spec fn is_hex_char_ci(c: char) -> bool {
    ('0' <= c <= '9') || ('a' <= c <= 'f') || ('A' <= c <= 'F')
}

pub open spec fn hex16_ci_at(t: Seq<char>, i: int) -> bool {
    0 <= i && i + 16 <= t.len() && forall|k: int| 0 <= k < 16 ==> #[trigger] is_hex_char_ci(t[i + k])
}

/// Where `(?i)(?:[?&]id=|/i/)([a-f0-9]{16})` matches at `i`: the position of
/// the captured hash.
pub open spec fn skins_url_hash_at(t: Seq<char>, i: int) -> Option<int> {
    if 0 <= i && i + 4 <= t.len() && (t[i] == '?' || t[i] == '&') && (t[i + 1] == 'i' || t[i + 1] == 'I')
        && (t[i + 2] == 'd' || t[i + 2] == 'D') && t[i + 3] == '=' && hex16_ci_at(t, i + 4) {
        Some(i + 4)
    } else if 0 <= i && i + 3 <= t.len() && t[i] == '/' && (t[i + 1] == 'i' || t[i + 1] == 'I') && t[i + 2]
        == '/' && hex16_ci_at(t, i + 3) {
        Some(i + 3)
    } else {
        None
    }
}

/// The capture of the leftmost match at or after `i`.
pub open spec fn first_skins_url_hash(t: Seq<char>, i: int) -> Option<Seq<char>>
    decreases t.len() + 1 - i,
{
    if i < 0 || i > t.len() {
        None
    } else {
        match skins_url_hash_at(t, i) {
            Some(k) => Some(t.subrange(k, k + 16)),
            None => first_skins_url_hash(t, i + 1),
        }
    }
}

/// `regex::Regex` `(?i)(?:[?&]id=|/i/)([a-f0-9]{16})`, group 1 of the first
/// match, as `first_skins_url_hash` states.
#[verifier::external_body]
fn skins_url_capture(url: &str) -> (r: Option<String>)
    ensures
        r matches Some(h) ==> first_skins_url_hash(url@, 0) == Some(h@),
        r is None ==> first_skins_url_hash(url@, 0) is None,
{
    let re = Regex::new(r"(?i)(?:[?&]id=|/i/)([a-f0-9]{16})").unwrap();
    re.captures(url).map(|c| c[1].to_string())
}

pub open spec fn ascii_lower(c: char) -> char {
    if 'A' <= c <= 'Z' {
        ((c as u32) + 32) as char
    } else {
        c
    }
}

/// `str::to_ascii_lowercase`.
pub fn to_ascii_lowercase(s: &str) -> (r: String)
    ensures
        r@ == s@.map_values(|c: char| ascii_lower(c)),
{
    let cs = str_chars(s);
    let mut r = String::new();
    let mut i: usize = 0;
    while i < cs.len()
        invariant
            cs@ == s@,
            i <= cs@.len(),
            r@ == cs@.subrange(0, i as int).map_values(|c: char| ascii_lower(c)),
        decreases cs@.len() - i,
    {
        let c = cs[i];
        let l = if 'A' <= c && c <= 'Z' {
            let lower: u8 = ((c as u32) + 32) as u8;
            lower as char
        } else {
            c
        };
        assert(l == ascii_lower(c));
        push_char(&mut r, l);
        assert(cs@.subrange(0, i + 1).map_values(|c: char| ascii_lower(c))
            == cs@.subrange(0, i as int).map_values(|c: char| ascii_lower(c)).push(l));
        i = i + 1;
    }
    assert(cs@.subrange(0, cs@.len() as int) == cs@);
    r
}

/// The 16-hex skin hash of a Dripfy/NameMC texture URL (`/i/{hash}` in the
/// path or `id={hash}` in the query), in lowercase.
pub fn hash_from_skins_url(url: &str) -> (r: Option<String>)
    ensures
        match first_skins_url_hash(url@, 0) {
            Some(h) => r matches Some(x) && x@ == h.map_values(|c: char| ascii_lower(c)),
            None => r is None,
        },
{
    match skins_url_capture(url) {
        Some(h) => Some(to_ascii_lowercase(h.as_str())),
        None => None,
    }
}


/// The lowercase hash of a texture URL, where it has one.
pub open spec fn url_hash(u: Seq<char>) -> Option<Seq<char>> {
    match first_skins_url_hash(u, 0) {
        Some(h) => Some(h.map_values(|c: char| ascii_lower(c))),
        None => None,
    }
}

proof fn lemma_first_skins_url_hash(t: Seq<char>, i: int)
    requires
        0 <= i,
    ensures
        first_skins_url_hash(t, i) matches Some(h) ==> exists|k: int| #[trigger] hex16_ci_at(t, k) && h == t.subrange(k, k + 16),
        (exists|k: int| i <= k && #[trigger] skins_url_hash_at(t, k) is Some) ==> first_skins_url_hash(t, i) is Some,
    decreases t.len() + 1 - i,
{
    if i <= t.len() {
        lemma_first_skins_url_hash(t, i + 1);
        if exists|k: int| i <= k && #[trigger] skins_url_hash_at(t, k) is Some {
            let k = choose|k: int| i <= k && #[trigger] skins_url_hash_at(t, k) is Some;
            if k > i {
                assert(i + 1 <= k && skins_url_hash_at(t, k) is Some);
            }
        }
        match skins_url_hash_at(t, i) {
            Some(k) => {
                assert(hex16_ci_at(t, k));
            },
            None => {},
        }
    } else {
        if exists|k: int| i <= k && #[trigger] skins_url_hash_at(t, k) is Some {
            let k = choose|k: int| i <= k && #[trigger] skins_url_hash_at(t, k) is Some;
            assert(false);
        }
    }
}

/// What a texture URL yields: any hash read from it is a skin hash (sixteen
/// lowercase hex digits, whatever case the URL wrote them in), and a URL with
/// `/i/`, `?id=` or `&id=` (in either case) followed by sixteen hex digits
/// always yields one.
pub proof fn lemma_skins_url_hash(u: Seq<char>)
    ensures
        url_hash(u) matches Some(h) ==> is_skin_hash(h),
        (exists|k: int| 0 <= k && #[trigger] skins_url_hash_at(u, k) is Some) ==> url_hash(u) is Some,
{
    lemma_first_skins_url_hash(u, 0);
    match first_skins_url_hash(u, 0) {
        Some(h) => {
            let k = choose|k: int| #[trigger] hex16_ci_at(u, k) && h == u.subrange(k, k + 16);
            let l = h.map_values(|c: char| ascii_lower(c));
            assert forall|q: int| 0 <= q < 16 implies #[trigger] is_lower_hex_char(l[q]) by {
                assert(h[q] == u[k + q]);
                assert(is_hex_char_ci(u[k + q]));
            }
        },
        None => {},
    }
}

pub open spec fn opt_hash(u: Option<String>) -> Seq<Seq<char>> {
    match u {
        Some(x) => match url_hash(x@) {
            Some(h) => seq![h],
            None => Seq::empty(),
        },
        None => Seq::empty(),
    }
}

/// One skin entry of a Dripfy search answer.
pub struct DripfySkin {
    pub skin_id: Option<String>,
    pub raw: Option<String>,
    pub body: Option<String>,
    pub face: Option<String>,
}

/// The parts of a Dripfy search answer that the hashes come from.
pub struct DripfyResponse {
    /// Whether "ok" is `true`.
    pub ok: bool,
    /// "skin.raw", the active skin's texture URL.
    pub skin_raw: Option<String>,
    pub skins: Vec<DripfySkin>,
}

/// The entries of the array field `key`, none where there is no such array.
pub open spec fn array_field(j: Json, key: Seq<char>) -> Seq<Json> {
    match get_spec(j, key) {
        Some(Json::Array(a)) => a@,
        _ => Seq::empty(),
    }
}

impl DripfySkin {
    /// The texture fields of one entry of "skins".
    pub fn from_json(s: &Json) -> (r: DripfySkin)
        ensures
            opt_view(r.skin_id) == field_str(*s, "skin_id"@),
            opt_view(r.raw) == field_str(*s, "raw"@),
            opt_view(r.body) == field_str(*s, "body"@),
            opt_view(r.face) == field_str(*s, "face"@),
    {
        DripfySkin {
            skin_id: get_str(s, "skin_id"),
            raw: get_str(s, "raw"),
            body: get_str(s, "body"),
            face: get_str(s, "face"),
        }
    }
}

impl DripfyResponse {
    /// Reads a Dripfy search answer: "ok", "skin.raw" and the entries of
    /// "skins" (none where "skins" is not an array).
    pub fn from_json(j: &Json) -> (r: DripfyResponse)
        ensures
            r.ok == (get_spec(*j, "ok"@) == Some(Json::Bool(true))),
            opt_view(r.skin_raw) == match get_spec(*j, "skin"@) {
                Some(s) => field_str(s, "raw"@),
                None => None,
            },
            r.skins@.len() == array_field(*j, "skins"@).len(),
            forall|i: int| 0 <= i < r.skins@.len() ==> {
                let e = #[trigger] array_field(*j, "skins"@)[i];
                &&& opt_view(r.skins@[i].skin_id) == field_str(e, "skin_id"@)
                &&& opt_view(r.skins@[i].raw) == field_str(e, "raw"@)
                &&& opt_view(r.skins@[i].body) == field_str(e, "body"@)
                &&& opt_view(r.skins@[i].face) == field_str(e, "face"@)
            },
    {
        let ok = match j.get("ok") {
            Some(v) => match v.as_bool() {
                Some(b) => b,
                None => false,
            },
            None => false,
        };
        let skin_raw = match j.get("skin") {
            Some(s) => get_str(s, "raw"),
            None => None,
        };
        let mut skins: Vec<DripfySkin> = Vec::new();
        match j.get("skins") {
            Some(Json::Array(arr)) => {
                let mut i: usize = 0;
                while i < arr.len()
                    invariant
                        i <= arr@.len(),
                        array_field(*j, "skins"@) == arr@,
                        skins@.len() == i,
                        forall|k: int| 0 <= k < i ==> {
                            let e = #[trigger] arr@[k];
                            &&& opt_view(skins@[k].skin_id) == field_str(e, "skin_id"@)
                            &&& opt_view(skins@[k].raw) == field_str(e, "raw"@)
                            &&& opt_view(skins@[k].body) == field_str(e, "body"@)
                            &&& opt_view(skins@[k].face) == field_str(e, "face"@)
                        },
                    decreases arr@.len() - i,
                {
                    skins.push(DripfySkin::from_json(&arr[i]));
                    i = i + 1;
                }
            },
            _ => {},
        }
        DripfyResponse { ok, skin_raw, skins }
    }
}

pub open spec fn skin_candidates(s: DripfySkin) -> Seq<Seq<char>> {
    let id = match s.skin_id {
        Some(i) => seq![i@],
        None => Seq::empty(),
    };
    id + opt_hash(s.raw) + opt_hash(s.body) + opt_hash(s.face)
}

pub open spec fn all_skin_candidates(skins: Seq<DripfySkin>) -> Seq<Seq<char>>
    decreases skins.len(),
{
    if skins.len() == 0 {
        Seq::empty()
    } else {
        all_skin_candidates(skins.drop_last()) + skin_candidates(skins.last())
    }
}

/// The hashes of a Dripfy answer: the active skin's first, then each skin's
/// id and texture URL hashes, each hash once.
pub open spec fn dripfy_hashes_spec(r: DripfyResponse) -> Seq<Seq<char>> {
    dedup_strings(opt_hash(r.skin_raw) + all_skin_candidates(r.skins@))
}

proof fn lemma_dedup_first(items: Seq<Seq<char>>)
    requires
        items.len() > 0,
    ensures
        dedup_strings(items).len() > 0,
        dedup_strings(items)[0] == items[0],
    decreases items.len(),
{
    let d = dedup_strings(items.drop_last());
    if items.len() > 1 {
        lemma_dedup_first(items.drop_last());
        assert(items.drop_last()[0] == items[0]);
        assert(d.push(items.last())[0] == d[0]);
    } else {
        assert(items.drop_last().len() == 0);
        assert(d.len() == 0);
        assert(!d.contains(items.last()));
        assert(d.push(items.last())[0] == items.last());
        assert(items.last() == items[0]);
    }
}

proof fn lemma_all_candidates(skins: Seq<DripfySkin>, i: int, x: Seq<char>)
    requires
        0 <= i < skins.len(),
        skin_candidates(skins[i]).contains(x),
    ensures
        all_skin_candidates(skins).contains(x),
    decreases skins.len(),
{
    let init = skins.drop_last();
    let last = skin_candidates(skins.last());
    let prev = all_skin_candidates(init);
    assert(all_skin_candidates(skins) == prev + last);
    if i < init.len() {
        assert(init[i] == skins[i]);
        lemma_all_candidates(init, i, x);
        let m = choose|m: int| 0 <= m < prev.len() && prev[m] == x;
        assert((prev + last)[m] == x);
    } else {
        let m = choose|m: int| 0 <= m < last.len() && last[m] == x;
        assert((prev + last)[prev.len() + m] == x);
    }
}

/// What a Dripfy answer yields: each hash once; the active skin's hash first,
/// when its texture URL has one; and every skin's id, and the hash of each of
/// its texture URLs (raw, body, face) that has one, among them.
pub proof fn lemma_dripfy_hashes(resp: DripfyResponse)
    ensures
        forall|i: int, j: int| 0 <= i < j < dripfy_hashes_spec(resp).len()
            ==> dripfy_hashes_spec(resp)[i] != dripfy_hashes_spec(resp)[j],
        (resp.skin_raw matches Some(u) && url_hash(u@) is Some) ==> dripfy_hashes_spec(resp).len() > 0
            && Some(dripfy_hashes_spec(resp)[0]) == url_hash(resp.skin_raw->0@),
        forall|i: int| 0 <= i < resp.skins@.len() ==> (#[trigger] resp.skins@[i].skin_id matches Some(x)
            ==> dripfy_hashes_spec(resp).contains(x@)),
        forall|i: int| 0 <= i < resp.skins@.len() ==> (#[trigger] resp.skins@[i].raw matches Some(x)
            ==> (url_hash(x@) matches Some(h) ==> dripfy_hashes_spec(resp).contains(h))),
        forall|i: int| 0 <= i < resp.skins@.len() ==> (#[trigger] resp.skins@[i].body matches Some(x)
            ==> (url_hash(x@) matches Some(h) ==> dripfy_hashes_spec(resp).contains(h))),
        forall|i: int| 0 <= i < resp.skins@.len() ==> (#[trigger] resp.skins@[i].face matches Some(x)
            ==> (url_hash(x@) matches Some(h) ==> dripfy_hashes_spec(resp).contains(h))),
{
    let first = opt_hash(resp.skin_raw);
    let rest = all_skin_candidates(resp.skins@);
    let all = first + rest;
    lemma_dedup_strings(all);
    if resp.skin_raw matches Some(u) && url_hash(u@) is Some {
        assert(all[0] == first[0]);
        lemma_dedup_first(all);
    }
    assert forall|i: int, x: Seq<char>| 0 <= i < resp.skins@.len() && #[trigger] skin_candidates(resp.skins@[i]).contains(x)
        implies dripfy_hashes_spec(resp).contains(x) by {
        lemma_all_candidates(resp.skins@, i, x);
        let m = choose|m: int| 0 <= m < rest.len() && rest[m] == x;
        assert(all[first.len() + m] == x);
        assert(all.contains(x));
    }
    assert forall|i: int| 0 <= i < resp.skins@.len() implies (#[trigger] resp.skins@[i].skin_id matches Some(x)
        ==> dripfy_hashes_spec(resp).contains(x@)) by {
        let sk = resp.skins@[i];
        match sk.skin_id {
            Some(x) => {
                assert(skin_candidates(sk)[0] == x@);
                assert(skin_candidates(sk).contains(x@));
            },
            None => {},
        }
    }
    assert forall|i: int| 0 <= i < resp.skins@.len() implies (#[trigger] resp.skins@[i].raw matches Some(x)
        ==> (url_hash(x@) matches Some(h) ==> dripfy_hashes_spec(resp).contains(h))) by {
        let sk = resp.skins@[i];
        let id = match sk.skin_id { Some(v) => seq![v@], None => Seq::<Seq<char>>::empty() };
        match sk.raw {
            Some(x) => match url_hash(x@) {
                Some(h) => {
                    assert(skin_candidates(sk)[id.len() as int] == h);
                    assert(skin_candidates(sk).contains(h));
                },
                None => {},
            },
            None => {},
        }
    }
    assert forall|i: int| 0 <= i < resp.skins@.len() implies (#[trigger] resp.skins@[i].body matches Some(x)
        ==> (url_hash(x@) matches Some(h) ==> dripfy_hashes_spec(resp).contains(h))) by {
        let sk = resp.skins@[i];
        let id = match sk.skin_id { Some(v) => seq![v@], None => Seq::<Seq<char>>::empty() };
        match sk.body {
            Some(x) => match url_hash(x@) {
                Some(h) => {
                    assert(skin_candidates(sk)[(id.len() + opt_hash(sk.raw).len()) as int] == h);
                    assert(skin_candidates(sk).contains(h));
                },
                None => {},
            },
            None => {},
        }
    }
    assert forall|i: int| 0 <= i < resp.skins@.len() implies (#[trigger] resp.skins@[i].face matches Some(x)
        ==> (url_hash(x@) matches Some(h) ==> dripfy_hashes_spec(resp).contains(h))) by {
        let sk = resp.skins@[i];
        let id = match sk.skin_id { Some(v) => seq![v@], None => Seq::<Seq<char>>::empty() };
        match sk.face {
            Some(x) => match url_hash(x@) {
                Some(h) => {
                    assert(skin_candidates(sk)[(id.len() + opt_hash(sk.raw).len() + opt_hash(sk.body).len()) as int] == h);
                    assert(skin_candidates(sk).contains(h));
                },
                None => {},
            },
            None => {},
        }
    }
}

fn push_opt_hash(out: &mut Vec<String>, u: &Option<String>)
    ensures
        string_views(final(out)@) == string_views(old(out)@) + opt_hash(*u),
{
    let ghost before = out@;
    if let Some(x) = u {
        if let Some(h) = hash_from_skins_url(x.as_str()) {
            out.push(h);
            assert(string_views(out@) =~= string_views(before).push(h@));
            return;
        }
    }
    assert(string_views(out@) =~= string_views(before) + opt_hash(*u));
}

fn push_skin_candidates(cands: &mut Vec<String>, sk: &DripfySkin)
    ensures
        string_views(final(cands)@) == string_views(old(cands)@) + skin_candidates(*sk),
{
    let ghost before = cands@;
    if let Some(id) = &sk.skin_id {
        cands.push(id.clone());
    }
    let ghost after_id = cands@;
    assert(string_views(after_id) =~= string_views(before) + match sk.skin_id {
        Some(x) => seq![x@],
        None => Seq::<Seq<char>>::empty(),
    });
    push_opt_hash(cands, &sk.raw);
    push_opt_hash(cands, &sk.body);
    push_opt_hash(cands, &sk.face);
}

pub fn dripfy_hashes(resp: &DripfyResponse) -> (r: Result<Vec<String>, String>)
    ensures
        !resp.ok ==> (r matches Err(e) && e@ == "Dripfy: player not found"@),
        resp.ok ==> (r matches Ok(v) && string_views(v@) == dripfy_hashes_spec(*resp)),
{
    if !resp.ok {
        return Err(String::from_str("Dripfy: player not found"));
    }
    let mut cands: Vec<String> = Vec::new();
    push_opt_hash(&mut cands, &resp.skin_raw);
    let mut i: usize = 0;
    while i < resp.skins.len()
        invariant
            i <= resp.skins@.len(),
            string_views(cands@) == opt_hash(resp.skin_raw) + all_skin_candidates(resp.skins@.subrange(0, i as int)),
        decreases resp.skins@.len() - i,
    {
        push_skin_candidates(&mut cands, &resp.skins[i]);
        assert(resp.skins@.subrange(0, i + 1).drop_last() == resp.skins@.subrange(0, i as int));
        i = i + 1;
    }
    assert(resp.skins@.subrange(0, resp.skins@.len() as int) == resp.skins@);
    let mut out: Vec<String> = Vec::new();
    let ghost empty = Seq::<Seq<char>>::empty();
    assert(string_views(out@) =~= dedup_strings(empty));
    push_unseen(&mut out, cands, Ghost(empty));
    assert(empty + (opt_hash(resp.skin_raw) + all_skin_candidates(resp.skins@)) == opt_hash(resp.skin_raw) + all_skin_candidates(resp.skins@));
    Ok(out)
}

/// The first position of `needle` in `hay`.
pub open spec fn first_occurrence_from(hay: Seq<char>, needle: Seq<char>, i: int) -> Option<int>
    decreases hay.len() + 1 - i,
{
    if i < 0 || i > hay.len() {
        None
    } else if occurs_at(hay, needle, i) {
        Some(i)
    } else {
        first_occurrence_from(hay, needle, i + 1)
    }
}

/// `s` without its trailing '/' characters.
pub open spec fn trim_trailing_slashes(s: Seq<char>) -> Seq<char>
    decreases s.len(),
{
    if s.len() > 0 && s.last() == '/' {
        trim_trailing_slashes(s.drop_last())
    } else {
        s
    }
}

/// The canonical profile name that a `/profile/{name}` redirect points to.
pub open spec fn canonical_name_spec(name: Seq<char>, status: u16, location: Option<Seq<char>>) -> Result<Seq<char>, Seq<char>> {
    if status == 404 {
        Err("profile not found: "@ + name)
    } else if 301 <= status <= 399 && location is Some && first_occurrence_from(location->0, "/profile/"@, 0) is Some
        && trim_trailing_slashes(location->0.skip(first_occurrence_from(location->0, "/profile/"@, 0)->0 + 9)).len() > 0 {
        Ok(trim_trailing_slashes(location->0.skip(first_occurrence_from(location->0, "/profile/"@, 0)->0 + 9)))
    } else {
        Ok(name)
    }
}

fn find_from(hay: &[char], needle: &[char], i: usize) -> (r: Option<usize>)
    requires
        i <= hay@.len(),
    ensures
        r matches Some(k) ==> first_occurrence_from(hay@, needle@, i as int) == Some(k as int) && k <= hay@.len()
            && occurs_at(hay@, needle@, k as int),
        r is None ==> first_occurrence_from(hay@, needle@, i as int) is None,
    decreases hay@.len() - i,
{
    if chars_occur_at(hay, needle, i) {
        Some(i)
    } else if i == hay.len() {
        assert(first_occurrence_from(hay@, needle@, i + 1) is None);
        None
    } else {
        find_from(hay, needle, i + 1)
    }
}

/// Follows the `/profile/{name}` redirect to the canonical profile name
/// (`Iraqies` -> `Iraqies.1`): a 404 fails, a redirect names it, anything
/// else keeps the name.
pub fn canonical_from_redirect(name: &str, status: u16, location: Option<&str>) -> (r: Result<String, String>)
    ensures
        match canonical_name_spec(name@, status, match location { Some(l) => Some(l@), None => None }) {
            Ok(c) => r matches Ok(x) && x@ == c,
            Err(e) => r matches Err(x) && x@ == e,
        },
{
    if status == 404 {
        return Err(with_str("profile not found: ", name));
    }
    if 301 <= status && status <= 399 {
        if let Some(loc) = location {
            let lc = str_chars(loc);
            let needle = str_chars("/profile/");
            proof {
                reveal_strlit("/profile/");
            }
            if let Some(idx) = find_from(lc.as_slice(), needle.as_slice(), 0) {
                if lc.len() - idx >= 9 {
                    let mut end = lc.len();
                    while end > idx + 9 && lc[end - 1] == '/'
                        invariant
                            idx + 9 <= end <= lc@.len(),
                            trim_trailing_slashes(lc@.skip(idx + 9)) == trim_trailing_slashes(lc@.subrange(idx + 9, end as int)),
                        decreases end,
                    {
                        assert(lc@.subrange(idx + 9, end as int).drop_last() == lc@.subrange(idx + 9, end - 1));
                        end = end - 1;
                    }
                    if end > idx + 9 {
                        return Ok(string_from_chars(slice_subrange(lc.as_slice(), idx + 9, end)));
                    }
                } else {
                    assert(false) by {
                        assert(occurs_at(lc@, "/profile/"@, idx as int));
                        assert("/profile/"@.len() == 9);
                    }
                }
            }
        }
    }
    Ok(String::from_str(name))
}


pub open spec fn http_403_msg() -> Seq<char> {
    "NameMC is temporarily blocking this request (HTTP 403). Too many rapid requests can trigger a short block — wait a minute and try again."@
}

/// The error after the last failed attempt: a 403 is explained, anything
/// else reported as it is ("unknown error" when there was none).
pub open spec fn namemc_fetch_error_spec(last: Option<Seq<char>>) -> Seq<char> {
    let msg = match last {
        Some(m) => m,
        None => "unknown error"@,
    };
    if msg == "HTTP 403"@ {
        http_403_msg()
    } else {
        "NameMC fetch failed: "@ + msg
    }
}

pub fn namemc_fetch_error(last_err: Option<String>) -> (r: String)
    ensures
        r@ == namemc_fetch_error_spec(match last_err { Some(m) => Some(m@), None => None }),
{
    let msg = match last_err {
        Some(m) => m,
        None => String::from_str("unknown error"),
    };
    let forbidden = String::from_str("HTTP 403");
    if msg == forbidden {
        String::from_str("NameMC is temporarily blocking this request (HTTP 403). Too many rapid requests can trigger a short block — wait a minute and try again.")
    } else {
        with_str("NameMC fetch failed: ", msg.as_str())
    }
}

pub struct ScrapeSkinResult {
    pub success: bool,
    pub skin_data_base64: Option<String>,
    pub skin_hash: Option<String>,
    pub error: Option<String>,
}

pub struct ScrapeAllResult {
    pub success: bool,
    pub skins: Vec<String>,
    pub count: usize,
    pub error: Option<String>,
}

pub struct UploadResult {
    pub success: bool,
    pub cancelled: bool,
    pub status_code: Option<u16>,
    pub error: Option<String>,
    pub skin_url: Option<String>,
}

pub struct UuidResult {
    pub uuid: Option<String>,
    pub name: Option<String>,
    pub error: Option<String>,
}

/// The texture of skin `hash` on NameMC's image server.
pub fn skin_texture_url(hash: &str) -> (r: String)
    ensures
        r@ == "https://s.namemc.com/i/"@ + hash@ + ".png"@,
{
    let mut r = with_str("https://s.namemc.com/i/", hash);
    r.append(".png");
    r
}

/// A failed scrape of the active skin.
pub fn scrape_skin_failed(error: String) -> (r: ScrapeSkinResult)
    ensures
        !r.success && r.skin_data_base64 is None && r.skin_hash is None && r.error == Some(error),
{
    ScrapeSkinResult { success: false, skin_data_base64: None, skin_hash: None, error: Some(error) }
}

/// The error when a profile shows no skins.
pub open spec fn no_skins_msg() -> Seq<char> {
    "No skins found on NameMC profile"@
}

/// The answer for a profile without skins.
pub fn no_skins_found() -> (r: ScrapeSkinResult)
    ensures
        !r.success && r.skin_data_base64 is None && r.skin_hash is None,
        r.error matches Some(e) && e@ == no_skins_msg(),
{
    scrape_skin_failed(String::from_str("No skins found on NameMC profile"))
}

/// The active skin, downloaded: its texture as base64 and its hash.
pub fn scraped_skin(hash: &str, texture: &[u8]) -> (r: ScrapeSkinResult)
    ensures
        r.success && r.error is None,
        r.skin_data_base64 matches Some(d) && d@ == base64_encoded(texture@),
        r.skin_hash matches Some(h) && h@ == hash@,
{
    ScrapeSkinResult {
        success: true,
        skin_data_base64: Some(base64_encode(texture)),
        skin_hash: Some(String::from_str(hash)),
        error: None,
    }
}

/// The face previews, as PNG data URLs, of the skin files that yield one;
/// files that do not decode are left out.
pub open spec fn face_urls(raw: Seq<Seq<u8>>) -> Seq<Seq<char>>
    decreases raw.len(),
{
    if raw.len() == 0 {
        Seq::empty()
    } else {
        let rest = face_urls(raw.drop_last());
        match skin_face(raw.last()) {
            Ok(png) => rest.push(png_data_url_prefix() + base64_encoded(png)),
            Err(_) => rest,
        }
    }
}

/// The face previews of the downloaded skins, in order.
pub fn face_data_urls(raw: &Vec<Vec<u8>>) -> (r: Vec<String>)
    ensures
        string_views(r@) == face_urls(raw@.map_values(|v: Vec<u8>| v@)),
{
    let ghost all = raw@.map_values(|v: Vec<u8>| v@);
    let mut out: Vec<String> = Vec::new();
    let mut i: usize = 0;
    while i < raw.len()
        invariant
            i <= raw@.len(),
            all == raw@.map_values(|v: Vec<u8>| v@),
            string_views(out@) == face_urls(all.take(i as int)),
        decreases raw@.len() - i,
    {
        let ghost before = out@;
        assert(all.take(i + 1).drop_last() == all.take(i as int));
        assert(all.take(i + 1).last() == raw@[i as int]@);
        match skin_face_png(raw[i].as_slice()) {
            Ok(face) => {
                let url = png_data_url(face.as_slice());
                out.push(url);
                assert(string_views(out@) == string_views(before).push(url@));
            },
            Err(_) => {},
        }
        i = i + 1;
    }
    assert(all.take(raw@.len() as int) == all);
    out
}

/// The answer of a scrape of all skins: the face previews, or an error when
/// none could be made.
pub fn scrape_all_result(skins: Vec<String>) -> (r: ScrapeAllResult)
    ensures
        skins@.len() == 0 ==> !r.success && r.skins@.len() == 0 && r.count == 0
            && (r.error matches Some(e) && e@ == "Failed to download any skins"@),
        skins@.len() > 0 ==> r.success && r.skins@ == skins@ && r.count == skins@.len() && r.error is None,
{
    if skins.len() == 0 {
        return ScrapeAllResult {
            success: false,
            skins: Vec::new(),
            count: 0,
            error: Some(String::from_str("Failed to download any skins")),
        };
    }
    let count = skins.len();
    ScrapeAllResult { success: true, skins, count, error: None }
}

/// A scrape of all skins that could not start, with its reason.
pub fn scrape_all_failed(error: String) -> (r: ScrapeAllResult)
    ensures
        !r.success && r.skins@.len() == 0 && r.count == 0 && r.error == Some(error),
{
    ScrapeAllResult { success: false, skins: Vec::new(), count: 0, error: Some(error) }
}

/// The Mojang profile lookup for a player name.
pub fn profile_lookup_url(username: &str) -> (r: String)
    ensures
        r@ == "https://api.mojang.com/users/profiles/minecraft/"@ + url_encoded(username.spec_bytes()),
{
    let e = urlencode(username);
    with_str("https://api.mojang.com/users/profiles/minecraft/", e.as_str())
}

/// The answer of a profile lookup that came back: the "id" and "name" of
/// the profile where they are strings.
pub fn uuid_result(profile: &Json) -> (r: UuidResult)
    ensures
        opt_view(r.uuid) == field_str(*profile, "id"@),
        opt_view(r.name) == field_str(*profile, "name"@),
        r.error is None,
{
    UuidResult { uuid: get_str(profile, "id"), name: get_str(profile, "name"), error: None }
}

/// A profile lookup that failed, with its reason ("bad response", "profile
/// not found", or the request's error).
pub fn uuid_failed(error: String) -> (r: UuidResult)
    ensures
        r.uuid is None && r.name is None && r.error == Some(error),
{
    UuidResult { uuid: None, name: None, error: Some(error) }
}

/// The pause before the next try of a page fetch: 1.5 s after the first,
/// 4 s after the second, none after the last.
pub fn fetch_backoff_ms(attempt: u32) -> (ms: u64)
    ensures
        ms == if attempt == 1 { 1500u64 } else if attempt == 2 { 4000u64 } else { 0u64 },
{
    if attempt == 1 {
        1500
    } else if attempt == 2 {
        4000
    } else {
        0
    }
}

/// The skin model sent with an upload: the one asked for, "classic" by
/// default.
pub fn upload_variant(variant: Option<String>) -> (r: String)
    ensures
        r@ == match variant {
            Some(v) => v@,
            None => "classic"@,
        },
{
    match variant {
        Some(v) => v,
        None => String::from_str("classic"),
    }
}

/// The first `n` items.
pub fn take_first(items: Vec<String>, n: usize) -> (r: Vec<String>)
    ensures
        r@ == items@.take(if n < items@.len() { n as int } else { items@.len() as int }),
{
    let mut r: Vec<String> = Vec::new();
    let mut i: usize = 0;
    let m = if n < items.len() { n } else { items.len() };
    while i < m
        invariant
            m <= items@.len(),
            i <= m,
            r@ == items@.take(i as int),
        decreases m - i,
    {
        r.push(items[i].clone());
        assert(items@.take(i + 1) == items@.take(i as int).push(items@[i as int]));
        i = i + 1;
    }
    r
}

/// A skin entry whose "state" is "ACTIVE".
pub open spec fn skin_is_active(s: Json) -> bool {
    opt_str_spec(get_spec(s, "state"@)) == Some("ACTIVE"@)
}

pub open spec fn first_active_from(a: Seq<Json>, i: int) -> Option<Json>
    decreases a.len() - i,
{
    if i < 0 || i >= a.len() {
        None
    } else if skin_is_active(a[i]) {
        Some(a[i])
    } else {
        first_active_from(a, i + 1)
    }
}

/// The "url" of the first entry of "skins" whose "state" is "ACTIVE".
pub open spec fn json_active_skin_url(text: Seq<char>) -> Option<Seq<char>> {
    match json_of_text(text) {
        Some(j) => match get_spec(j, "skins"@) {
            Some(Json::Array(a)) => match first_active_from(a@, 0) {
                Some(s) => opt_str_spec(get_spec(s, "url"@)),
                None => None,
            },
            _ => None,
        },
        None => None,
    }
}

/// The first of "error", "message", "errorType" present in an error answer,
/// where that one is a string.
pub open spec fn json_upload_error(text: Seq<char>) -> Option<Seq<char>> {
    match json_of_text(text) {
        Some(j) => opt_str_spec(match get_spec(j, "error"@) {
            Some(x) => Some(x),
            None => match get_spec(j, "message"@) {
                Some(x) => Some(x),
                None => get_spec(j, "errorType"@),
            },
        }),
        None => None,
    }
}

fn is_active(s: &Json) -> (b: bool)
    ensures
        b == skin_is_active(*s),
{
    proof {
        reveal_strlit("ACTIVE");
    }
    match s.get("state") {
        Some(st) => match st.as_str() {
            Some(x) => str_eq(x, "ACTIVE"),
            None => false,
        },
        None => false,
    }
}

fn first_active(a: &Vec<Json>, i: usize) -> (r: Option<&Json>)
    requires
        i <= a@.len(),
    ensures
        match first_active_from(a@, i as int) {
            Some(x) => r == Some(&x),
            None => r is None,
        },
    decreases a@.len() - i,
{
    if i >= a.len() {
        None
    } else if is_active(&a[i]) {
        Some(&a[i])
    } else {
        first_active(a, i + 1)
    }
}

fn active_skin_url(text: &str) -> (r: Option<String>)
    ensures
        r matches Some(u) ==> json_active_skin_url(text@) == Some(u@),
        r is None ==> json_active_skin_url(text@) is None,
{
    let j = match parse_json(text) {
        Ok(j) => j,
        Err(_) => return None,
    };
    let skins = j.get("skins")?;
    let arr = skins.as_array()?;
    let active = first_active(arr, 0)?;
    get_str(active, "url")
}

fn upload_error_field(text: &str) -> (r: Option<String>)
    ensures
        r matches Some(u) ==> json_upload_error(text@) == Some(u@),
        r is None ==> json_upload_error(text@) is None,
{
    let j = match parse_json(text) {
        Ok(j) => j,
        Err(_) => return None,
    };
    let field: Option<&Json> = match j.get("error") {
        Some(x) => Some(x),
        None => match j.get("message") {
            Some(x) => Some(x),
            None => j.get("errorType"),
        },
    };
    match field {
        Some(f) => match f.as_str() {
            Some(x) => Some(String::from_str(x)),
            None => None,
        },
        None => None,
    }
}

/// Reads the answer to a skin upload: a 2xx status succeeds (with the active
/// skin's URL where the answer names it), anything else fails with the
/// answer's error or "HTTP {status}".
pub fn upload_result(status: u16, text: &str) -> (r: UploadResult)
    ensures
        !r.cancelled,
        r.status_code == Some(status),
        200 <= status < 300 ==> r.success && r.error is None && match json_active_skin_url(text@) {
            Some(u) => r.skin_url matches Some(x) && x@ == u,
            None => r.skin_url is None,
        },
        !(200 <= status < 300) ==> !r.success && r.skin_url is None && (r.error matches Some(e) && e@ == match json_upload_error(text@) {
            Some(m) => m,
            None => "HTTP "@ + decimal_int(status as int),
        }),
{
    if 200 <= status && status < 300 {
        return UploadResult {
            success: true,
            cancelled: false,
            status_code: Some(status),
            error: None,
            skin_url: active_skin_url(text),
        };
    }
    let error = match upload_error_field(text) {
        Some(e) => e,
        None => with_decimal("HTTP ", status as i64),
    };
    UploadResult { success: false, cancelled: false, status_code: Some(status), error: Some(error), skin_url: None }
}

/// The answer when the user cancels an upload.
pub fn upload_cancelled() -> (r: UploadResult)
    ensures
        !r.success && r.cancelled && r.status_code is None && r.skin_url is None
            && (r.error matches Some(e) && e@ == "Upload cancelled"@),
{
    UploadResult {
        success: false,
        cancelled: true,
        status_code: None,
        error: Some(String::from_str("Upload cancelled")),
        skin_url: None,
    }
}

/// The answer when the upload could not be made (the file, the request).
pub fn upload_failed(error: String) -> (r: UploadResult)
    ensures
        !r.success && !r.cancelled && r.status_code is None && r.skin_url is None && r.error == Some(error),
{
    UploadResult { success: false, cancelled: false, status_code: None, error: Some(error), skin_url: None }
}

/// The message for a skin too small to hold a face.
pub open spec fn too_small_msg(w: int, h: int) -> Seq<char> {
    "skin image too small ("@ + decimal_int(w) + "x"@ + decimal_int(h) + ")"@
}

/// The 8x8 face of a `w` x `h` skin: the base face at (8, 8), with the hat
/// layer at (40, 8) over it wherever the hat is not fully transparent; only
/// 64x64 skins have a hat layer.
pub open spec fn face_pixels(w: int, h: int, px: Seq<u8>) -> Seq<u8> {
    Seq::new(8 * 8 * 4, |k: int| {
        let x = (k / 4) % 8;
        let y = (k / 4) / 8;
        if h == 64 && px[chan_index(w, 40 + x, 8 + y, 3)] > 0 {
            px[chan_index(w, 40 + x, 8 + y, k % 4)]
        } else {
            px[chan_index(w, 8 + x, 8 + y, k % 4)]
        }
    })
}

/// The face preview of a skin file, or why there is none.
pub open spec fn skin_face(bytes: Seq<u8>) -> Result<Seq<u8>, Seq<char>> {
    match decoded_image(bytes) {
        Err(e) => Err(e),
        Ok((w, h, px)) => if w < 48 || h < 16 {
            Err(too_small_msg(w as int, h as int))
        } else {
            png_of(8, 8, face_pixels(w as int, h as int, px))
        },
    }
}

/// Cuts the native 8x8 face out of a skin PNG, with the hat layer laid over
/// it for 64x64 skins (64x32 skins have none), as a PNG.
pub fn skin_face_png(skin_png: &[u8]) -> (r: Result<Vec<u8>, String>)
    ensures
        match skin_face(skin_png@) {
            Ok(v) => r matches Ok(x) && x@ == v,
            Err(e) => r matches Err(x) && x@ == e,
        },
{
    let img = decode_image(skin_png)?;
    let w = img.width;
    let h = img.height;
    if w < 48 || h < 16 {
        let mut msg = with_decimal("skin image too small (", w as i64);
        push_char(&mut msg, 'x');
        push_decimal(&mut msg, h as i64);
        push_char(&mut msg, ')');
        proof {
            reveal_strlit("x");
            reveal_strlit(")");
            assert(msg@ == too_small_msg(w as int, h as int));
        }
        return Err(msg);
    }
    let mut face = img.crop(8, 8, 8, 8);
    let ghost base = face;
    if h == 64 {
        let hat = img.crop(40, 8, 8, 8);
        let mut y: u32 = 0;
        while y < 8
            invariant
                face.wf(),
                face.width == 8,
                face.height == 8,
                hat.wf(),
                hat.width == 8,
                hat.height == 8,
                y <= 8,
                forall|a: int, b: int, c: int| 0 <= a < 8 && 0 <= b < 8 && 0 <= c < 4 ==>
                    #[trigger] face.chan(a, b, c) == if b < y && hat.chan(a, b, 3) > 0 { hat.chan(a, b, c) } else { base.chan(a, b, c) },
            decreases 8 - y,
        {
            let mut x: u32 = 0;
            while x < 8
                invariant
                    face.wf(),
                    face.width == 8,
                    face.height == 8,
                    hat.wf(),
                    hat.width == 8,
                    hat.height == 8,
                    y < 8,
                    x <= 8,
                    forall|a: int, b: int, c: int| 0 <= a < 8 && 0 <= b < 8 && 0 <= c < 4 ==>
                        #[trigger] face.chan(a, b, c) == if (b < y || (b == y && a < x)) && hat.chan(a, b, 3) > 0 { hat.chan(a, b, c) } else { base.chan(a, b, c) },
                decreases 8 - x,
            {
                let p = hat.get_pixel(x, y);
                if p[3] > 0 {
                    face.put_pixel(x, y, p);
                }
                x = x + 1;
            }
            y = y + 1;
        }
    }
    proof {
        assert forall|q: int| 0 <= q < 8 * 8 * 4 implies #[trigger] face.pixels@[q] == face_pixels(w as int, h as int, img.pixels@)[q] by {
            lemma_chan_decompose(8, q);
            let a = (q / 4) % 8;
            let b = (q / 4) / 8;
            assert(b < 8) by (nonlinear_arith)
                requires
                    b == (q / 4) / 8,
                    0 <= q < 8 * 8 * 4,
            ;
            assert(face.chan(a, b, q % 4) == face.pixels@[q]);
        }
        assert(face.pixels@ == face_pixels(w as int, h as int, img.pixels@));
    }
    encode_png(&face)
}

/// The downloaded values of `results`, in order, the failed downloads left out.
pub open spec fn ok_values(results: Seq<Result<Vec<u8>, String>>) -> Seq<Vec<u8>>
    decreases results.len(),
{
    if results.len() == 0 {
        Seq::empty()
    } else {
        let init = ok_values(results.drop_last());
        match results.last() {
            Ok(v) => init.push(v),
            Err(_) => init,
        }
    }
}

/// The skins that downloaded, in the order of their hashes: `results` holds
/// one download outcome per hash, in hash order.
pub fn collect_ok(results: Vec<Result<Vec<u8>, String>>) -> (r: Vec<Vec<u8>>)
    ensures
        r@ == ok_values(results@),
{
    let ghost orig = results@;
    let mut rest = results;
    let mut out: Vec<Vec<u8>> = Vec::new();
    while rest.len() > 0
        invariant
            rest@ == orig.skip(orig.len() - rest@.len()),
            rest@.len() <= orig.len(),
            out@ == ok_values(orig.take(orig.len() - rest@.len())),
        decreases rest@.len(),
    {
        let ghost k = orig.len() - rest@.len();
        let x = rest.remove(0);
        assert(x == orig[k]);
        assert(orig.take(k + 1).drop_last() == orig.take(k));
        assert(orig.take(k + 1).last() == orig[k]);
        assert(rest@ == orig.skip(k + 1));
        match x {
            Ok(v) => out.push(v),
            Err(_) => {},
        }
    }
    assert(orig.take(orig.len() as int) == orig);
    out
}

/// Where a profile's skins are looked up, in the order they are tried: a
/// browser-like TLS client, the Dripfy mirror, curl, reqwest, and last a
/// rendered web view.
pub enum ProfileSource {
    BrowserTls,
    Dripfy,
    Curl,
    Reqwest,
    WebView,
}

/// What a source gave: a page, a list of skin hashes, or an error.
pub enum SourceOutcome {
    Html(String),
    Hashes(Vec<String>),
    Failed(String),
}

/// What to do after a source was tried: use the page, try the next source,
/// or give up with a message.
pub enum ProfileStep {
    Done(String),
    Next(ProfileSource),
    Fail(String),
}

/// The source tried first.
pub fn first_profile_source() -> (s: ProfileSource)
    ensures
        s is BrowserTls,
{
    ProfileSource::BrowserTls
}

/// A page from curl or reqwest is usable when it is not blank and not a
/// Cloudflare challenge.
pub open spec fn usable_page(html: Seq<char>) -> bool {
    unicode_trim(html).len() > 0 && !is_challenge_spec(html)
}

/// A step as text: the page to use, the source to try next, or the message
/// to give up with.
pub ghost enum StepView {
    Done(Seq<char>),
    Next(ProfileSource),
    Fail(Seq<char>),
}

pub open spec fn step_view(r: ProfileStep) -> StepView {
    match r {
        ProfileStep::Done(p) => StepView::Done(p@),
        ProfileStep::Next(s) => StepView::Next(s),
        ProfileStep::Fail(m) => StepView::Fail(m@),
    }
}

/// The page made from hashes, when the outcome is a non-empty list of them.
pub open spec fn hashes_page(outcome: SourceOutcome) -> Option<Seq<char>> {
    match outcome {
        SourceOutcome::Hashes(hs) => if hs@.len() > 0 {
            Some(hashes_fragment(hs@.map_values(|h: String| h@)))
        } else {
            None
        },
        _ => None,
    }
}

/// The page of an outcome that is one, usable or not.
pub open spec fn page_of(outcome: SourceOutcome) -> Option<Seq<char>> {
    match outcome {
        SourceOutcome::Html(h) => Some(h@),
        _ => None,
    }
}

/// The page of an outcome that is a usable one.
pub open spec fn usable_page_of(outcome: SourceOutcome) -> Option<Seq<char>> {
    match outcome {
        SourceOutcome::Html(h) => if usable_page(h@) { Some(h@) } else { None },
        _ => None,
    }
}

/// The next step after `tried` gave `outcome`: the TLS client's page is taken
/// as it is; Dripfy's or the web view's hashes are turned into a page when
/// there are any; curl's or reqwest's page is taken when usable; otherwise the
/// next source is tried, and after the web view the search fails with its
/// error, or with the no-skins message when it found no hashes.
pub open spec fn profile_next_spec(tried: ProfileSource, outcome: SourceOutcome) -> StepView {
    let taken = match tried {
        ProfileSource::BrowserTls => page_of(outcome),
        ProfileSource::Dripfy => hashes_page(outcome),
        ProfileSource::Curl => usable_page_of(outcome),
        ProfileSource::Reqwest => usable_page_of(outcome),
        ProfileSource::WebView => hashes_page(outcome),
    };
    match taken {
        Some(p) => StepView::Done(p),
        None => match tried {
            ProfileSource::BrowserTls => StepView::Next(ProfileSource::Dripfy),
            ProfileSource::Dripfy => StepView::Next(ProfileSource::Curl),
            ProfileSource::Curl => StepView::Next(ProfileSource::Reqwest),
            ProfileSource::Reqwest => StepView::Next(ProfileSource::WebView),
            ProfileSource::WebView => match outcome {
                SourceOutcome::Failed(e) => StepView::Fail(e@),
                _ => StepView::Fail(no_skins_msg()),
            },
        },
    }
}

/// How the profile lookup moves on: a non-empty list of hashes from Dripfy or
/// the web view becomes the hashes page; curl's or reqwest's page is used only
/// when it is neither blank nor a Cloudflare challenge (a challenge, a blank
/// page or an error moves on to the next source); the sources are tried in the
/// order TLS client, Dripfy, curl, reqwest, web view; the web view's error,
/// or the no-skins message when it found none, ends the lookup.
pub proof fn lemma_profile_lookup(tried: ProfileSource, outcome: SourceOutcome)
    ensures
        (tried is Dripfy || tried is WebView) ==> (match outcome {
            SourceOutcome::Hashes(hs) => hs@.len() > 0 ==> profile_next_spec(tried, outcome) == StepView::Done(hashes_fragment(hs@.map_values(|h: String| h@))),
            _ => true,
        }),
        tried is WebView ==> (match outcome {
            SourceOutcome::Hashes(hs) => hs@.len() == 0 ==> profile_next_spec(tried, outcome) == StepView::Fail(no_skins_msg()),
            SourceOutcome::Failed(e) => profile_next_spec(tried, outcome) == StepView::Fail(e@),
            SourceOutcome::Html(_) => profile_next_spec(tried, outcome) == StepView::Fail(no_skins_msg()),
        }),
        tried is Dripfy ==> (match outcome {
            SourceOutcome::Hashes(hs) => hs@.len() == 0 ==> profile_next_spec(tried, outcome) == StepView::Next(ProfileSource::Curl),
            _ => profile_next_spec(tried, outcome) == StepView::Next(ProfileSource::Curl),
        }),
        (tried is Curl || tried is Reqwest) ==> (match profile_next_spec(tried, outcome) {
            StepView::Done(p) => outcome matches SourceOutcome::Html(h) && h@ == p && !is_challenge_spec(p)
                && unicode_trim(p).len() > 0,
            StepView::Next(n) => if tried is Curl { n is Reqwest } else { n is WebView },
            StepView::Fail(_) => false,
        }),
        (tried is Curl || tried is Reqwest) ==> (match outcome {
            SourceOutcome::Html(h) => !is_challenge_spec(h@) && unicode_trim(h@).len() > 0 ==> profile_next_spec(tried, outcome) == StepView::Done(h@),
            _ => true,
        }),
        tried is BrowserTls ==> (match outcome {
            SourceOutcome::Html(h) => profile_next_spec(tried, outcome) == StepView::Done(h@),
            _ => profile_next_spec(tried, outcome) == StepView::Next(ProfileSource::Dripfy),
        }),
{
}

/// The next step of the profile lookup after `tried` gave `outcome`.
pub fn profile_fetch_next(tried: ProfileSource, outcome: SourceOutcome) -> (r: ProfileStep)
    ensures
        step_view(r) == profile_next_spec(tried, outcome),
        (tried is Dripfy || tried is WebView) ==> (match outcome {
            SourceOutcome::Hashes(hs) => hs@.len() > 0 ==> step_view(r) == StepView::Done(hashes_fragment(hs@.map_values(|h: String| h@))),
            _ => true,
        }),
        tried is WebView ==> (match outcome {
            SourceOutcome::Hashes(hs) => hs@.len() == 0 ==> step_view(r) == StepView::Fail(no_skins_msg()),
            SourceOutcome::Failed(e) => step_view(r) == StepView::Fail(e@),
            SourceOutcome::Html(_) => step_view(r) == StepView::Fail(no_skins_msg()),
        }),
        tried is Dripfy ==> (match outcome {
            SourceOutcome::Hashes(hs) => hs@.len() == 0 ==> step_view(r) == StepView::Next(ProfileSource::Curl),
            _ => step_view(r) == StepView::Next(ProfileSource::Curl),
        }),
        (tried is Curl || tried is Reqwest) ==> (match step_view(r) {
            StepView::Done(p) => outcome matches SourceOutcome::Html(h) && h@ == p && !is_challenge_spec(p)
                && unicode_trim(p).len() > 0,
            StepView::Next(n) => if tried is Curl { n is Reqwest } else { n is WebView },
            StepView::Fail(_) => false,
        }),
        (tried is Curl || tried is Reqwest) ==> (match outcome {
            SourceOutcome::Html(h) => !is_challenge_spec(h@) && unicode_trim(h@).len() > 0 ==> step_view(r) == StepView::Done(h@),
            _ => true,
        }),
        tried is BrowserTls ==> (match outcome {
            SourceOutcome::Html(h) => step_view(r) == StepView::Done(h@),
            _ => step_view(r) == StepView::Next(ProfileSource::Dripfy),
        }),
{
    match tried {
        ProfileSource::BrowserTls => match outcome {
            SourceOutcome::Html(h) => ProfileStep::Done(h),
            _ => ProfileStep::Next(ProfileSource::Dripfy),
        },
        ProfileSource::Dripfy => match outcome {
            SourceOutcome::Hashes(hs) => if hs.len() > 0 {
                ProfileStep::Done(hashes_html(hs.as_slice()))
            } else {
                ProfileStep::Next(ProfileSource::Curl)
            },
            _ => ProfileStep::Next(ProfileSource::Curl),
        },
        ProfileSource::Curl => match outcome {
            SourceOutcome::Html(h) => if usable(&h) {
                ProfileStep::Done(h)
            } else {
                ProfileStep::Next(ProfileSource::Reqwest)
            },
            _ => ProfileStep::Next(ProfileSource::Reqwest),
        },
        ProfileSource::Reqwest => match outcome {
            SourceOutcome::Html(h) => if usable(&h) {
                ProfileStep::Done(h)
            } else {
                ProfileStep::Next(ProfileSource::WebView)
            },
            _ => ProfileStep::Next(ProfileSource::WebView),
        },
        ProfileSource::WebView => match outcome {
            SourceOutcome::Hashes(hs) => if hs.len() > 0 {
                ProfileStep::Done(hashes_html(hs.as_slice()))
            } else {
                proof { reveal_strlit("No skins found on NameMC profile"); }
                ProfileStep::Fail(String::from_str("No skins found on NameMC profile"))
            },
            SourceOutcome::Failed(e) => ProfileStep::Fail(e),
            SourceOutcome::Html(_) => {
                proof { reveal_strlit("No skins found on NameMC profile"); }
                ProfileStep::Fail(String::from_str("No skins found on NameMC profile"))
            },
        },
    }
}

fn usable(html: &String) -> (b: bool)
    ensures
        b == usable_page(html@),
{
    let t = trim(html.as_str());
    t.unicode_len() > 0 && !is_challenge(html.as_str())
}

} // verus!
