//! Sign-in: the OAuth redirect, form bodies, and what each token response means.
use vstd::prelude::*;
use vstd::utf8::*;
use vstd::string::StringSliceAdditionalSpecFns;
use crate::mc::crypto::{is_hex_byte, hex_byte_value, hex_pair_or_zero};
use crate::text::{lossy_string, utf8_lossy, str_chars, string_from_chars, occurs_at, chars_occur_at};
use vstd::slice::slice_subrange;
use crate::commands::files::{urlencode, url_encoded, url_unreserved, upper_hex_digit};
use crate::commands::crypto::{base64_encode, base64_encoded};
use crate::text::{with_str, with_decimal, decimal_int};
use crate::commands::crypto::{base64_decode, base64_decoded};
use qrcode::render::svg;
use qrcode::QrCode;
use crate::json::{Json, parse_json_bytes, json_of_bytes, get_spec, index_spec, str_spec, get_str, at_spec, field_str, has_field};
use crate::text::str_eq;
use crate::text::{split_on, split_chars, unicode_whitespace};
use crate::text::lemma_encode_utf8_concat;

verus! {

/// Whether `u8::from_str_radix(.., 16)` accepts the two bytes `a`, `b`.
pub open spec fn hex_pair_ok(a: u8, b: u8) -> bool {
    (is_hex_byte(a) && is_hex_byte(b)) || (a == 43 && is_hex_byte(b))
}

/// URL-decoding of bytes: '+' is a space, '%' with two more bytes that read
/// as hex is that byte, anything else stays.
pub open spec fn urldecode_bytes(b: Seq<u8>) -> Seq<u8>
    decreases b.len(),
{
    if b.len() == 0 {
        b
    } else if b[0] == 43 {
        seq![32u8] + urldecode_bytes(b.drop_first())
    } else if b[0] == 37 && b.len() >= 3 && hex_pair_ok(b[1], b[2]) {
        seq![hex_pair_or_zero(b[1], b[2])] + urldecode_bytes(b.skip(3))
    } else {
        seq![b[0]] + urldecode_bytes(b.drop_first())
    }
}

/// Where decoding `b` would slice a '%' escape through the middle of a
/// character (the third byte after '%' continuing a character).
pub open spec fn urldecode_splits_char(b: Seq<u8>) -> bool
    decreases b.len(),
{
    if b.len() == 0 {
        false
    } else if b[0] == 37 && b.len() >= 3 {
        if b.len() > 3 && is_continuation_byte(b[3]) {
            true
        } else if hex_pair_ok(b[1], b[2]) {
            urldecode_splits_char(b.skip(3))
        } else {
            urldecode_splits_char(b.drop_first())
        }
    } else {
        urldecode_splits_char(b.drop_first())
    }
}

/// Whether decoding `s` would cut a character apart, where `urldecode`
/// cannot be used.
pub fn urldecode_would_split(s: &str) -> (b: bool)
    ensures
        b == urldecode_splits_char(s.spec_bytes()),
{
    let bytes = s.as_bytes();
    let ghost b = bytes@;
    let mut i: usize = 0;
    assert(b.skip(0) == b);
    while i < bytes.len()
        invariant
            b == bytes@,
            b == s.spec_bytes(),
            i <= b.len(),
            urldecode_splits_char(b) == urldecode_splits_char(b.skip(i as int)),
        decreases b.len() - i,
    {
        let ghost rest = b.skip(i as int);
        assert(rest.len() == b.len() - i && rest[0] == bytes@[i as int]);
        if bytes[i] == 37 && bytes.len() - i >= 3 {
            if bytes.len() - i > 3 && bytes[i + 3] >= 0x80 && bytes[i + 3] <= 0xbf {
                assert(rest[3] == bytes@[i + 3]);
                return true;
            } else if hex_pair_accepts(bytes[i + 1], bytes[i + 2]) {
                assert(rest[1] == bytes@[i + 1] && rest[2] == bytes@[i + 2]);
                assert(rest.skip(3) == b.skip(i + 3));
                i = i + 3;
            } else {
                assert(rest[1] == bytes@[i + 1] && rest[2] == bytes@[i + 2]);
                assert(rest.drop_first() == b.skip(i + 1));
                i = i + 1;
            }
        } else {
            assert(rest.drop_first() == b.skip(i + 1));
            i = i + 1;
        }
    }
    false
}

/// Decodes a URL query component ('+' as space, %XX escapes), invalid UTF-8
/// in the result replaced.
pub fn urldecode(s: &str) -> (r: String)
    requires
        !urldecode_splits_char(s.spec_bytes()),
    ensures
        r@ == utf8_lossy(urldecode_bytes(s.spec_bytes())),
        valid_utf8(urldecode_bytes(s.spec_bytes())) ==> r@ == decode_utf8(urldecode_bytes(s.spec_bytes())),
{
    let bytes = s.as_bytes();
    let ghost b = bytes@;
    let mut out: Vec<u8> = Vec::new();
    let mut i: usize = 0;
    assert(b.skip(0) == b);
    while i < bytes.len()
        invariant
            b == bytes@,
            i <= b.len(),
            out@ + urldecode_bytes(b.skip(i as int)) == urldecode_bytes(b),
        decreases b.len() - i,
    {
        let ghost rest = b.skip(i as int);
        let ghost old_out = out@;
        let c = bytes[i];
        if c == 43 {
            out.push(32);
            i = i + 1;
            assert(rest.drop_first() == b.skip(i as int));
        } else if c == 37 && bytes.len() - i > 2 {
            let x = bytes[i + 1];
            let y = bytes[i + 2];
            assert(rest[1] == x && rest[2] == y);
            if hex_pair_accepts(x, y) {
                out.push(hex_pair_value(x, y));
                i = i + 3;
                assert(rest.skip(3) == b.skip(i as int));
            } else {
                out.push(37);
                i = i + 1;
                assert(rest.drop_first() == b.skip(i as int));
            }
        } else {
            out.push(c);
            i = i + 1;
            assert(rest.drop_first() == b.skip(i as int));
        }
    }
    assert(b.skip(b.len() as int).len() == 0);
    lossy_string(out.as_slice())
}

/// Percent-encoding as bytes: what `url_encoded` writes, each character a byte.
spec fn url_encoded_bytes(bytes: Seq<u8>) -> Seq<u8>
    decreases bytes.len(),
{
    if bytes.len() == 0 {
        Seq::empty()
    } else {
        let b = bytes[0];
        let head = if url_unreserved(b) {
            seq![b]
        } else {
            seq![37u8, upper_hex_digit((b / 16) as nat) as u8, upper_hex_digit((b % 16) as nat) as u8]
        };
        head + url_encoded_bytes(bytes.drop_first())
    }
}

proof fn lemma_upper_hex_digit(d: nat)
    requires
        d < 16,
    ensures
        upper_hex_digit(d) <= '\u{7f}',
        is_hex_byte(upper_hex_digit(d) as u8),
        hex_byte_value(upper_hex_digit(d) as u8) == d,
{
}

/// Percent-encoded text is ASCII, and its UTF-8 bytes are its characters.
proof fn lemma_url_encoded_bytes(bytes: Seq<u8>)
    ensures
        encode_utf8(url_encoded(bytes)) == url_encoded_bytes(bytes),
        forall|i: int| 0 <= i < url_encoded_bytes(bytes).len() ==> #[trigger] url_encoded_bytes(bytes)[i] < 128,
    decreases bytes.len(),
{
    if bytes.len() > 0 {
        let b = bytes[0];
        let rest = bytes.drop_first();
        lemma_url_encoded_bytes(rest);
        lemma_upper_hex_digit((b / 16) as nat);
        lemma_upper_hex_digit((b % 16) as nat);
        let head_c = if url_unreserved(b) {
            seq![b as char]
        } else {
            seq!['%', upper_hex_digit((b / 16) as nat), upper_hex_digit((b % 16) as nat)]
        };
        let head_b = if url_unreserved(b) {
            seq![b]
        } else {
            seq![37u8, upper_hex_digit((b / 16) as nat) as u8, upper_hex_digit((b % 16) as nat) as u8]
        };
        assert(url_encoded(bytes) == head_c + url_encoded(rest));
        assert(url_encoded_bytes(bytes) == head_b + url_encoded_bytes(rest));
        lemma_encode_utf8_concat(head_c, url_encoded(rest));
        assert(is_ascii_chars(head_c));
        is_ascii_chars_encode_utf8(head_c);
        assert(encode_utf8(head_c) == head_b);
        let whole = url_encoded_bytes(bytes);
        assert forall|i: int| 0 <= i < whole.len() implies #[trigger] whole[i] < 128 by {
            if i >= head_b.len() {
                assert(whole[i] == url_encoded_bytes(rest)[i - head_b.len()]);
            }
        }
    }
}

/// Decoding percent-encoded bytes gives them back, and never cuts a character.
proof fn lemma_urldecode_encoded_bytes(bytes: Seq<u8>)
    ensures
        urldecode_bytes(url_encoded_bytes(bytes)) == bytes,
        !urldecode_splits_char(url_encoded_bytes(bytes)),
    decreases bytes.len(),
{
    if bytes.len() > 0 {
        let b = bytes[0];
        let rest = bytes.drop_first();
        let e = url_encoded_bytes(bytes);
        let er = url_encoded_bytes(rest);
        lemma_urldecode_encoded_bytes(rest);
        lemma_url_encoded_bytes(rest);
        if url_unreserved(b) {
            assert(e == seq![b] + er);
            assert(e.drop_first() == er);
            assert(e[0] == b);
        } else {
            let hi = (b / 16) as nat;
            let lo = (b % 16) as nat;
            lemma_upper_hex_digit(hi);
            lemma_upper_hex_digit(lo);
            let h = upper_hex_digit(hi) as u8;
            let l = upper_hex_digit(lo) as u8;
            assert(e == seq![37u8, h, l] + er);
            assert(e[0] == 37u8 && e[1] == h && e[2] == l);
            assert(e.skip(3) == er);
            assert(hex_pair_ok(h, l));
            assert(hex_pair_or_zero(h, l) == b);
            if e.len() > 3 {
                assert(e[3] == er[0]);
                assert(er[0] < 128);
            }
        }
    }
}

/// Decoding what `urlencode` writes gives the text back: `urldecode` may be
/// called on it (no character is cut), and the bytes it decodes are the UTF-8
/// of the original text, which it then reads as that text.
pub proof fn lemma_urldecode_undoes_urlencode(text: Seq<char>)
    ensures
        !urldecode_splits_char(encode_utf8(url_encoded(encode_utf8(text)))),
        urldecode_bytes(encode_utf8(url_encoded(encode_utf8(text)))) == encode_utf8(text),
        valid_utf8(encode_utf8(text)),
        decode_utf8(encode_utf8(text)) == text,
{
    lemma_url_encoded_bytes(encode_utf8(text));
    lemma_urldecode_encoded_bytes(encode_utf8(text));
    encode_utf8_valid_utf8(text);
    encode_utf8_decode_utf8(text);
}

fn hex_value_exec(b: u8) -> (r: Option<u8>)
    ensures
        r is Some <==> is_hex_byte(b),
        r matches Some(v) ==> v == hex_byte_value(b) && v < 16,
{
    if 48 <= b && b <= 57 {
        Some(b - 48)
    } else if 97 <= b && b <= 102 {
        Some(b - 87)
    } else if 65 <= b && b <= 70 {
        Some(b - 55)
    } else {
        None
    }
}

fn hex_pair_accepts(a: u8, b: u8) -> (r: bool)
    ensures
        r == hex_pair_ok(a, b),
{
    match (hex_value_exec(a), hex_value_exec(b)) {
        (Some(_), Some(_)) => true,
        (None, Some(_)) => a == 43,
        _ => false,
    }
}

fn hex_pair_value(a: u8, b: u8) -> (r: u8)
    ensures
        r == hex_pair_or_zero(a, b),
{
    match (hex_value_exec(a), hex_value_exec(b)) {
        (Some(x), Some(y)) => x * 16 + y,
        (None, Some(y)) => if a == 43 { y } else { 0 },
        _ => 0,
    }
}


/// The first position of `c` in `s` at or after `i`.
pub open spec fn first_index_from(s: Seq<char>, c: char, i: int) -> Option<int>
    decreases s.len() - i,
{
    if i < 0 || i >= s.len() {
        None
    } else if s[i] == c {
        Some(i)
    } else {
        first_index_from(s, c, i + 1)
    }
}

/// The last position of `c` in `s` before `i`.
pub open spec fn last_index_before(s: Seq<char>, c: char, i: int) -> Option<int>
    decreases i,
{
    if i <= 0 || i > s.len() {
        None
    } else if s[i - 1] == c {
        Some(i - 1)
    } else {
        last_index_before(s, c, i - 1)
    }
}

pub open spec fn is_ascii_digit(c: char) -> bool {
    '0' <= c <= '9'
}

/// The decimal number that the digits spell.
pub open spec fn dec_value(d: Seq<char>) -> nat
    decreases d.len(),
{
    if d.len() == 0 {
        0
    } else {
        dec_value(d.drop_last()) * 10 + ((d.last() as u32) - 48) as nat
    }
}

/// `str::parse::<u16>`: an optional '+', then at least one decimal digit, the
/// value at most 65535.
pub open spec fn parse_u16_spec(s: Seq<char>) -> Option<u16> {
    let d = unsigned_digits(s);
    if d.len() > 0 && all_ascii_digits(d) && dec_value(d) <= 65535 {
        Some(dec_value(d) as u16)
    } else {
        None
    }
}

/// The digits of an unsigned number: after an optional '+'.
pub open spec fn unsigned_digits(s: Seq<char>) -> Seq<char> {
    if s.len() > 0 && s[0] == '+' {
        s.drop_first()
    } else {
        s
    }
}

pub open spec fn all_ascii_digits(d: Seq<char>) -> bool {
    forall|i: int| 0 <= i < d.len() ==> #[trigger] is_ascii_digit(d[i])
}

fn first_index(s: &[char], c: char, from: usize) -> (r: Option<usize>)
    requires
        from <= s@.len(),
    ensures
        r matches Some(k) ==> first_index_from(s@, c, from as int) == Some(k as int) && from <= k < s@.len(),
        r is None ==> first_index_from(s@, c, from as int) is None,
    decreases s@.len() - from,
{
    if from >= s.len() {
        None
    } else if s[from] == c {
        Some(from)
    } else {
        first_index(s, c, from + 1)
    }
}

fn last_index(s: &[char], c: char, before: usize) -> (r: Option<usize>)
    requires
        before <= s@.len(),
    ensures
        r matches Some(k) ==> last_index_before(s@, c, before as int) == Some(k as int) && k < before,
        r is None ==> last_index_before(s@, c, before as int) is None,
    decreases before,
{
    if before == 0 {
        None
    } else if s[before - 1] == c {
        Some(before - 1)
    } else {
        last_index(s, c, before - 1)
    }
}

fn parse_u16(s: &[char]) -> (r: Option<u16>)
    ensures
        r == parse_u16_spec(s@),
{
    let start: usize = if s.len() > 0 && s[0] == '+' { 1 } else { 0 };
    let ghost d = unsigned_digits(s@);
    assert(d == s@.subrange(start as int, s@.len() as int));
    if start >= s.len() {
        return None;
    }
    let mut acc: u32 = 0;
    let mut i: usize = start;
    while i < s.len()
        invariant
            start <= i <= s@.len(),
            d == s@.subrange(start as int, s@.len() as int),
            d == unsigned_digits(s@),
            forall|j: int| start <= j < i ==> is_ascii_digit(s@[j]),
            acc as nat == if dec_value(s@.subrange(start as int, i as int)) < 65536 {
                dec_value(s@.subrange(start as int, i as int))
            } else {
                65536
            },
        decreases s@.len() - i,
    {
        let c = s[i];
        if !('0' <= c && c <= '9') {
            assert(d[i - start] == c);
            assert(!is_ascii_digit(d[i - start]));
            return None;
        }
        let dv: u32 = (c as u32) - 48;
        let ghost pre = s@.subrange(start as int, i as int);
        assert(s@.subrange(start as int, i + 1).drop_last() == pre);
        assert(s@.subrange(start as int, i + 1).last() == c);
        if acc >= 65536 {
            acc = 65536;
        } else {
            let v = acc * 10 + dv;
            acc = if v >= 65536 { 65536 } else { v };
        }
        i = i + 1;
    }
    assert(s@.subrange(start as int, s@.len() as int) == d);
    assert(forall|j: int| 0 <= j < d.len() ==> d[j] == s@[start + j]);
    if acc >= 65536 {
        None
    } else {
        Some(acc as u16)
    }
}

/// The host and port of the redirect URI: "http://" dropped, the path cut
/// off at the first '/', the port after the last ':' (80 when absent or not
/// a valid port).
pub open spec fn redirect_host_port_spec(uri: Seq<char>) -> (Seq<char>, u16) {
    let rest = if occurs_at(uri, "http://"@, 0) { uri.skip(7) } else { uri };
    let hp = match first_index_from(rest, '/', 0) {
        Some(k) => rest.take(k),
        None => rest,
    };
    match last_index_before(hp, ':', hp.len() as int) {
        Some(k) => (hp.take(k), match parse_u16_spec(hp.skip(k + 1)) {
            Some(p) => p,
            None => 80,
        }),
        None => (hp, 80),
    }
}

/// Host and port that the local callback server listens on for the redirect URI.
pub fn redirect_host_port(redirect_uri: &str) -> (r: (String, u16))
    ensures
        r.0@ == redirect_host_port_spec(redirect_uri@).0,
        r.1 == redirect_host_port_spec(redirect_uri@).1,
{
    let cs = str_chars(redirect_uri);
    let prefix = str_chars("http://");
    proof {
        reveal_strlit("http://");
    }
    let rest: &[char] = if chars_occur_at(cs.as_slice(), prefix.as_slice(), 0) {
        slice_subrange(cs.as_slice(), 7, cs.len())
    } else {
        cs.as_slice()
    };
    assert(occurs_at(cs@, "http://"@, 0) ==> rest@ == cs@.skip(7));
    let hp: &[char] = match first_index(rest, '/', 0) {
        Some(k) => slice_subrange(rest, 0, k),
        None => rest,
    };
    match last_index(hp, ':', hp.len()) {
        Some(k) => {
            let host = string_from_chars(slice_subrange(hp, 0, k));
            let port = match parse_u16(slice_subrange(hp, k + 1, hp.len())) {
                Some(p) => p,
                None => 80,
            };
            (host, port)
        },
        None => (string_from_chars(hp), 80),
    }
}


/// Parts joined with '&'.
pub open spec fn join_amp(parts: Seq<Seq<char>>) -> Seq<char>
    decreases parts.len(),
{
    if parts.len() == 0 {
        Seq::empty()
    } else if parts.len() == 1 {
        parts[0]
    } else {
        join_amp(parts.drop_last()) + seq!['&'] + parts.last()
    }
}

/// One `key=value` pair of a form body, both percent-encoded.
pub open spec fn form_pair(k: Seq<u8>, v: Seq<u8>) -> Seq<char> {
    url_encoded(k) + seq!['='] + url_encoded(v)
}

/// The pairs of a form body: the parameters, then the client secret when
/// there is one.
pub open spec fn form_parts(params: Seq<(&str, &str)>, client_secret: Option<&str>) -> Seq<Seq<char>> {
    let ps = params.map_values(|p: (&str, &str)| form_pair(p.0.spec_bytes(), p.1.spec_bytes()));
    match client_secret {
        Some(sec) => ps.push(form_pair("client_secret"@.map_values(|c: char| c as u8), sec.spec_bytes())),
        None => ps,
    }
}

fn push_str_to(s: &mut String, t: &str)
    ensures
        final(s)@ == old(s)@ + t@,
{
    s.append(t);
}

fn form_pair_exec(k: &str, v: &str) -> (r: String)
    ensures
        r@ == form_pair(k.spec_bytes(), v.spec_bytes()),
{
    let mut r = urlencode(k);
    push_str_to(&mut r, "=");
    let ev = urlencode(v);
    push_str_to(&mut r, ev.as_str());
    proof {
        reveal_strlit("=");
    }
    r
}

/// A URL-encoded form body from the parameters, with the client secret
/// appended when the app has one.
#[verifier::rlimit(30)]
pub fn form_body(params: &[(&str, &str)], client_secret: Option<&str>) -> (r: String)
    ensures
        r@ == join_amp(form_parts(params@, client_secret)),
{
    let ghost parts = form_parts(params@, client_secret);
    let mut r = String::new();
    let mut i: usize = 0;
    while i < params.len()
        invariant
            i <= params@.len(),
            parts == form_parts(params@, client_secret),
            r@ == join_amp(parts.subrange(0, i as int)),
        decreases params@.len() - i,
    {
        let (k, v) = params[i];
        let pair = form_pair_exec(k, v);
        if i > 0 {
            push_str_to(&mut r, "&");
        }
        push_str_to(&mut r, pair.as_str());
        proof {
            reveal_strlit("&");
            assert(parts[i as int] == pair@);
            assert(parts.subrange(0, i + 1).drop_last() == parts.subrange(0, i as int));
            if i == 0 {
                assert(r@ == pair@);
            }
        }
        i = i + 1;
    }
    if let Some(sec) = client_secret {
        let key = "client_secret";
        let pair = form_pair_exec(key, sec);
        if params.len() > 0 {
            push_str_to(&mut r, "&");
        }
        push_str_to(&mut r, pair.as_str());
        proof {
            reveal_strlit("&");
            reveal_strlit("client_secret");
            let kc = "client_secret"@;
            assert(is_ascii_chars(kc));
            is_ascii_chars_encode_utf8(kc);
            assert(encode_utf8(kc) == kc.map_values(|c: char| c as u8));
            let n = params@.len() as int;
            assert(parts.subrange(0, n + 1).drop_last() == parts.subrange(0, n));
            assert(parts.subrange(0, n + 1) == parts);
        }
    } else {
        assert(parts.subrange(0, params@.len() as int) == parts);
    }
    r
}


pub open spec fn auth_flow_mode_spec(has_client_secret: bool) -> Seq<char> {
    if has_client_secret {
        "code"@
    } else {
        "device"@
    }
}

/// "code" when the private app (with its client secret) is built, "device" otherwise.
pub fn auth_flow_mode(client_secret: Option<&str>) -> (r: String)
    ensures
        r@ == auth_flow_mode_spec(client_secret is Some),
{
    if client_secret.is_some() {
        String::from_str("code")
    } else {
        String::from_str("device")
    }
}

/// The SVG text of the QR code (error correction level M, at least 200x200,
/// with quiet zone) for `data`, `None` where the data does not fit.
pub uninterp spec fn qr_svg(data: Seq<u8>) -> Option<Seq<char>>;

#[verifier::external_type_specification]
#[verifier::external_body]
pub struct ExQrError(qrcode::types::QrError);

/// `QrCode::with_error_correction_level(data, EcLevel::M)` rendered as SVG
/// with minimum dimensions 200x200 and a quiet zone; named by `qr_svg`.
#[verifier::external_body]
fn render_qr_svg(data: &[u8]) -> (r: Result<String, qrcode::types::QrError>)
    ensures
        r is Ok <==> qr_svg(data@) is Some,
        r matches Ok(s) ==> qr_svg(data@) == Some(s@),
{
    let code = QrCode::with_error_correction_level(data, qrcode::EcLevel::M)?;
    Ok(code.render::<svg::Color>().min_dimensions(200, 200).quiet_zone(true).build())
}

pub open spec fn svg_data_url_prefix() -> Seq<char> {
    "data:image/svg+xml;base64,"@
}

pub open spec fn nothing_to_encode_msg() -> Seq<char> {
    "Nothing to encode"@
}

/// A QR code for `content` as an SVG data URL for an `<img>`.
pub fn auth_qr(content: &str) -> (r: Result<String, String>)
    ensures
        content@.len() == 0 ==> (r matches Err(e) && e@ == nothing_to_encode_msg()),
        content@.len() > 0 ==> (r is Ok <==> qr_svg(content.spec_bytes()) is Some),
        r matches Ok(u) ==> qr_svg(content.spec_bytes()) matches Some(svg)
            && u@ == svg_data_url_prefix() + base64_encoded(encode_utf8(svg)),
{
    if content.is_empty() {
        return Err(String::from_str("Nothing to encode"));
    }
    let svg_str = match render_qr_svg(content.as_bytes()) {
        Ok(s) => s,
        Err(e) => return Err(e.to_string()),
    };
    let b64 = base64_encode(svg_str.as_str().as_bytes());
    Ok(with_str("data:image/svg+xml;base64,", b64.as_str()))
}

/// The fields of a Microsoft token endpoint response that the sign-in reads.
pub struct TokenResponse {
    /// Whether the response has an "error" field at all.
    pub has_error: bool,
    /// The "error" field where it is a string.
    pub error: Option<String>,
    pub error_description: Option<String>,
    pub access_token: Option<String>,
    pub refresh_token: Option<String>,
}

pub struct PollResult {
    pub status: String,
    pub bearer_token: Option<String>,
    pub refresh_token: Option<String>,
    pub message: Option<String>,
}

impl PollResult {
    fn with_status(status: &str, message: Option<String>) -> (r: PollResult)
        ensures
            r.status@ == status@,
            r.message == message,
            r.bearer_token is None,
            r.refresh_token is None,
    {
        PollResult { status: String::from_str(status), bearer_token: None, refresh_token: None, message }
    }
}

/// What one poll of a sign-in flow leads to.
pub enum PollStep {
    /// Finished (pending, slow down, or an error).
    Done(PollResult),
    /// The Microsoft token arrived: exchange this access token for a Minecraft one.
    Exchange(String),
}

/// The error field's description if it has one, else the given fallback.
pub open spec fn described(desc: Option<String>, fallback: Seq<char>) -> Seq<char> {
    match desc {
        Some(d) => d@,
        None => fallback,
    }
}

pub open spec fn access_or_empty(resp: TokenResponse) -> Seq<char> {
    match resp.access_token {
        Some(a) => a@,
        None => Seq::empty(),
    }
}

fn string_or(o: &Option<String>, fallback: &str) -> (r: String)
    ensures
        r@ == match o {
            Some(s) => s@,
            None => fallback@,
        },
{
    match o {
        Some(s) => s.clone(),
        None => String::from_str(fallback),
    }
}

/// The device flow's poll: "authorization_pending" and "slow_down" keep
/// polling, any other error ends it, and a token goes on to the exchange.
pub fn device_poll_step(resp: &TokenResponse) -> (r: PollStep)
    ensures
        match resp.error {
            Some(err) => r matches PollStep::Done(p) && (if err@ == "authorization_pending"@ {
                p.status@ == "pending"@ && p.message is None
            } else if err@ == "slow_down"@ {
                p.status@ == "slow_down"@ && p.message is None
            } else {
                p.status@ == "error"@ && (p.message matches Some(m) && m@ == described(resp.error_description, err@))
            }) && p.bearer_token is None && p.refresh_token is None,
            None => r matches PollStep::Exchange(a) && a@ == access_or_empty(*resp),
        },
{
    match &resp.error {
        Some(err) => {
            proof {
                reveal_strlit("authorization_pending");
                reveal_strlit("slow_down");
            }
            let pending = String::from_str("authorization_pending");
            let slow = String::from_str("slow_down");
            if *err == pending {
                PollStep::Done(PollResult::with_status("pending", None))
            } else if *err == slow {
                PollStep::Done(PollResult::with_status("slow_down", None))
            } else {
                PollStep::Done(PollResult::with_status("error", Some(string_or(&resp.error_description, err.as_str()))))
            }
        },
        None => {
            proof {
                reveal_strlit("");
            }
            PollStep::Exchange(string_or(&resp.access_token, ""))
        },
    }
}

/// The code flow's token response: any error ends the flow, a token goes on
/// to the exchange.
pub fn code_poll_step(resp: &TokenResponse) -> (r: PollStep)
    ensures
        match resp.error {
            Some(err) => r matches PollStep::Done(p) && p.status@ == "error"@
                && (p.message matches Some(m) && m@ == described(resp.error_description, err@))
                && p.bearer_token is None && p.refresh_token is None,
            None => r matches PollStep::Exchange(a) && a@ == access_or_empty(*resp),
        },
{
    match &resp.error {
        Some(err) => PollStep::Done(PollResult::with_status("error", Some(string_or(&resp.error_description, err.as_str())))),
        None => {
            proof {
                reveal_strlit("");
            }
            PollStep::Exchange(string_or(&resp.access_token, ""))
        },
    }
}

/// The poll result once the exchange for a Minecraft token is done.
pub fn poll_result_after_exchange(exchange: Result<String, String>, refresh_token: Option<String>) -> (r: PollResult)
    ensures
        match exchange {
            Ok(bearer) => r.status@ == "success"@ && r.bearer_token == Some(bearer)
                && r.refresh_token == refresh_token && r.message is None,
            Err(e) => r.status@ == "error"@ && r.message == Some(e) && r.bearer_token is None
                && r.refresh_token is None,
        },
{
    match exchange {
        Ok(bearer) => PollResult {
            status: String::from_str("success"),
            bearer_token: Some(bearer),
            refresh_token,
            message: None,
        },
        Err(e) => PollResult::with_status("error", Some(e)),
    }
}

/// A poll that failed before any response: an error with its message.
pub fn poll_error(message: String) -> (r: PollResult)
    ensures
        r.status@ == "error"@ && r.message == Some(message) && r.bearer_token is None && r.refresh_token is None,
{
    PollResult::with_status("error", Some(message))
}

pub struct RefreshResult {
    pub success: bool,
    pub bearer_token: Option<String>,
    pub refresh_token: Option<String>,
    pub error: Option<String>,
}

/// What a refresh leads to.
pub enum RefreshStep {
    Done(RefreshResult),
    Exchange(String),
}

pub fn refresh_failure(error: String) -> (r: RefreshResult)
    ensures
        !r.success && r.error == Some(error) && r.bearer_token is None && r.refresh_token is None,
{
    RefreshResult { success: false, bearer_token: None, refresh_token: None, error: Some(error) }
}

/// A refresh response with an error field fails (with its description, or
/// "refresh failed"); otherwise the token goes on to the exchange.
pub fn refresh_step(resp: &TokenResponse) -> (r: RefreshStep)
    ensures
        resp.has_error ==> (r matches RefreshStep::Done(d) && !d.success
            && (d.error matches Some(e) && e@ == described(resp.error_description, "refresh failed"@))
            && d.bearer_token is None && d.refresh_token is None),
        !resp.has_error ==> (r matches RefreshStep::Exchange(a) && a@ == access_or_empty(*resp)),
{
    if resp.has_error {
        RefreshStep::Done(refresh_failure(string_or(&resp.error_description, "refresh failed")))
    } else {
        proof {
            reveal_strlit("");
        }
        RefreshStep::Exchange(string_or(&resp.access_token, ""))
    }
}

/// The refresh result once the exchange is done: the new refresh token where
/// the response carries one, else the one that was used.
pub fn refresh_result_after_exchange(exchange: Result<String, String>, new_refresh: Option<String>, used_refresh: &str) -> (r: RefreshResult)
    ensures
        match exchange {
            Ok(bearer) => r.success && r.bearer_token == Some(bearer) && r.error is None
                && (r.refresh_token matches Some(t) && t@ == match new_refresh {
                    Some(n) => n@,
                    None => used_refresh@,
                }),
            Err(e) => !r.success && r.error == Some(e) && r.bearer_token is None && r.refresh_token is None,
        },
{
    match exchange {
        Ok(bearer) => RefreshResult {
            success: true,
            bearer_token: Some(bearer),
            refresh_token: Some(string_or(&new_refresh, used_refresh)),
            error: None,
        },
        Err(e) => refresh_failure(e),
    }
}

/// The fields of an Xbox Live (or XSTS) authentication response that the
/// exchange reads.
pub struct XboxResponse {
    pub has_error: bool,
    /// The "Token" field: `None` where absent, `Some(None)` where not a string.
    pub token: Option<Option<String>>,
    pub error_description: Option<String>,
    /// `DisplayClaims.xui[0].uhs` where it is a string.
    pub uhs: Option<String>,
}

/// The token of an Xbox response: an error (with its description, else
/// `failure`) where the response has an error or no token, else the token
/// ("" where it is not a string).
pub fn xbox_token(resp: &XboxResponse, failure: &str) -> (r: Result<String, String>)
    ensures
        (resp.has_error || resp.token is None) ==> (r matches Err(e) && e@ == described(resp.error_description, failure@)),
        !(resp.has_error || resp.token is None) ==> (r matches Ok(t) && t@ == match resp.token {
            Some(Some(s)) => s@,
            _ => Seq::<char>::empty(),
        }),
{
    if resp.has_error || resp.token.is_none() {
        return Err(string_or(&resp.error_description, failure));
    }
    match &resp.token {
        Some(Some(t)) => Ok(t.clone()),
        _ => Ok(String::new()),
    }
}

/// The RPS ticket for the Xbox Live request: "d=" and the Microsoft token.
pub fn rps_ticket(ms_token: &str) -> (r: String)
    ensures
        r@ == "d="@ + ms_token@,
{
    with_str("d=", ms_token)
}

/// The identity token for Minecraft services: "XBL3.0 x={uhs};{xsts token}".
pub fn identity_token(uhs: &str, xsts_token: &str) -> (r: String)
    ensures
        r@ == "XBL3.0 x="@ + uhs@ + ";"@ + xsts_token@,
{
    let mut r = with_str("XBL3.0 x=", uhs);
    push_str_to(&mut r, ";");
    push_str_to(&mut r, xsts_token);
    r
}

/// The Minecraft access token of the final response, or the failure.
pub fn minecraft_access(access_token: Option<String>) -> (r: Result<String, String>)
    ensures
        access_token matches Some(t) ==> r == Ok::<String, String>(t),
        access_token is None ==> (r matches Err(e) && e@ == "Minecraft auth failed: no access_token"@),
{
    match access_token {
        Some(t) => Ok(t),
        None => Err(String::from_str("Minecraft auth failed: no access_token")),
    }
}


pub struct AuthStartResult {
    pub flow: String,
    pub verification_uri: String,
    pub user_code: String,
    pub device_code: String,
    pub interval: i64,
}

pub open spec fn authorize_url_spec(authority: Seq<char>, client_id: Seq<u8>, redirect_uri: Seq<u8>) -> Seq<char> {
    "https://login.microsoftonline.com/"@ + authority + "/oauth2/v2.0/authorize?client_id="@ + url_encoded(client_id)
        + "&response_type=code&redirect_uri="@ + url_encoded(redirect_uri) + "&scope="@
        + url_encoded("XboxLive.signin offline_access"@.map_values(|c: char| c as u8)) + "&prompt=select_account"@
}

/// The code flow's start: the authorize URL to open in the browser, polled every 2 s.
pub fn code_flow_start(authority: &str, client_id: &str, redirect_uri: &str) -> (r: AuthStartResult)
    ensures
        r.flow@ == "code"@,
        r.verification_uri@ == authorize_url_spec(authority@, client_id.spec_bytes(), redirect_uri.spec_bytes()),
        r.user_code@.len() == 0,
        r.device_code@.len() == 0,
        r.interval == 2,
{
    let mut url = with_str("https://login.microsoftonline.com/", authority);
    push_str_to(&mut url, "/oauth2/v2.0/authorize?client_id=");
    push_str_to(&mut url, urlencode(client_id).as_str());
    push_str_to(&mut url, "&response_type=code&redirect_uri=");
    push_str_to(&mut url, urlencode(redirect_uri).as_str());
    push_str_to(&mut url, "&scope=");
    let scope = "XboxLive.signin offline_access";
    proof {
        reveal_strlit("XboxLive.signin offline_access");
        reveal_strlit("");
        let sc = "XboxLive.signin offline_access"@;
        assert(is_ascii_chars(sc));
        is_ascii_chars_encode_utf8(sc);
        assert(encode_utf8(sc) == sc.map_values(|c: char| c as u8));
    }
    push_str_to(&mut url, urlencode(scope).as_str());
    push_str_to(&mut url, "&prompt=select_account");
    AuthStartResult {
        flow: String::from_str("code"),
        verification_uri: url,
        user_code: String::new(),
        device_code: String::new(),
        interval: 2,
    }
}

/// The fields of the device-code response that the start reads.
pub struct DeviceCodeResponse {
    pub has_error: bool,
    pub error_description: Option<String>,
    pub verification_uri: Option<String>,
    pub user_code: Option<String>,
    pub device_code: Option<String>,
    pub interval: Option<i64>,
}

pub open spec fn or_empty(o: Option<String>) -> Seq<char> {
    match o {
        Some(s) => s@,
        None => Seq::empty(),
    }
}

/// The device flow's start: an error (its description, else "device code
/// error"), or the code to show with the missing fields empty and the
/// interval 5 s by default.
pub fn device_flow_start(resp: DeviceCodeResponse) -> (r: Result<AuthStartResult, String>)
    ensures
        resp.has_error ==> (r matches Err(e) && e@ == described(resp.error_description, "device code error"@)),
        !resp.has_error ==> (r matches Ok(a) && a.flow@ == "device"@
            && a.verification_uri@ == or_empty(resp.verification_uri)
            && a.user_code@ == or_empty(resp.user_code) && a.device_code@ == or_empty(resp.device_code)
            && a.interval == match resp.interval {
                Some(i) => i,
                None => 5,
            }),
{
    if resp.has_error {
        return Err(string_or(&resp.error_description, "device code error"));
    }
    proof {
        reveal_strlit("");
    }
    Ok(AuthStartResult {
        flow: String::from_str("device"),
        verification_uri: string_or(&resp.verification_uri, ""),
        user_code: string_or(&resp.user_code, ""),
        device_code: string_or(&resp.device_code, ""),
        interval: match resp.interval {
            Some(i) => i,
            None => 5,
        },
    })
}

/// "HTTP " and the status code.
pub fn http_status_error(status: u16) -> (r: String)
    ensures
        r@ == "HTTP "@ + decimal_int(status as int),
{
    with_decimal("HTTP ", status as i64)
}

pub struct ProfileResult {
    pub id: String,
    pub name: String,
}

/// The text of an optional string, empty where there is none.
pub open spec fn text_or_empty(o: Option<Seq<char>>) -> Seq<char> {
    match o {
        Some(s) => s,
        None => Seq::empty(),
    }
}

/// The profile of a Minecraft profile answer: its "id" and "name", empty
/// where they are not strings.
pub fn profile_from_json(j: &Json) -> (r: ProfileResult)
    ensures
        r.id@ == text_or_empty(field_str(*j, "id"@)),
        r.name@ == text_or_empty(field_str(*j, "name"@)),
{
    let id = match get_str(j, "id") {
        Some(s) => s,
        None => String::new(),
    };
    let name = match get_str(j, "name") {
        Some(s) => s,
        None => String::new(),
    };
    ProfileResult { id, name }
}

pub struct SkinTextureResult {
    pub success: bool,
    pub data: Option<String>,
    pub error: Option<String>,
}

/// The skin URL in a session profile answer: "No texture data" without a
/// textures property, else what `skin_url_from_texture` reads from it.
pub fn skin_url_of_profile(j: &Json) -> (r: Result<String, String>)
    ensures
        textures_value_spec(*j) is None ==> (r matches Err(e) && e@ == "No texture data"@),
        textures_value_spec(*j) matches Some(v) ==> match texture_skin_url(encode_utf8(v)) {
            Ok(u) => r matches Ok(x) && x@ == u,
            Err(e) => r matches Err(x) && x@ == e,
        },
{
    match textures_value(j) {
        Some(v) => skin_url_from_texture(v.as_str()),
        None => Err(String::from_str("No texture data")),
    }
}

/// A failed texture lookup with its message.
pub fn texture_failure(error: String) -> (r: SkinTextureResult)
    ensures
        !r.success && r.data is None && r.error == Some(error),
{
    SkinTextureResult { success: false, data: None, error: Some(error) }
}

/// The answer for a texture download: the bytes as base64, or the error.
pub fn skin_texture_result(download: Result<Vec<u8>, String>) -> (r: SkinTextureResult)
    ensures
        download matches Ok(b) ==> r.success && r.error is None
            && (r.data matches Some(d) && d@ == base64_encoded(b@)),
        download matches Err(e) ==> !r.success && r.data is None && r.error == Some(e),
{
    match download {
        Ok(bytes) => SkinTextureResult { success: true, data: Some(base64_encode(bytes.as_slice())), error: None },
        Err(e) => texture_failure(e),
    }
}

/// The Minecraft access token of a login answer, or why there is none.
pub fn minecraft_access_of(j: &Json) -> (r: Result<String, String>)
    ensures
        field_str(*j, "access_token"@) matches Some(t) ==> (r matches Ok(x) && x@ == t),
        field_str(*j, "access_token"@) is None ==> (r matches Err(e) && e@ == "Minecraft auth failed: no access_token"@),
{
    minecraft_access(get_str(j, "access_token"))
}

pub struct AvatarResult {
    pub success: bool,
    pub data_url: Option<String>,
}

pub struct HeadResult {
    pub success: bool,
    pub data: Option<String>,
    pub error: Option<String>,
}

/// `json["textures"]["SKIN"]["url"].as_str().unwrap_or("")` of the JSON
/// bytes, `None` where they are not JSON.
pub open spec fn json_skin_url(bytes: Seq<u8>) -> Option<Seq<char>> {
    match json_of_bytes(bytes) {
        Some(j) => Some(match str_spec(index_spec(index_spec(index_spec(j, "textures"@), "SKIN"@), "url"@)) {
            Some(u) => u,
            None => Seq::empty(),
        }),
        None => None,
    }
}

fn skin_url_in_json(bytes: &[u8]) -> (r: Option<String>)
    ensures
        r matches Some(u) ==> json_skin_url(bytes@) == Some(u@),
        r is None ==> json_skin_url(bytes@) is None,
{
    let v = parse_json_bytes(bytes)?;
    proof {
        reveal_strlit("");
    }
    let url: Option<&str> = match v.get("textures") {
        Some(t) => match t.get("SKIN") {
            Some(sk) => match sk.get("url") {
                Some(u) => u.as_str(),
                None => None,
            },
            None => None,
        },
        None => None,
    };
    match url {
        Some(s) => Some(String::from_str(s)),
        None => Some(String::new()),
    }
}

/// The skin URL that a profile's "textures" property (base64 JSON) names.
pub open spec fn texture_skin_url(value: Seq<u8>) -> Result<Seq<char>, Seq<char>> {
    match base64_decoded(value) {
        None => Err("Bad texture data"@),
        Some(json) => match json_skin_url(json) {
            None => Err("Bad texture data"@),
            Some(u) => if u.len() == 0 {
                Err("No skin url"@)
            } else {
                Ok(u)
            },
        },
    }
}

/// Reads the skin URL out of the "textures" property value.
pub fn skin_url_from_texture(value: &str) -> (r: Result<String, String>)
    ensures
        match texture_skin_url(value.spec_bytes()) {
            Ok(u) => r matches Ok(x) && x@ == u,
            Err(e) => r matches Err(x) && x@ == e,
        },
{
    let json = match base64_decode(value.as_bytes()) {
        Ok(b) => b,
        Err(_) => return Err(String::from_str("Bad texture data")),
    };
    let url = match skin_url_in_json(json.as_slice()) {
        Some(u) => u,
        None => return Err(String::from_str("Bad texture data")),
    };
    if url.as_str().is_empty() {
        return Err(String::from_str("No skin url"));
    }
    Ok(url)
}

pub open spec fn png_data_url_prefix() -> Seq<char> {
    "data:image/png;base64,"@
}

/// The PNG bytes as a data URL.
pub fn png_data_url(bytes: &[u8]) -> (r: String)
    ensures
        r@ == png_data_url_prefix() + base64_encoded(bytes@),
{
    let b64 = base64_encode(bytes);
    with_str("data:image/png;base64,", b64.as_str())
}

/// The avatar sources for a player id, in the order they are tried.
pub fn avatar_urls(id: &str) -> (r: (String, String))
    ensures
        r.0@ == "https://api.mcskin.me/head/"@ + url_encoded(id.spec_bytes()) + "?size=128"@,
        r.1@ == "https://mc-heads.net/avatar/"@ + url_encoded(id.spec_bytes()) + "/128"@,
{
    let e = urlencode(id);
    let mut a = with_str("https://api.mcskin.me/head/", e.as_str());
    push_str_to(&mut a, "?size=128");
    let mut b = with_str("https://mc-heads.net/avatar/", e.as_str());
    push_str_to(&mut b, "/128");
    (a, b)
}

/// An avatar download counts when it is more than 100 bytes; it is then
/// returned as a PNG data URL.
pub fn avatar_from_download(bytes: &[u8]) -> (r: Option<AvatarResult>)
    ensures
        bytes@.len() > 100 <==> r is Some,
        r matches Some(a) ==> a.success && (a.data_url matches Some(u) && u@ == png_data_url_prefix() + base64_encoded(bytes@)),
{
    if bytes.len() > 100 {
        Some(AvatarResult { success: true, data_url: Some(png_data_url(bytes)) })
    } else {
        None
    }
}


pub open spec fn opt_view(o: Option<String>) -> Option<Seq<char>> {
    match o {
        Some(s) => Some(s@),
        None => None,
    }
}

impl TokenResponse {
    /// The fields of a token endpoint answer.
    pub fn from_json(j: &Json) -> (r: TokenResponse)
        ensures
            r.has_error == get_spec(*j, "error"@) is Some,
            opt_view(r.error) == field_str(*j, "error"@),
            opt_view(r.error_description) == field_str(*j, "error_description"@),
            opt_view(r.access_token) == field_str(*j, "access_token"@),
            opt_view(r.refresh_token) == field_str(*j, "refresh_token"@),
    {
        TokenResponse {
            has_error: has_field(j, "error"),
            error: get_str(j, "error"),
            error_description: get_str(j, "error_description"),
            access_token: get_str(j, "access_token"),
            refresh_token: get_str(j, "refresh_token"),
        }
    }
}

impl DeviceCodeResponse {
    /// The fields of the device-code answer.
    pub fn from_json(j: &Json) -> (r: DeviceCodeResponse)
        ensures
            r.has_error == get_spec(*j, "error"@) is Some,
            opt_view(r.error_description) == field_str(*j, "error_description"@),
            opt_view(r.verification_uri) == field_str(*j, "verification_uri"@),
            opt_view(r.user_code) == field_str(*j, "user_code"@),
            opt_view(r.device_code) == field_str(*j, "device_code"@),
            r.interval == match get_spec(*j, "interval"@) {
                Some(Json::Number(n, _)) => n,
                _ => None,
            },
    {
        DeviceCodeResponse {
            has_error: has_field(j, "error"),
            error_description: get_str(j, "error_description"),
            verification_uri: get_str(j, "verification_uri"),
            user_code: get_str(j, "user_code"),
            device_code: get_str(j, "device_code"),
            interval: match j.get("interval") {
                Some(n) => n.as_i64(),
                None => None,
            },
        }
    }
}

/// `json["DisplayClaims"]["xui"][0]["uhs"]` as a string.
pub open spec fn xui_uhs(j: Json) -> Option<Seq<char>> {
    str_spec(index_spec(at_spec(index_spec(index_spec(j, "DisplayClaims"@), "xui"@), 0), "uhs"@))
}

impl XboxResponse {
    /// The fields of an Xbox Live or XSTS answer.
    pub fn from_json(j: &Json) -> (r: XboxResponse)
        ensures
            r.has_error == get_spec(*j, "error"@) is Some,
            r.token == match get_spec(*j, "Token"@) {
                Some(t) => Some(match str_spec(t) {
                    Some(_) => r.token->0,
                    None => None,
                }),
                None => None,
            },
            match get_spec(*j, "Token"@) {
                Some(t) => opt_view(r.token->0) == str_spec(t),
                None => true,
            },
            opt_view(r.error_description) == field_str(*j, "error_description"@),
            opt_view(r.uhs) == xui_uhs(*j),
    {
        let token = match j.get("Token") {
            Some(t) => Some(match t.as_str() {
                Some(x) => Some(String::from_str(x)),
                None => None,
            }),
            None => None,
        };
        let uhs: Option<String> = match j.get("DisplayClaims") {
            Some(dc) => match dc.get("xui") {
                Some(xui) => match xui.as_array() {
                    Some(a) => if a.len() > 0 {
                        match a[0].get("uhs") {
                            Some(u) => match u.as_str() {
                                Some(x) => Some(String::from_str(x)),
                                None => None,
                            },
                            None => None,
                        }
                    } else {
                        None
                    },
                    None => None,
                },
                None => None,
            },
            None => None,
        };
        XboxResponse {
            has_error: has_field(j, "error"),
            token,
            error_description: get_str(j, "error_description"),
            uhs,
        }
    }
}

/// The "value" of the first entry of `json["properties"]` named "textures"
/// ("" where it has none); `None` where no entry has that name.
pub open spec fn textures_value_spec(j: Json) -> Option<Seq<char>> {
    match index_spec(j, "properties"@) {
        Json::Array(a) => match first_named_from(a@, "textures"@, 0) {
            Some(p) => Some(match str_spec(index_spec(p, "value"@)) {
                Some(v) => v,
                None => Seq::empty(),
            }),
            None => None,
        },
        _ => None,
    }
}

pub open spec fn first_named_from(a: Seq<Json>, name: Seq<char>, i: int) -> Option<Json>
    decreases a.len() - i,
{
    if i < 0 || i >= a.len() {
        None
    } else if str_spec(index_spec(a[i], "name"@)) == Some(name) {
        Some(a[i])
    } else {
        first_named_from(a, name, i + 1)
    }
}

fn named_textures(a: &Vec<Json>, i: usize) -> (r: Option<&Json>)
    requires
        i <= a@.len(),
    ensures
        match first_named_from(a@, "textures"@, i as int) {
            Some(x) => r == Some(&x),
            None => r is None,
        },
    decreases a@.len() - i,
{
    if i >= a.len() {
        return None;
    }
    proof {
        reveal_strlit("textures");
    }
    let hit = match a[i].get("name") {
        Some(n) => match n.as_str() {
            Some(x) => str_eq(x, "textures"),
            None => false,
        },
        None => false,
    };
    if hit {
        Some(&a[i])
    } else {
        named_textures(a, i + 1)
    }
}

/// The texture property of a session profile answer.
pub fn textures_value(j: &Json) -> (r: Option<String>)
    ensures
        opt_view(r) == textures_value_spec(*j),
{
    proof {
        reveal_strlit("");
    }
    let props = match j.get("properties") {
        Some(p) => p,
        None => return None,
    };
    let arr = match props.as_array() {
        Some(a) => a,
        None => return None,
    };
    let tp = match named_textures(arr, 0) {
        Some(t) => t,
        None => return None,
    };
    match tp.get("value") {
        Some(v) => match v.as_str() {
            Some(x) => Some(String::from_str(x)),
            None => Some(String::new()),
        },
        None => Some(String::new()),
    }
}

/// `char::is_whitespace`: whether `c` has the Unicode White_Space property,
/// as `unicode_whitespace` lists it.
#[verifier::external_body]
fn is_whitespace(c: char) -> (b: bool)
    ensures
        b == unicode_whitespace(c),
{
    c.is_whitespace()
}

/// The first line of `s` as `str::lines` gives it: up to the first '\n',
/// a '\r' before it dropped; all of `s` where there is no '\n'.
pub open spec fn first_line(s: Seq<char>) -> Seq<char> {
    match first_index_from(s, '\n', 0) {
        Some(k) => {
            let l = s.take(k);
            if l.len() > 0 && l.last() == '\r' {
                l.drop_last()
            } else {
                l
            }
        },
        None => s,
    }
}

/// The words of `s` finished so far and the one being read, reading left to
/// right and cutting at white space.
pub open spec fn words_scan(s: Seq<char>) -> (Seq<Seq<char>>, Seq<char>)
    decreases s.len(),
{
    if s.len() == 0 {
        (Seq::empty(), Seq::empty())
    } else {
        let (ws, cur) = words_scan(s.drop_last());
        if unicode_whitespace(s.last()) {
            if cur.len() > 0 {
                (ws.push(cur), Seq::empty())
            } else {
                (ws, Seq::empty())
            }
        } else {
            (ws, cur.push(s.last()))
        }
    }
}

/// `str::split_whitespace`: the non-empty runs between white space.
pub open spec fn words(s: Seq<char>) -> Seq<Seq<char>> {
    let (ws, cur) = words_scan(s);
    if cur.len() > 0 {
        ws.push(cur)
    } else {
        ws
    }
}

fn split_words(cs: &[char]) -> (r: Vec<Vec<char>>)
    ensures
        r@.len() == words(cs@).len(),
        forall|j: int| 0 <= j < r@.len() ==> #[trigger] r@[j]@ == words(cs@)[j],
{
    let mut ws: Vec<Vec<char>> = Vec::new();
    let mut cur: Vec<char> = Vec::new();
    let mut i: usize = 0;
    while i < cs.len()
        invariant
            i <= cs@.len(),
            ws@.len() == words_scan(cs@.take(i as int)).0.len(),
            forall|j: int| 0 <= j < ws@.len() ==> #[trigger] ws@[j]@ == words_scan(cs@.take(i as int)).0[j],
            cur@ == words_scan(cs@.take(i as int)).1,
        decreases cs@.len() - i,
    {
        let c = cs[i];
        assert(cs@.take(i + 1).drop_last() == cs@.take(i as int));
        assert(cs@.take(i + 1).last() == c);
        if is_whitespace(c) {
            if cur.len() > 0 {
                let done = cur;
                ws.push(done);
            }
            cur = Vec::new();
        } else {
            cur.push(c);
        }
        i = i + 1;
    }
    assert(cs@.take(cs@.len() as int) == cs@);
    if cur.len() > 0 {
        ws.push(cur);
    }
    ws
}

/// The request target of an HTTP request: the second word of its first
/// line, "/" where there is none.
pub open spec fn request_target(request: Seq<char>) -> Seq<char> {
    let w = words(first_line(request));
    if w.len() > 1 {
        w[1]
    } else {
        "/"@
    }
}

/// The path that the browser's request to the local callback server asks
/// for, from the bytes read (invalid UTF-8 replaced).
pub fn callback_request_path(raw: &[u8]) -> (r: String)
    ensures
        r@ == request_target(utf8_lossy(raw@)),
{
    let text = lossy_string(raw);
    let cs = str_chars(text.as_str());
    let line: Vec<char> = match first_index(cs.as_slice(), '\n', 0) {
        Some(k) => {
            let l = slice_subrange(cs.as_slice(), 0, k);
            if k > 0 && l[k - 1] == '\r' {
                assert(cs@.take(k as int).drop_last() == l@.subrange(0, k - 1));
                vstd::slice::slice_to_vec(slice_subrange(l, 0, k - 1))
            } else {
                vstd::slice::slice_to_vec(l)
            }
        },
        None => cs,
    };
    let w = split_words(line.as_slice());
    if w.len() > 1 {
        string_from_chars(w[1].as_slice())
    } else {
        String::from_str("/")
    }
}

/// What the callback server learned from a request: the authorization
/// code, the error the identity provider sent, no code at all, or a request
/// without a query.
pub enum CallbackOutcome {
    Code(String),
    Error(String),
    MissingCode,
    BadRequest,
}

/// The name of a query parameter `kv`: up to its first '='.
pub open spec fn pair_key(kv: Seq<char>) -> Seq<char> {
    match first_index_from(kv, '=', 0) {
        Some(k) => kv.take(k),
        None => kv,
    }
}

/// The value of a query parameter `kv`: after its first '=', empty without one.
pub open spec fn pair_value(kv: Seq<char>) -> Seq<char> {
    match first_index_from(kv, '=', 0) {
        Some(k) => kv.skip(k + 1),
        None => Seq::empty(),
    }
}

/// A query component as `urldecode` reads it.
pub open spec fn decoded(x: Seq<char>) -> Seq<char> {
    utf8_lossy(urldecode_bytes(encode_utf8(x)))
}

/// The value of parameter `name` among the `&`-separated pairs: the last one
/// so named wins, as when the pairs are collected into a map.
pub open spec fn param(pairs: Seq<Seq<char>>, name: Seq<char>) -> Option<Seq<char>>
    decreases pairs.len(),
{
    if pairs.len() == 0 {
        None
    } else if decoded(pair_key(pairs.last())) == name {
        Some(decoded(pair_value(pairs.last())))
    } else {
        param(pairs.drop_last(), name)
    }
}

/// The `&`-separated pairs of the query of `path`, after its first '?'.
pub open spec fn query_pairs(path: Seq<char>) -> Seq<Seq<char>> {
    match first_index_from(path, '?', 0) {
        Some(q) => split_on(path.skip(q + 1), '&'),
        None => Seq::empty(),
    }
}

/// Every name and value of the query can be decoded (`urldecode` would cut
/// no character apart).
pub open spec fn query_decodable(path: Seq<char>) -> bool {
    forall|i: int| 0 <= i < query_pairs(path).len() ==> {
        &&& !urldecode_splits_char(encode_utf8(pair_key(#[trigger] query_pairs(path)[i])))
        &&& !urldecode_splits_char(encode_utf8(pair_value(query_pairs(path)[i])))
    }
}

fn key_and_value(kv: &[char]) -> (r: (String, String))
    ensures
        r.0@ == pair_key(kv@),
        r.1@ == pair_value(kv@),
{
    let n = kv.len();
    match first_index(kv, '=', 0) {
        Some(k) => (string_from_chars(slice_subrange(kv, 0, k)), string_from_chars(slice_subrange(kv, k + 1, kv.len()))),
        None => (string_from_chars(kv), String::new()),
    }
}

/// Whether the query of `path` can be decoded; where it cannot, the
/// callback server stops on the request without answering it.
pub fn callback_query_decodable(path: &str) -> (b: bool)
    ensures
        b == query_decodable(path@),
{
    let cs = str_chars(path);
    let n = cs.len();
    let q = match first_index(cs.as_slice(), '?', 0) {
        Some(q) => q,
        None => return true,
    };
    let pairs = split_chars(slice_subrange(cs.as_slice(), q + 1, cs.len()), '&');
    assert(cs@.subrange(q + 1, cs@.len() as int) == path@.skip(q + 1));
    let mut i: usize = 0;
    while i < pairs.len()
        invariant
            i <= pairs@.len(),
            pairs@.len() == query_pairs(path@).len(),
            forall|j: int| 0 <= j < pairs@.len() ==> #[trigger] pairs@[j]@ == query_pairs(path@)[j],
            forall|j: int| 0 <= j < i ==> {
                &&& !urldecode_splits_char(encode_utf8(pair_key(#[trigger] query_pairs(path@)[j])))
                &&& !urldecode_splits_char(encode_utf8(pair_value(query_pairs(path@)[j])))
            },
        decreases pairs@.len() - i,
    {
        let (k, v) = key_and_value(pairs[i].as_slice());
        assert(pairs@[i as int]@ == query_pairs(path@)[i as int]);
        if urldecode_would_split(k.as_str()) || urldecode_would_split(v.as_str()) {
            return false;
        }
        i = i + 1;
    }
    true
}

/// Reads the callback request for `path`: the code where the query has
/// one, else the provider's "error_description" or "error", else no code;
/// a path without a query is a bad request.
pub fn callback_outcome(path: &str) -> (r: CallbackOutcome)
    requires
        query_decodable(path@),
    ensures
        match first_index_from(path@, '?', 0) {
            None => r is BadRequest,
            Some(_) => match param(query_pairs(path@), "code"@) {
                Some(c) => r matches CallbackOutcome::Code(x) && x@ == c,
                None => match param(query_pairs(path@), "error_description"@) {
                    Some(e) => r matches CallbackOutcome::Error(x) && x@ == e,
                    None => match param(query_pairs(path@), "error"@) {
                        Some(e) => r matches CallbackOutcome::Error(x) && x@ == e,
                        None => r is MissingCode,
                    },
                },
            },
        },
{
    let cs = str_chars(path);
    let n = cs.len();
    let q = match first_index(cs.as_slice(), '?', 0) {
        Some(q) => q,
        None => return CallbackOutcome::BadRequest,
    };
    let pairs = split_chars(slice_subrange(cs.as_slice(), q + 1, cs.len()), '&');
    assert(cs@.subrange(q + 1, cs@.len() as int) == path@.skip(q + 1));
    let ghost all = query_pairs(path@);
    let mut params: Vec<(String, String)> = Vec::new();
    let mut i: usize = 0;
    while i < pairs.len()
        invariant
            i <= pairs@.len(),
            all == query_pairs(path@),
            query_decodable(path@),
            pairs@.len() == all.len(),
            forall|j: int| 0 <= j < pairs@.len() ==> #[trigger] pairs@[j]@ == all[j],
            params@.len() == i,
            forall|j: int| 0 <= j < i ==> (#[trigger] params@[j]).0@ == decoded(pair_key(all[j])) && params@[j].1@ == decoded(pair_value(all[j])),
        decreases pairs@.len() - i,
    {
        let (k, v) = key_and_value(pairs[i].as_slice());
        assert(pairs@[i as int]@ == all[i as int]);
        assert(!urldecode_splits_char(encode_utf8(pair_key(all[i as int]))));
        let dk = urldecode(k.as_str());
        let dv = urldecode(v.as_str());
        params.push((dk, dv));
        i = i + 1;
    }
    proof {
        lemma_last_named_param(params@, all, "code"@);
        lemma_last_named_param(params@, all, "error_description"@);
        lemma_last_named_param(params@, all, "error"@);
    }
    match last_param(&params, "code") {
        Some(c) => CallbackOutcome::Code(c),
        None => match last_param(&params, "error_description") {
            Some(e) => CallbackOutcome::Error(e),
            None => match last_param(&params, "error") {
                Some(e) => CallbackOutcome::Error(e),
                None => CallbackOutcome::MissingCode,
            },
        },
    }
}

/// The value of the last decoded pair named `name`.
pub open spec fn last_named(params: Seq<(String, String)>, name: Seq<char>) -> Option<Seq<char>>
    decreases params.len(),
{
    if params.len() == 0 {
        None
    } else if params.last().0@ == name {
        Some(params.last().1@)
    } else {
        last_named(params.drop_last(), name)
    }
}

proof fn lemma_last_named_param(params: Seq<(String, String)>, pairs: Seq<Seq<char>>, name: Seq<char>)
    requires
        params.len() == pairs.len(),
        forall|j: int| 0 <= j < params.len() ==> (#[trigger] params[j]).0@ == decoded(pair_key(pairs[j])) && params[j].1@ == decoded(pair_value(pairs[j])),
    ensures
        last_named(params, name) == param(pairs, name),
    decreases params.len(),
{
    if params.len() > 0 {
        let n = params.len() - 1;
        assert(params[n].0@ == decoded(pair_key(pairs[n])));
        lemma_last_named_param(params.drop_last(), pairs.drop_last(), name);
    }
}

fn last_param(params: &Vec<(String, String)>, name: &str) -> (r: Option<String>)
    ensures
        match last_named(params@, name@) {
            Some(v) => r matches Some(x) && x@ == v,
            None => r is None,
        },
{
    let mut i: usize = params.len();
    assert(params@.take(i as int) == params@);
    while i > 0
        invariant
            i <= params@.len(),
            last_named(params@, name@) == last_named(params@.take(i as int), name@),
        decreases i,
    {
        let ghost pre = params@.take(i as int);
        assert(pre.drop_last() == params@.take(i - 1));
        assert(pre.last() == params@[i - 1]);
        if str_eq(params[i - 1].0.as_str(), name) {
            return Some(String::from_str(params[i - 1].1.as_str()));
        }
        i = i - 1;
    }
    None
}

/// The status line code the callback server answers with: 200 where the
/// provider answered (with a code or an error), 400 otherwise.
pub fn callback_status(o: &CallbackOutcome) -> (s: u16)
    ensures
        s == match *o {
            CallbackOutcome::Code(_) | CallbackOutcome::Error(_) => 200u16,
            _ => 400u16,
        },
{
    match o {
        CallbackOutcome::Code(_) | CallbackOutcome::Error(_) => 200,
        _ => 400,
    }
}

/// The sign-in error the callback leaves for the poller, if any.
pub fn callback_error(o: &CallbackOutcome) -> (e: Option<String>)
    ensures
        match *o {
            CallbackOutcome::Code(_) => e is None,
            CallbackOutcome::Error(x) => e matches Some(s) && s@ == x@,
            CallbackOutcome::MissingCode => e matches Some(s) && s@ == "No authorization code received"@,
            CallbackOutcome::BadRequest => e matches Some(s) && s@ == "Invalid callback request"@,
        },
{
    match o {
        CallbackOutcome::Code(_) => None,
        CallbackOutcome::Error(x) => Some(String::from_str(x.as_str())),
        CallbackOutcome::MissingCode => Some(String::from_str("No authorization code received")),
        CallbackOutcome::BadRequest => Some(String::from_str("Invalid callback request")),
    }
}

/// The HTTP/1.1 response the callback server sends: "OK" for 200, "Bad
/// Request" otherwise, the body's length in bytes, connection closed.
pub open spec fn http_response_text(status: u16, body: Seq<char>) -> Seq<char> {
    "HTTP/1.1 "@ + decimal_int(status as int) + " "@ + (if status == 200 { "OK"@ } else { "Bad Request"@ })
        + "\r\nContent-Type: text/html; charset=utf-8\r\nContent-Length: "@ + decimal_int(encode_utf8(body).len() as int)
        + "\r\nConnection: close\r\n\r\n"@ + body
}

/// The text of an HTTP response with the given status and HTML body.
pub fn http_response(status: u16, body: &str) -> (r: String)
    ensures
        r@ == http_response_text(status, body@),
{
    let mut r = with_decimal("HTTP/1.1 ", status as i64);
    r.append(" ");
    if status == 200 {
        r.append("OK");
    } else {
        r.append("Bad Request");
    }
    r.append("\r\nContent-Type: text/html; charset=utf-8\r\nContent-Length: ");
    let n = body.as_bytes().len();
    crate::text::push_decimal_u128(&mut r, n as u128);
    r.append("\r\nConnection: close\r\n\r\n");
    r.append(body);
    proof {
        assert(decimal_int(n as int) == crate::text::decimal_nat(n as nat));
    }
    r
}

fn copy_opt(o: &Option<String>) -> (r: Option<String>)
    ensures
        opt_view(r) == opt_view(*o),
{
    match o {
        Some(s) => Some(String::from_str(s.as_str())),
        None => None,
    }
}

impl PollResult {
    /// A copy of the result.
    pub fn copy(&self) -> (r: PollResult)
        ensures
            r.status@ == self.status@,
            opt_view(r.bearer_token) == opt_view(self.bearer_token),
            opt_view(r.refresh_token) == opt_view(self.refresh_token),
            opt_view(r.message) == opt_view(self.message),
    {
        PollResult {
            status: String::from_str(self.status.as_str()),
            bearer_token: copy_opt(&self.bearer_token),
            refresh_token: copy_opt(&self.refresh_token),
            message: copy_opt(&self.message),
        }
    }
}

/// What the code flow knows between polls: the code the callback delivered,
/// the error it reported, and the result once the flow has finished.
pub struct AuthCodeState {
    pub code: Option<String>,
    pub error: Option<String>,
    pub completed: Option<PollResult>,
}

/// What a poll of the code flow does.
pub enum CodePoll {
    /// Answer with this result.
    Answer(PollResult),
    /// Exchange this authorization code for tokens.
    Exchange(String),
}

impl AuthCodeState {
    /// The state when the callback server starts: nothing received.
    pub fn new() -> (s: AuthCodeState)
        ensures
            s.code is None && s.error is None && s.completed is None,
    {
        AuthCodeState { code: None, error: None, completed: None }
    }

    /// Records what the callback server learned from the browser.
    pub fn record_callback(&mut self, outcome: &CallbackOutcome)
        ensures
            final(self).completed == old(self).completed,
            match *outcome {
                CallbackOutcome::Code(c) => opt_view(final(self).code) == Some(c@) && final(self).error == old(self).error,
                _ => final(self).code == old(self).code && opt_view(final(self).error) == callback_error_text(*outcome),
            },
    {
        match outcome {
            CallbackOutcome::Code(c) => {
                self.code = Some(String::from_str(c.as_str()));
            },
            _ => {
                self.error = callback_error(outcome);
            },
        }
    }

    /// Starts a poll: a finished flow answers with its result again; without
    /// a code the answer is "error" with the recorded error or "pending";
    /// a code is taken out for the exchange.
    pub fn begin_poll(&mut self) -> (p: CodePoll)
        ensures
            match old(self).completed {
                Some(done) => p matches CodePoll::Answer(r) && r.status@ == done.status@
                    && opt_view(r.bearer_token) == opt_view(done.bearer_token)
                    && opt_view(r.refresh_token) == opt_view(done.refresh_token)
                    && opt_view(r.message) == opt_view(done.message)
                    && final(self).code == old(self).code,
                None => final(self).code is None && match old(self).code {
                    None => p matches CodePoll::Answer(r) && r.status@ == (if old(self).error is Some { "error"@ } else { "pending"@ })
                        && opt_view(r.message) == opt_view(old(self).error) && r.bearer_token is None
                        && r.refresh_token is None,
                    Some(c) => p matches CodePoll::Exchange(x) && x@ == c@,
                },
            },
            final(self).error == old(self).error,
            final(self).completed == old(self).completed,
    {
        if let Some(done) = &self.completed {
            return CodePoll::Answer(done.copy());
        }
        let code = self.code.take();
        match code {
            Some(c) => CodePoll::Exchange(c),
            None => {
                let status = if self.error.is_some() { "error" } else { "pending" };
                proof {
                    reveal_strlit("error");
                    reveal_strlit("pending");
                }
                CodePoll::Answer(PollResult::with_status(status, copy_opt(&self.error)))
            },
        }
    }

    /// Ends a poll that went through the exchange: the result is kept and
    /// given again to every later poll.
    pub fn finish_poll(&mut self, result: PollResult)
        ensures
            final(self).code is None,
            final(self).error is None,
            final(self).completed == Some(result),
    {
        self.code = None;
        self.error = None;
        self.completed = Some(result);
    }
}

/// The sign-in error a callback outcome leaves.
pub open spec fn callback_error_text(o: CallbackOutcome) -> Option<Seq<char>> {
    match o {
        CallbackOutcome::Code(_) => None,
        CallbackOutcome::Error(x) => Some(x@),
        CallbackOutcome::MissingCode => Some("No authorization code received"@),
        CallbackOutcome::BadRequest => Some("Invalid callback request"@),
    }
}

} // verus!
