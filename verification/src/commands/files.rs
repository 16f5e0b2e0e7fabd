//! Files and URLs: the pieces of the file commands that compute.
use vstd::prelude::*;
use vstd::string::StringSliceAdditionalSpecFns;
use vstd::utf8::*;
use crate::text::unicode_whitespace;
use crate::text::{decimal_int, decimal_nat, with_decimal, with_str, push_char, push_decimal_u128};
use crate::commands::crypto::{base64_encode, base64_encoded, base64_decode, base64_decoded};

verus! {

/// A byte that percent-encoding leaves as it is.
pub open spec fn url_unreserved(b: u8) -> bool {
    (48 <= b <= 57) || (65 <= b <= 90) || (97 <= b <= 122) || b == 45 || b == 46 || b == 95 || b == 126
}

/// The uppercase hex digit for `d < 16`.
pub open spec fn upper_hex_digit(d: nat) -> char {
    if d < 10 {
        ((48 + d) as u8) as char
    } else {
        ((55 + d) as u8) as char
    }
}

/// Percent-encoding of `bytes`: unreserved bytes as themselves, every other
/// byte as '%' and two uppercase hex digits.
pub open spec fn url_encoded(bytes: Seq<u8>) -> Seq<char>
    decreases bytes.len(),
{
    if bytes.len() == 0 {
        Seq::empty()
    } else {
        let b = bytes[0];
        let head = if url_unreserved(b) {
            seq![b as char]
        } else {
            seq!['%', upper_hex_digit((b / 16) as nat), upper_hex_digit((b % 16) as nat)]
        };
        head + url_encoded(bytes.drop_first())
    }
}

/// `urlencoding::encode`: percent-encodes the UTF-8 bytes of `s` as
/// `url_encoded` states.
#[verifier::external_body]
pub fn urlencode(s: &str) -> (r: String)
    ensures
        r@ == url_encoded(s.spec_bytes()),
{
    urlencoding::encode(s).into_owned()
}

/// The skins to copy into a folder the user picks.
pub struct ExportRequest {
    pub skins: Vec<ExportSkin>,
}

/// One generated skin: its number and where its file is.
pub struct ExportSkin {
    pub num: i32,
    pub path: String,
}

/// A file read as base64 text, or why it could not be read.
pub struct Base64Result {
    pub success: bool,
    pub data: Option<String>,
    pub error: Option<String>,
}

/// A number's decimal text padded with zeros to two characters (`{:02}`; the
/// sign counts toward the width).
pub open spec fn two_wide(d: Seq<char>) -> Seq<char> {
    if d.len() < 2 {
        seq!['0'] + d
    } else {
        d
    }
}

/// The file name an exported skin gets: "skin_" and its number in two digits.
pub open spec fn export_name(num: int) -> Seq<char> {
    "skin_"@ + two_wide(decimal_int(num)) + ".png"@
}

/// The name skin `num` is exported under ("skin_07.png").
pub fn export_file_name(num: i32) -> (r: String)
    ensures
        r@ == export_name(num as int),
{
    let digits = with_decimal("", num as i64);
    proof {
        reveal_strlit("");
        assert(digits@ == decimal_int(num as int));
    }
    let mut name = String::from_str("skin_");
    if digits.as_str().unicode_len() < 2 {
        push_char(&mut name, '0');
    }
    name.append(digits.as_str());
    name.append(".png");
    proof {
        reveal_strlit("skin_");
        assert(name@ == export_name(num as int));
    }
    name
}

/// The message for a skin that could not be copied.
pub fn copy_failed_message(name: &str, err: &str) -> (r: String)
    ensures
        r@ == "Failed to copy "@ + name@ + ": "@ + err@,
{
    let mut m = String::from_str("Failed to copy ");
    m.append(name);
    m.append(": ");
    m.append(err);
    m
}

/// The NameMC profile page of a player.
pub fn namemc_profile_url(ign: &str) -> (r: String)
    ensures
        r@ == "https://namemc.com/profile/"@ + url_encoded(ign.spec_bytes()),
{
    let enc = urlencode(ign);
    with_str("https://namemc.com/profile/", enc.as_str())
}

/// The answer to a request for a file as base64: its bytes encoded, or the
/// reading error.
pub fn base64_result(read: Result<Vec<u8>, String>) -> (r: Base64Result)
    ensures
        match read {
            Ok(bytes) => r.success && (r.data matches Some(d) && d@ == base64_encoded(bytes@)) && r.error is None,
            Err(e) => !r.success && r.data is None && r.error == Some(e),
        },
{
    match read {
        Ok(bytes) => Base64Result { success: true, data: Some(base64_encode(bytes.as_slice())), error: None },
        Err(e) => Base64Result { success: false, data: None, error: Some(e) },
    }
}

/// `s` without its leading Unicode white space.
pub open spec fn trim_start_spec(s: Seq<char>) -> Seq<char>
    decreases s.len(),
{
    if s.len() > 0 && unicode_whitespace(s[0]) {
        trim_start_spec(s.drop_first())
    } else {
        s
    }
}

/// `s` without its trailing Unicode white space.
pub open spec fn trim_end_spec(s: Seq<char>) -> Seq<char>
    decreases s.len(),
{
    if s.len() > 0 && unicode_whitespace(s.last()) {
        trim_end_spec(s.drop_last())
    } else {
        s
    }
}

/// What `str::trim` leaves of `s`: without leading and trailing Unicode
/// white space (the White_Space property).
pub open spec fn unicode_trim(s: Seq<char>) -> Seq<char> {
    trim_end_spec(trim_start_spec(s))
}

/// `str::trim`: `s` without leading and trailing white space, as
/// `unicode_trim` states.
#[verifier::external_body]
pub(crate) fn trim(s: &str) -> (r: &str)
    ensures
        r@ == unicode_trim(s@),
{
    s.trim()
}

/// The name a temporary image is saved under: the one given, unless it is
/// blank, then one made from the time in milliseconds.
pub open spec fn temp_name(filename: Seq<char>, millis: nat) -> Seq<char> {
    if unicode_trim(filename).len() == 0 {
        "skinartplus_temp_"@ + decimal_nat(millis) + ".png"@
    } else {
        filename
    }
}

/// Picks the name of a temporary image file.
pub fn temp_file_name(filename: &str, millis: u128) -> (r: String)
    ensures
        r@ == temp_name(filename@, millis as nat),
{
    if trim(filename).unicode_len() == 0 {
        let mut name = String::from_str("skinartplus_temp_");
        push_decimal_u128(&mut name, millis);
        name.append(".png");
        name
    } else {
        String::from_str(filename)
    }
}

/// The bytes of a temporary image sent as base64 text, or the decoder's
/// message.
pub fn decode_temp_buffer(data: &str) -> (r: Result<Vec<u8>, String>)
    ensures
        r is Ok <==> base64_decoded(data.spec_bytes()) is Some,
        r matches Ok(v) ==> base64_decoded(data.spec_bytes()) == Some(v@),
{
    match base64_decode(data.as_bytes()) {
        Ok(v) => Ok(v),
        Err(e) => Err(e.to_string()),
    }
}

} // verus!
