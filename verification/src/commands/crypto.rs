//! Refresh tokens at rest: AES-256-GCM under a key derived from the machine id.
use vstd::prelude::*;
use vstd::utf8::*;
use vstd::string::StringSliceAdditionalSpecFns;
use vstd::slice::{slice_subrange, slice_to_vec};
use aes_gcm::aead::{Aead, KeyInit};
use aes_gcm::{Aes256Gcm, Nonce};
use base64::engine::general_purpose::STANDARD as B64;
use base64::Engine;
use rand::rngs::OsRng;
use rand::RngCore;
use sha2::{Digest, Sha256};
use crate::text::{append_bytes, utf8_str, lemma_encode_utf8_concat};

verus! {

/// The SHA-256 digest of `data`.
pub uninterp spec fn sha256_digest(data: Seq<u8>) -> Seq<u8>;

/// `sha2::Sha256::digest`; the digest is named by `sha256_digest`.
#[verifier::external_body]
fn sha256(data: &[u8]) -> (out: [u8; 32])
    ensures
        out@ == sha256_digest(data@),
{
    Sha256::digest(data).into()
}

/// The token key: the SHA-256 of the machine id.
pub fn derive_key(machine_id: &str) -> (key: [u8; 32])
    ensures
        key@ == sha256_digest(machine_id.spec_bytes()),
{
    sha256(machine_id.as_bytes())
}

/// The standard base64 text (with padding) of `data`.
pub uninterp spec fn base64_encoded(data: Seq<u8>) -> Seq<char>;

/// What the standard base64 decoder reads from `text`, `None` where it rejects it.
pub uninterp spec fn base64_decoded(text: Seq<u8>) -> Option<Seq<u8>>;

/// `base64::engine::general_purpose::STANDARD.encode`: the text is named by
/// `base64_encoded`, is ASCII, and the standard decoder reads `data` back from it.
#[verifier::external_body]
pub fn base64_encode(data: &[u8]) -> (s: String)
    ensures
        s@ == base64_encoded(data@),
        is_ascii_chars(s@),
        base64_decoded(encode_utf8(s@)) == Some(data@),
{
    B64.encode(data)
}

#[verifier::external_type_specification]
#[verifier::external_body]
pub struct ExDecodeError(base64::DecodeError);

/// `base64::engine::general_purpose::STANDARD.decode`; what it reads is named
/// by `base64_decoded`.
#[verifier::external_body]
pub(crate) fn base64_decode(text: &[u8]) -> (r: Result<Vec<u8>, base64::DecodeError>)
    ensures
        r is Ok <==> base64_decoded(text@) is Some,
        r matches Ok(v) ==> base64_decoded(text@) == Some(v@),
{
    B64.decode(text)
}

/// The AES-256-GCM ciphertext (with its tag) of `plain` under `key` and `nonce`.
pub uninterp spec fn gcm_seal(key: Seq<u8>, nonce: Seq<u8>, plain: Seq<u8>) -> Seq<u8>;

/// What AES-256-GCM decryption under `key` and `nonce` yields for `sealed`,
/// `None` where the tag does not check.
pub uninterp spec fn gcm_open(key: Seq<u8>, nonce: Seq<u8>, sealed: Seq<u8>) -> Option<Seq<u8>>;

#[verifier::external_type_specification]
#[verifier::external_body]
pub struct ExAeadError(aes_gcm::Error);

/// The longest plaintext AES-256-GCM encrypts (`aes_gcm::P_MAX`, 2^36 bytes).
pub open spec fn gcm_plain_max() -> nat {
    0x10_0000_0000
}

/// `Aes256Gcm::encrypt` under `key` and `nonce`: it succeeds exactly when the
/// plaintext is at most `P_MAX` bytes (the only check before sealing into a
/// `Vec`), the ciphertext is named by `gcm_seal`, and decryption under the same
/// key and nonce gives `plain` back.
#[verifier::external_body]
fn gcm_encrypt(key: &[u8; 32], nonce: &[u8; 12], plain: &[u8]) -> (r: Result<Vec<u8>, aes_gcm::Error>)
    ensures
        r is Ok <==> plain@.len() <= gcm_plain_max(),
        r matches Ok(c) ==> c@ == gcm_seal(key@, nonce@, plain@),
        r matches Ok(c) ==> gcm_open(key@, nonce@, c@) == Some(plain@),
{
    Aes256Gcm::new(key.into()).encrypt(Nonce::from_slice(nonce), plain)
}

/// `Aes256Gcm::decrypt` under `key` and `nonce`; the outcome is named by `gcm_open`.
#[verifier::external_body]
fn gcm_decrypt(key: &[u8; 32], nonce: &[u8], sealed: &[u8]) -> (r: Result<Vec<u8>, aes_gcm::Error>)
    requires
        nonce@.len() == 12,
    ensures
        r is Ok <==> gcm_open(key@, nonce@, sealed@) is Some,
        r matches Ok(p) ==> gcm_open(key@, nonce@, sealed@) == Some(p@),
{
    Aes256Gcm::new(key.into()).decrypt(Nonce::from_slice(nonce), sealed)
}

/// Twelve bytes from the operating system's RNG.
#[verifier::external_body]
fn random_nonce() -> [u8; 12] {
    let mut nonce = [0u8; 12];
    OsRng.fill_bytes(&mut nonce);
    nonce
}

/// "enc:" as bytes.
pub open spec fn enc_prefix() -> Seq<u8> {
    seq![101u8, 110u8, 99u8, 58u8]
}

pub open spec fn has_enc_prefix(text: Seq<u8>) -> bool {
    text.len() >= 4 && text.subrange(0, 4) == enc_prefix()
}

/// The stored form of `plain` encrypted under `key` with `nonce`: "enc:" and
/// the base64 of the nonce followed by the ciphertext.
pub open spec fn sealed_token(key: Seq<u8>, nonce: Seq<u8>, plain: Seq<char>) -> Seq<char> {
    "enc:"@ + base64_encoded(nonce + gcm_seal(key, nonce, encode_utf8(plain)))
}

/// Why a stored token cannot be read back.
pub ghost enum TokenFailure {
    NotEncrypted,
    Base64,
    TooShort,
    Authentication,
    Utf8,
}

/// What `decrypt_tokens` reads from the UTF-8 bytes `text` under `key`.
pub open spec fn open_token(key: Seq<u8>, text: Seq<u8>) -> Result<Seq<char>, TokenFailure> {
    if !has_enc_prefix(text) {
        Err(TokenFailure::NotEncrypted)
    } else {
        match base64_decoded(text.skip(4)) {
            None => Err(TokenFailure::Base64),
            Some(raw) => if raw.len() < 12 {
                Err(TokenFailure::TooShort)
            } else {
                match gcm_open(key, raw.subrange(0, 12), raw.skip(12)) {
                    None => Err(TokenFailure::Authentication),
                    Some(p) => if valid_utf8(p) {
                        Ok(decode_utf8(p))
                    } else {
                        Err(TokenFailure::Utf8)
                    },
                }
            },
        }
    }
}

pub open spec fn not_encrypted_msg() -> Seq<char> {
    "not encrypted"@
}

pub open spec fn bad_ciphertext_msg() -> Seq<char> {
    "bad ciphertext"@
}

pub open spec fn decrypt_failed_msg() -> Seq<char> {
    "decrypt failed (key mismatch?)"@
}

proof fn lemma_enc_prefix_bytes()
    ensures
        encode_utf8("enc:"@) == enc_prefix(),
        is_ascii_chars("enc:"@),
{
    reveal_strlit("enc:");
    let c = "enc:"@;
    assert(is_ascii_chars(c));
    is_ascii_chars_encode_utf8(c);
    assert(encode_utf8(c) == enc_prefix());
}

/// Whether a stored value is in the encrypted form (starts with "enc:").
pub fn is_encrypted(value: &str) -> (b: bool)
    ensures
        b == has_enc_prefix(value.spec_bytes()),
{
    let bytes = value.as_bytes();
    if bytes.len() < 4 {
        return false;
    }
    let r = bytes[0] == 101 && bytes[1] == 110 && bytes[2] == 99 && bytes[3] == 58;
    proof {
        if r {
            assert(bytes@.subrange(0, 4) == enc_prefix());
        } else {
            if bytes@.subrange(0, 4) == enc_prefix() {
                assert(bytes@[0] == bytes@.subrange(0, 4)[0]);
                assert(bytes@[1] == bytes@.subrange(0, 4)[1]);
                assert(bytes@[2] == bytes@.subrange(0, 4)[2]);
                assert(bytes@[3] == bytes@.subrange(0, 4)[3]);
            }
        }
    }
    r
}

/// Encrypts `plaintext` under `key` with the given nonce. It succeeds unless the
/// token is longer than AES-GCM takes, and the result decrypts back to
/// `plaintext` under the same key.
pub fn encrypt_tokens_with_nonce(key: &[u8; 32], nonce: &[u8; 12], plaintext: &str) -> (r: Result<String, String>)
    ensures
        r is Ok <==> encode_utf8(plaintext@).len() <= gcm_plain_max(),
        r matches Ok(s) ==> s@ == sealed_token(key@, nonce@, plaintext@),
        r matches Ok(s) ==> open_token(key@, encode_utf8(s@)) == Ok::<Seq<char>, TokenFailure>(plaintext@),
        r matches Ok(s) ==> has_enc_prefix(encode_utf8(s@)),
{
    let ct = match gcm_encrypt(key, nonce, plaintext.as_bytes()) {
        Ok(c) => c,
        Err(e) => return Err(e.to_string()),
    };
    let mut out: Vec<u8> = slice_to_vec(nonce.as_slice());
    append_bytes(&mut out, ct.as_slice());
    let b64 = base64_encode(out.as_slice());
    let mut s = String::from_str("enc:");
    s.append(b64.as_str());
    proof {
        lemma_enc_prefix_bytes();
        lemma_encode_utf8_concat("enc:"@, b64@);
        let bytes = encode_utf8(s@);
        assert(bytes == enc_prefix() + encode_utf8(b64@));
        assert(bytes.subrange(0, 4) == enc_prefix());
        assert(bytes.skip(4) == encode_utf8(b64@));
        let raw = out@;
        assert(raw.subrange(0, 12) == nonce@);
        assert(raw.skip(12) == ct@);
        encode_utf8_valid_utf8(plaintext@);
        encode_utf8_decode_utf8(plaintext@);
    }
    Ok(s)
}

/// Encrypts a token for storage under `key` with a fresh random nonce. It
/// succeeds unless the token is longer than AES-GCM takes.
pub fn encrypt_tokens(key: &[u8; 32], plaintext: &str) -> (r: Result<String, String>)
    ensures
        r is Ok <==> encode_utf8(plaintext@).len() <= gcm_plain_max(),
        r matches Ok(s) ==> open_token(key@, encode_utf8(s@)) == Ok::<Seq<char>, TokenFailure>(plaintext@),
        r matches Ok(s) ==> has_enc_prefix(encode_utf8(s@)),
        r matches Ok(s) ==> exists|nonce: Seq<u8>| nonce.len() == 12 && s@ == #[trigger] sealed_token(key@, nonce, plaintext@),
{
    let nonce = random_nonce();
    encrypt_tokens_with_nonce(key, &nonce, plaintext)
}

/// Reads back a token stored by `encrypt_tokens` under the same key.
pub fn decrypt_tokens(key: &[u8; 32], encoded: &str) -> (r: Result<String, String>)
    ensures
        r is Ok <==> open_token(key@, encoded.spec_bytes()) is Ok,
        r matches Ok(s) ==> open_token(key@, encoded.spec_bytes()) == Ok::<Seq<char>, TokenFailure>(s@),
        r matches Err(e) ==> (open_token(key@, encoded.spec_bytes()) == Err::<Seq<char>, TokenFailure>(TokenFailure::NotEncrypted) ==> e@ == not_encrypted_msg()),
        r matches Err(e) ==> (open_token(key@, encoded.spec_bytes()) == Err::<Seq<char>, TokenFailure>(TokenFailure::TooShort) ==> e@ == bad_ciphertext_msg()),
        r matches Err(e) ==> (open_token(key@, encoded.spec_bytes()) == Err::<Seq<char>, TokenFailure>(TokenFailure::Authentication) ==> e@ == decrypt_failed_msg()),
{
    if !is_encrypted(encoded) {
        return Err(String::from_str("not encrypted"));
    }
    let bytes = encoded.as_bytes();
    let body = slice_subrange(bytes, 4, bytes.len());
    let raw = match base64_decode(body) {
        Ok(v) => v,
        Err(e) => return Err(e.to_string()),
    };
    if raw.len() < 12 {
        return Err(String::from_str("bad ciphertext"));
    }
    let nonce_bytes = slice_subrange(raw.as_slice(), 0, 12);
    let ct = slice_subrange(raw.as_slice(), 12, raw.len());
    let pt = match gcm_decrypt(key, nonce_bytes, ct) {
        Ok(p) => p,
        Err(_) => return Err(String::from_str("decrypt failed (key mismatch?)")),
    };
    match utf8_str(pt.as_slice()) {
        Ok(s) => Ok(String::from_str(s)),
        Err(e) => Err(e.to_string()),
    }
}

} // verus!
