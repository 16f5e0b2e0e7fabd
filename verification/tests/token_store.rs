use sha2::{Digest, Sha256};
use skinartplus::commands::crypto::{decrypt_tokens, derive_key, encrypt_tokens, encrypt_tokens_with_nonce, is_encrypted};

fn machine_id() -> String {
    machine_uid::get().unwrap_or_else(|_| "unknown-machine".into())
}

#[test]
fn roundtrip() {
    let key = derive_key(&machine_id());
    let enc = encrypt_tokens(&key, "hello-token-123").unwrap();
    let dec = decrypt_tokens(&key, &enc).unwrap();
    assert_eq!(dec, "hello-token-123");
    println!("machine={} enc={} dec={}", machine_id(), enc, dec);
}

#[test]
fn sealed_tokens_carry_the_prefix() {
    let key = derive_key("machine-a");
    let enc = encrypt_tokens(&key, "tok").unwrap();
    assert!(enc.starts_with("enc:"));
    assert!(is_encrypted(&enc));
    assert!(!is_encrypted("plain-token"));
    assert!(!is_encrypted("enc"));
}

#[test]
fn fixed_nonce_gives_fixed_text_and_reads_back() {
    let key = derive_key("machine-a");
    let nonce = [3u8; 12];
    let a = encrypt_tokens_with_nonce(&key, &nonce, "abc").unwrap();
    let b = encrypt_tokens_with_nonce(&key, &nonce, "abc").unwrap();
    assert_eq!(a, b);
    assert_eq!(decrypt_tokens(&key, &a).unwrap(), "abc");
}

#[test]
fn decrypt_rejects_plain_short_and_foreign_tokens() {
    let key = derive_key("machine-a");
    assert_eq!(decrypt_tokens(&key, "plain").unwrap_err(), "not encrypted");
    // "AAAA" decodes to three bytes: shorter than a nonce
    assert_eq!(decrypt_tokens(&key, "enc:AAAA").unwrap_err(), "bad ciphertext");
    let other = derive_key("machine-b");
    let enc = encrypt_tokens(&other, "secret").unwrap();
    assert_eq!(decrypt_tokens(&key, &enc).unwrap_err(), "decrypt failed (key mismatch?)");
}

#[test]
fn key_is_sha256_of_machine_id() {
    let expect: [u8; 32] = Sha256::digest(b"abc").into();
    assert_eq!(derive_key("abc"), expect);
}

#[test]
fn sealed_tokens_count_as_encrypted() {
    let key = [3u8; 32];
    for p in ["", "token", "ünïcode ✓"] {
        let sealed = encrypt_tokens(&key, p).unwrap();
        assert!(is_encrypted(&sealed));
        assert!(sealed.starts_with("enc:"));
    }
    assert!(is_encrypted("enc:"));
    assert!(!is_encrypted("ENC:x"));
    assert!(!is_encrypted(""));
}
