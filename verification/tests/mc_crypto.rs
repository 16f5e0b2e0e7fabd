use rsa::pkcs8::EncodePublicKey;
use sha1::{Digest, Sha1};
use skinartplus::mc::crypto::{compute_server_id, encrypt_login, generate_shared_secret, hex, mojang_digest, uuid_bytes, uuid_without_dashes};

fn sha1_of(data: &[u8]) -> [u8; 20] {
    Sha1::digest(data).into()
}

#[test]
fn hex_is_lowercase_two_digits_a_byte() {
    assert_eq!(hex(&[]), "");
    assert_eq!(hex(&[0x0a, 0xff, 0x00]), "0aff00");
}

#[test]
fn mojang_digests_of_known_names() {
    assert_eq!(mojang_digest(&sha1_of(b"Notch")), "4ed1f46bbe04bc756bcb17c0c7ce3e4632f06a48");
    assert_eq!(mojang_digest(&sha1_of(b"jeb_")), "-7c9d5b0044c130109a5d7b5fb5c317c02b4e28c1");
    assert_eq!(mojang_digest(&sha1_of(b"simon")), "88e16a1019277b15d58faf0541e11910eb756f6");
}

#[test]
fn mojang_digest_edge_values() {
    assert_eq!(mojang_digest(&[0u8; 20]), "0");
    let mut one = [0u8; 20];
    one[19] = 1;
    assert_eq!(mojang_digest(&one), "1");
    assert_eq!(mojang_digest(&[0xffu8; 20]), "-1");
}

#[test]
fn server_id_hashes_id_secret_and_key() {
    let secret = [5u8; 16];
    let key = [1u8, 2, 3];
    let mut all = b"srv".to_vec();
    all.extend_from_slice(&secret);
    all.extend_from_slice(&key);
    assert_eq!(compute_server_id("srv", &secret, &key), mojang_digest(&sha1_of(&all)));
}

#[test]
fn uuids() {
    assert_eq!(uuid_without_dashes("069a79f4-44e9-4726-a5be-fca90e38aaf5"), "069a79f444e94726a5befca90e38aaf5");
    assert_eq!(
        uuid_bytes("069a79f4-44e9-4726-a5be-fca90e38aaf5"),
        [0x06, 0x9a, 0x79, 0xf4, 0x44, 0xe9, 0x47, 0x26, 0xa5, 0xbe, 0xfc, 0xa9, 0x0e, 0x38, 0xaa, 0xf5]
    );
    assert_eq!(uuid_bytes("069A79F444E94726A5BEFCA90E38AAF5"), uuid_bytes("069a79f4-44e9-4726-a5be-fca90e38aaf5"));
    // pairs that are not hex read as zero; missing ones too
    assert_eq!(uuid_bytes("zz"), [0u8; 16]);
}

#[test]
fn login_encryption_rejects_a_bad_key() {
    assert!(encrypt_login(&[1, 2, 3], &[0u8; 16], &[1]).is_err());
}

/// The DER of a 512-bit public key (modulus 2^512 - 1, exponent 65537).
fn der_of_512_bit_key() -> Vec<u8> {
    let n = rsa::BigUint::from_bytes_be(&[0xffu8; 64]);
    let e = rsa::BigUint::from(65537u32);
    let key = rsa::RsaPublicKey::new(n, e).unwrap();
    key.to_public_key_der().unwrap().as_bytes().to_vec()
}

#[test]
fn login_encryption_gives_modulus_sized_ciphertexts() {
    let der = der_of_512_bit_key();
    let enc = encrypt_login(&der, &[7u8; 16], &[1, 2, 3, 4]).unwrap();
    assert_eq!(enc.encrypted_secret.len(), 64);
    assert_eq!(enc.encrypted_verify_token.len(), 64);
}

#[test]
fn login_encryption_takes_a_token_up_to_the_modulus_less_eleven() {
    let der = der_of_512_bit_key();
    assert!(encrypt_login(&der, &[0u8; 16], &[9u8; 53]).is_ok());
    assert!(encrypt_login(&der, &[0u8; 16], &[9u8; 54]).is_err());
}

#[test]
fn shared_secrets_differ() {
    assert_ne!(generate_shared_secret(), generate_shared_secret());
}

#[test]
fn uuid_bytes_reads_back_hex() {
    let b: [u8; 16] = [0x00, 0x01, 0x7f, 0x80, 0xab, 0xcd, 0xef, 0xff, 0x10, 0x20, 0x30, 0x40, 0x9a, 0xbc, 0xde, 0xf0];
    assert_eq!(uuid_bytes(&hex(&b)), b);
}
