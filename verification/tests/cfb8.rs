use skinartplus::mc::codec::{AesCfb8, StreamState};
use skinartplus::mc::crypto::hex;

#[test]
fn matches_python_cfb8() {
    let key: [u8; 16] = (0u8..16).collect::<Vec<u8>>().try_into().unwrap();
    let pt = b"Hello, Minecraft CFB8 test!";
    let expect_ct = "42ea5ed4daf864eae7ef5c17728310d5ec9c8966a7882537258862";

    let mut enc = AesCfb8::new(&key);
    let mut buf = pt.to_vec();
    enc.process(&mut buf);
    println!("ct  = {}", hex(&buf));
    assert_eq!(hex(&buf), expect_ct);

    let mut dec = AesCfb8::new_decrypt(&key);
    dec.process(&mut buf);
    println!("pt  = {}", hex(&buf));
    assert_eq!(buf, pt);
}

#[test]
fn cfb8_stream_in_pieces_matches_one_call() {
    let key = [7u8; 16];
    let data: Vec<u8> = (0u8..=200).collect();
    let mut whole = data.clone();
    AesCfb8::new(&key).process(&mut whole);

    let mut enc = AesCfb8::new(&key);
    let mut a = data[..50].to_vec();
    let mut b = data[50..].to_vec();
    enc.process(&mut a);
    enc.process(&mut b);
    a.extend_from_slice(&b);
    assert_eq!(a, whole);
}

#[test]
fn cfb8_decrypt_undoes_encrypt() {
    let key = [0x42u8; 16];
    let data = b"some login packet bytes".to_vec();
    let mut buf = data.clone();
    AesCfb8::new(&key).process(&mut buf);
    assert_ne!(buf, data);
    AesCfb8::new_decrypt(&key).process(&mut buf);
    assert_eq!(buf, data);
}

#[test]
fn stream_state_encrypts_only_after_enabling() {
    let mut s = StreamState::new();
    let mut buf = vec![1u8, 2, 3];
    s.encrypt_outgoing(&mut buf);
    assert_eq!(buf, vec![1u8, 2, 3]);
    let key = [9u8; 16];
    s.enable_encryption(&key);
    s.encrypt_outgoing(&mut buf);
    assert_ne!(buf, vec![1u8, 2, 3]);
    let mut r = StreamState::new();
    r.enable_encryption(&key);
    r.decrypt_incoming(&mut buf);
    assert_eq!(buf, vec![1u8, 2, 3]);
}
