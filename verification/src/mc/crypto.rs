//! Minecraft login crypto: the server-id hash, RSA PKCS#1 v1.5, UUID forms.
use vstd::prelude::*;
use crate::text::{push_char, append_bytes};
use vstd::slice::slice_to_vec;
use vstd::utf8::*;
use vstd::string::StringSliceAdditionalSpecFns;
use sha1::{Digest, Sha1};
use rand::RngCore;
use rsa::pkcs8::DecodePublicKey;
use rsa::{Pkcs1v15Encrypt, RsaPublicKey};

verus! {

/// The lowercase hex digit for `d < 16`.
pub open spec fn hex_digit(d: nat) -> char {
    if d < 10 {
        ((48 + d) as u8) as char
    } else {
        ((87 + d) as u8) as char
    }
}

/// Two lowercase hex digits per byte, in order.
pub open spec fn hex_spec(bytes: Seq<u8>) -> Seq<char>
    decreases bytes.len(),
{
    if bytes.len() == 0 {
        Seq::empty()
    } else {
        hex_spec(bytes.drop_last()) + seq![
            hex_digit((bytes.last() / 16) as nat),
            hex_digit((bytes.last() % 16) as nat),
        ]
    }
}

fn hex_digit_exec(d: u8) -> (c: char)
    requires
        d < 16,
    ensures
        c == hex_digit(d as nat),
{
    if d < 10 {
        (48u8 + d) as char
    } else {
        (87u8 + d) as char
    }
}

/// Lowercase hex, two digits per byte.
pub fn hex(bytes: &[u8]) -> (s: String)
    ensures
        s@ == hex_spec(bytes@),
{
    let mut s = String::new();
    let mut i: usize = 0;
    while i < bytes.len()
        invariant
            i <= bytes@.len(),
            s@ == hex_spec(bytes@.subrange(0, i as int)),
        decreases bytes@.len() - i,
    {
        let b = bytes[i];
        push_char(&mut s, hex_digit_exec(b / 16));
        push_char(&mut s, hex_digit_exec(b % 16));
        proof {
            let pre = bytes@.subrange(0, i as int);
            let post = bytes@.subrange(0, i + 1);
            assert(post.drop_last() == pre);
            assert(post.last() == b);
            assert(hex_spec(post) == hex_spec(pre) + seq![hex_digit((b / 16) as nat), hex_digit((b % 16) as nat)]);
            assert(s@ == hex_spec(pre).push(hex_digit((b / 16) as nat)).push(hex_digit((b % 16) as nat)));
            assert(hex_spec(pre).push(hex_digit((b / 16) as nat)).push(hex_digit((b % 16) as nat))
                == hex_spec(pre) + seq![hex_digit((b / 16) as nat), hex_digit((b % 16) as nat)]);
        }
        i = i + 1;
    }
    assert(bytes@.subrange(0, bytes@.len() as int) == bytes@);
    s
}


pub open spec fn pow256(n: nat) -> nat
    decreases n,
{
    if n == 0 {
        1
    } else {
        256 * pow256((n - 1) as nat)
    }
}

/// The bytes read as an unsigned big-endian number.
pub open spec fn be_value(s: Seq<u8>) -> nat
    decreases s.len(),
{
    if s.len() == 0 {
        0
    } else {
        be_value(s.drop_last()) * 256 + s.last() as nat
    }
}

/// The bytes read as a two's complement big-endian number, as Java's
/// `new BigInteger(bytes)` reads them.
pub open spec fn signed_be_value(s: Seq<u8>) -> int {
    if s.len() > 0 && s[0] >= 128 {
        be_value(s) - pow256(s.len())
    } else {
        be_value(s) as int
    }
}

/// Lowercase hex of `n` without leading zeros ("0" for zero).
pub open spec fn hex_nat(n: nat) -> Seq<char>
    decreases n,
{
    if n < 16 {
        seq![hex_digit(n)]
    } else {
        hex_nat(n / 16).push(hex_digit(n % 16))
    }
}

/// Java's `BigInteger.toString(16)`: a minus sign for negative numbers, then
/// the lowercase hex of the magnitude without leading zeros.
pub open spec fn java_hex(v: int) -> Seq<char> {
    if v < 0 {
        seq!['-'] + hex_nat((-v) as nat)
    } else {
        hex_nat(v as nat)
    }
}

/// The digits (each below 16) read as a hex number, most significant first.
pub open spec fn hexval(d: Seq<u8>) -> nat
    decreases d.len(),
{
    if d.len() == 0 {
        0
    } else {
        hexval(d.drop_last()) * 16 + d.last() as nat
    }
}

/// The nibbles of the bytes, high nibble first.
pub open spec fn nibbles(s: Seq<u8>) -> Seq<u8> {
    Seq::new(2 * s.len(), |i: int| if i % 2 == 0 { s[i / 2] / 16 } else { s[i / 2] % 16 })
}

pub open spec fn digit_chars(d: Seq<u8>) -> Seq<char> {
    Seq::new(d.len(), |i: int| hex_digit(d[i] as nat))
}

pub open spec fn inverted(s: Seq<u8>) -> Seq<u8> {
    Seq::new(s.len(), |i: int| (255 - s[i]) as u8)
}

proof fn lemma_be_cons(b: u8, t: Seq<u8>)
    ensures
        be_value(seq![b] + t) == b * pow256(t.len()) + be_value(t),
    decreases t.len(),
{
    let w = seq![b] + t;
    if t.len() == 0 {
        assert(w.drop_last() == Seq::<u8>::empty());
        assert(w.last() == b);
        assert(b * pow256(0) == b) by (nonlinear_arith)
            requires
                pow256(0) == 1,
        ;
        assert(be_value(t) == 0);
        assert(be_value(w) == be_value(w.drop_last()) * 256 + w.last() as nat);
        assert(be_value(w.drop_last()) == 0);
    } else {
        lemma_be_cons(b, t.drop_last());
        assert(w.drop_last() == seq![b] + t.drop_last());
        assert(w.last() == t.last());
        let p = pow256((t.len() - 1) as nat);
        assert(pow256(t.len()) == 256 * p);
        let x = be_value(t.drop_last());
        let l = t.last() as nat;
        let bn = b as nat;
        assert((bn * p + x) * 256 + l == bn * (256 * p) + (x * 256 + l)) by (nonlinear_arith);
        assert(be_value(w) == be_value(w.drop_last()) * 256 + w.last() as nat);
        assert(be_value(t) == x * 256 + l);
    }
}

proof fn lemma_be_bound(s: Seq<u8>)
    ensures
        be_value(s) < pow256(s.len()),
    decreases s.len(),
{
    if s.len() > 0 {
        lemma_be_bound(s.drop_last());
        let x = be_value(s.drop_last());
        let p = pow256((s.len() - 1) as nat);
        assert(x * 256 + s.last() < 256 * p) by (nonlinear_arith)
            requires
                x < p,
                s.last() < 256,
        ;
    }
}

proof fn lemma_be_inverted(s: Seq<u8>)
    ensures
        be_value(inverted(s)) + be_value(s) + 1 == pow256(s.len()),
    decreases s.len(),
{
    if s.len() > 0 {
        lemma_be_inverted(s.drop_last());
        assert(inverted(s).drop_last() == inverted(s.drop_last()));
        let a = be_value(inverted(s.drop_last()));
        let b = be_value(s.drop_last());
        assert(a * 256 + (255 - s.last()) + b * 256 + s.last() + 1 == (a + b + 1) * 256) by (nonlinear_arith);
    }
}

proof fn lemma_hexval_nibbles(s: Seq<u8>)
    ensures
        hexval(nibbles(s)) == be_value(s),
    decreases s.len(),
{
    if s.len() > 0 {
        let s1 = s.drop_last();
        lemma_hexval_nibbles(s1);
        let n = nibbles(s);
        let l = s.last();
        assert(n.drop_last().drop_last() == nibbles(s1));
        assert(n.last() == l % 16);
        assert(n.drop_last().last() == l / 16);
        let h = hexval(nibbles(s1));
        let ln = l as nat;
        assert((h * 16 + ln / 16) * 16 + ln % 16 == h * 256 + ln) by (nonlinear_arith);
        assert(hexval(n) == hexval(n.drop_last()) * 16 + n.last() as nat);
        assert(hexval(n.drop_last()) == hexval(n.drop_last().drop_last()) * 16 + n.drop_last().last() as nat);
    }
}

proof fn lemma_hexval_leading_zero(d: Seq<u8>)
    requires
        d.len() >= 1,
        d[0] == 0,
    ensures
        hexval(d) == hexval(d.drop_first()),
    decreases d.len(),
{
    if d.len() == 1 {
        assert(d.drop_last().len() == 0);
        assert(d.drop_first().len() == 0);
        assert(d.last() == 0);
        assert(hexval(d) == hexval(d.drop_last()) * 16 + d.last() as nat);
    } else {
        lemma_hexval_leading_zero(d.drop_last());
        assert(d.drop_last().drop_first() == d.drop_first().drop_last());
        assert(d.drop_first().last() == d.last());
        assert(hexval(d) == hexval(d.drop_last()) * 16 + d.last() as nat);
        assert(hexval(d.drop_first()) == hexval(d.drop_first().drop_last()) * 16 + d.drop_first().last() as nat);
    }
}

proof fn lemma_hexval_positive(d: Seq<u8>)
    requires
        d.len() >= 1,
        d[0] != 0,
    ensures
        hexval(d) >= 1,
    decreases d.len(),
{
    if d.len() > 1 {
        lemma_hexval_positive(d.drop_last());
    }
}

proof fn lemma_digit_chars(d: Seq<u8>)
    requires
        d.len() >= 1,
        d[0] != 0 || d.len() == 1,
        forall|i: int| 0 <= i < d.len() ==> d[i] < 16,
    ensures
        digit_chars(d) == hex_nat(hexval(d)),
    decreases d.len(),
{
    let x = d.last();
    let d1 = d.drop_last();
    if d.len() == 1 {
        assert(hexval(d) == x);
        assert(digit_chars(d) == seq![hex_digit(x as nat)]);
    } else {
        lemma_digit_chars(d1);
        lemma_hexval_positive(d1);
        let h = hexval(d1);
        assert(hexval(d) == h * 16 + x);
        assert((h * 16 + x) / 16 == h && (h * 16 + x) % 16 == x) by (nonlinear_arith)
            requires
                x < 16,
        ;
        assert(digit_chars(d) == digit_chars(d1).push(hex_digit(x as nat)));
    }
}

proof fn lemma_strip_zeros(d: Seq<u8>, k: nat)
    requires
        k < d.len(),
        forall|j: int| 0 <= j < k ==> d[j] == 0,
    ensures
        hexval(d.skip(k as int)) == hexval(d),
    decreases k,
{
    if k > 0 {
        let kk = (k - 1) as nat;
        lemma_strip_zeros(d, kk);
        let t = d.skip(kk as int);
        assert(t[0] == d[k - 1]);
        lemma_hexval_leading_zero(t);
        assert(t.drop_first() == d.skip(k as int));
    } else {
        assert(d.skip(0) == d);
    }
}

/// Minecraft's "Mojang digest": the digest read as a signed big-endian number
/// and written out as Java's `new BigInteger(digest).toString(16)` does.
pub fn mojang_digest(bytes: &[u8; 20]) -> (s: String)
    ensures
        s@ == java_hex(signed_be_value(bytes@)),
{
    let b0: u8 = bytes[0];
    let negative = b0 & 0x80 != 0;
    assert(b0 & 0x80 != 0 <==> b0 >= 128) by (bit_vector);
    let ghost x = bytes@;
    let mut v: Vec<u8> = slice_to_vec(bytes.as_slice());
    proof {
        reveal_with_fuel(pow256, 2);
        lemma_be_bound(x);
        lemma_be_bound(x.drop_first());
        lemma_be_cons(x[0], x.drop_first());
        assert(seq![x[0]] + x.drop_first() == x);
        assert(pow256(20) == 256 * pow256(19));
        let p = pow256(19);
        let b0 = x[0] as nat;
        if negative {
            assert(b0 * p >= 128 * p) by (nonlinear_arith)
                requires
                    b0 >= 128,
            ;
        } else {
            assert(b0 * p <= 127 * p) by (nonlinear_arith)
                requires
                    b0 <= 127,
            ;
        }
    }
    // From here on `v` holds the magnitude.
    if negative {
        let mut i: usize = 0;
        while i < 20
            invariant
                v@.len() == 20,
                i <= 20,
                x.len() == 20,
                forall|j: int| 0 <= j < i ==> v@[j] == (255 - x[j]) as u8,
                forall|j: int| i <= j < 20 ==> v@[j] == x[j],
            decreases 20 - i,
        {
            let b = v[i];
            assert(!b == (255 - b) as u8) by (bit_vector);
            v.set(i, !b);
            i = i + 1;
        }
        let ghost inv = v@;
        assert(inv == inverted(x));
        proof {
            lemma_be_inverted(x);
        }
        let mut carry: u16 = 1;
        let mut i: usize = 20;
        proof {
            assert(v@.subrange(20, 20).len() == 0);
            assert(inv.subrange(20, 20).len() == 0);
        }
        while i > 0
            invariant
                v@.len() == 20,
                inv.len() == 20,
                i <= 20,
                carry <= 1,
                v@.subrange(0, i as int) == inv.subrange(0, i as int),
                be_value(v@.subrange(i as int, 20)) + carry * pow256((20 - i) as nat)
                    == be_value(inv.subrange(i as int, 20)) + 1,
            decreases i,
        {
            i = i - 1;
            let vi: u8 = v[i];
            let sum: u16 = (vi as u16) + carry;
            let nb: u8 = #[verifier::truncate] ((sum & 0xFF) as u8);
            let nc: u16 = sum >> 8;
            assert(nb as int + 256 * nc == vi + carry) by (bit_vector)
                requires
                    sum == vi as u16 + carry,
                    carry <= 1,
                    nb == (sum & 0xFF) as u8,
                    nc == sum >> 8,
            ;
            assert(nc <= 1) by (bit_vector)
                requires
                    sum == vi as u16 + carry,
                    carry <= 1,
                    nc == sum >> 8,
            ;
            let ghost old_v = v@;
            assert(be_value(old_v.subrange(i + 1, 20)) + carry * pow256((19 - i) as nat)
                == be_value(inv.subrange(i + 1, 20)) + 1);
            v.set(i, nb);
            proof {
                assert(old_v[i as int] == inv[i as int]) by {
                    assert(old_v.subrange(0, i + 1)[i as int] == inv.subrange(0, i + 1)[i as int]);
                }
                let tail_old = old_v.subrange(i + 1, 20);
                assert(v@.subrange(i + 1, 20) == tail_old);
                assert(v@.subrange(i as int, 20) == seq![nb] + tail_old);
                assert(inv.subrange(i as int, 20) == seq![inv[i as int]] + inv.subrange(i + 1, 20));
                lemma_be_cons(nb, tail_old);
                lemma_be_cons(inv[i as int], inv.subrange(i + 1, 20));
                let p = pow256((19 - i) as nat);
                assert(pow256((20 - i) as nat) == 256 * p);
                let c = carry as int;
                let n1 = nc as int;
                let a = inv[i as int] as int;
                let bb = nb as int;
                assert(bb * p + n1 * (256 * p) == (a + c) * p) by (nonlinear_arith)
                    requires
                        bb + 256 * n1 == a + c,
                ;
                assert(tail_old.len() == 19 - i);
                assert(be_value(v@.subrange(i as int, 20)) == bb * p + be_value(tail_old));
                assert(be_value(inv.subrange(i as int, 20)) == a * p + be_value(inv.subrange(i + 1, 20)));
                assert(a * p + c * p == (a + c) * p) by (nonlinear_arith);
                assert(v@.subrange(0, i as int) == inv.subrange(0, i as int)) by {
                    assert(v@.subrange(0, i as int) == old_v.subrange(0, i as int));
                    assert(old_v.subrange(0, i as int) == old_v.subrange(0, i + 1).subrange(0, i as int));
                    assert(inv.subrange(0, i as int) == inv.subrange(0, i + 1).subrange(0, i as int));
                }
            }
            carry = nc;
        }
        proof {
            assert(v@.subrange(0, 20) == v@);
            assert(inv.subrange(0, 20) == inv);
            assert(pow256(20) == 256 * pow256(19));
            if carry == 1 {
                assert(false);
            }
        }
    }
    proof {
        assert(be_value(v@) == if negative { (-signed_be_value(x)) as nat } else { signed_be_value(x) as nat });
    }
    // Hex digits of the magnitude, leading zeros dropped (one digit kept).
    let mut nib: Vec<u8> = Vec::new();
    let mut i: usize = 0;
    while i < 20
        invariant
            v@.len() == 20,
            i <= 20,
            nib@ == nibbles(v@.subrange(0, i as int)),
        decreases 20 - i,
    {
        let b = v[i];
        nib.push(b / 16);
        nib.push(b % 16);
        proof {
            assert(nib@ == nibbles(v@.subrange(0, i + 1)));
        }
        i = i + 1;
    }
    assert(v@.subrange(0, 20) == v@);
    let mut start: usize = 0;
    while start < 39 && nib[start] == 0
        invariant
            nib@.len() == 40,
            start <= 39,
            forall|j: int| 0 <= j < start ==> nib@[j] == 0,
        decreases 39 - start,
    {
        start = start + 1;
    }
    let mut s = String::new();
    if negative {
        push_char(&mut s, '-');
    }
    let ghost head = s@;
    let mut k: usize = start;
    while k < 40
        invariant
            nib@.len() == 40,
            start <= k <= 40,
            forall|j: int| 0 <= j < 40 ==> nib@[j] < 16,
            s@ == head + digit_chars(nib@.subrange(start as int, k as int)),
        decreases 40 - k,
    {
        push_char(&mut s, hex_digit_exec(nib[k]));
        proof {
            assert(digit_chars(nib@.subrange(start as int, k + 1)) == digit_chars(nib@.subrange(start as int, k as int)).push(hex_digit(nib@[k as int] as nat)));
        }
        k = k + 1;
    }
    proof {
        let d = nib@.skip(start as int);
        assert(nib@.subrange(start as int, 40) == d);
        lemma_hexval_nibbles(v@);
        lemma_strip_zeros(nib@, start as nat);
        lemma_digit_chars(d);
    }
    s
}


/// The SHA-1 digest of `data`.
pub uninterp spec fn sha1_digest(data: Seq<u8>) -> Seq<u8>;

/// `sha1::Sha1` fed `data` and finalized; the digest is named by `sha1_digest`.
#[verifier::external_body]
fn sha1(data: &[u8]) -> (out: [u8; 20])
    ensures
        out@ == sha1_digest(data@),
{
    let mut h = Sha1::new();
    h.update(data);
    h.finalize().into()
}

/// The server-id hash of the session join: the Mojang digest of the SHA-1 of
/// the server id, the shared secret and the server's public key.
pub fn compute_server_id(server_id: &str, shared_secret: &[u8; 16], public_key: &[u8]) -> (s: String)
    ensures
        s@ == java_hex(signed_be_value(sha1_digest(server_id.spec_bytes() + shared_secret@ + public_key@))),
{
    let mut data: Vec<u8> = slice_to_vec(server_id.as_bytes());
    append_bytes(&mut data, shared_secret.as_slice());
    append_bytes(&mut data, public_key);
    let digest = sha1(data.as_slice());
    mojang_digest(&digest)
}

pub struct EncryptedLogin {
    pub encrypted_secret: Vec<u8>,
    pub encrypted_verify_token: Vec<u8>,
}

#[verifier::external_type_specification]
#[verifier::external_body]
pub struct ExRsaPublicKey(RsaPublicKey);

#[verifier::external_type_specification]
#[verifier::external_body]
pub struct ExSpkiError(rsa::pkcs8::spki::Error);

#[verifier::external_type_specification]
#[verifier::external_body]
pub struct ExRsaError(rsa::Error);

/// Whether `der` is a SubjectPublicKeyInfo holding an RSA public key that
/// `RsaPublicKey::from_public_key_der` accepts.
pub uninterp spec fn rsa_der_accepted(der: Seq<u8>) -> bool;

/// The modulus size in bytes (`PublicKeyParts::size`) of the RSA public key
/// that `der` holds.
pub uninterp spec fn rsa_der_modulus_len(der: Seq<u8>) -> nat;

/// Whether `c` is a PKCS#1 v1.5 encryption of `msg` under the RSA public key
/// that `der` holds (the padding is random, so many `c` are).
pub uninterp spec fn pkcs1v15_ciphertext_of(der: Seq<u8>, msg: Seq<u8>, c: Seq<u8>) -> bool;

/// A server's RSA public key, with the DER it was read from. Only
/// `rsa_key_from_der` builds one, so `der` is always the key's own encoding.
struct ServerKey {
    key: RsaPublicKey,
    der: Ghost<Seq<u8>>,
}

/// `RsaPublicKey::from_public_key_der`: whether it accepts `der` is named by
/// `rsa_der_accepted`; the key it reads is kept with `der`.
#[verifier::external_body]
fn rsa_key_from_der(der: &[u8]) -> (r: Result<ServerKey, rsa::pkcs8::spki::Error>)
    ensures
        r is Ok <==> rsa_der_accepted(der@),
        r matches Ok(k) ==> k.der@ == der@,
{
    match RsaPublicKey::from_public_key_der(der) {
        Ok(key) => Ok(ServerKey { key, der: Ghost(der@) }),
        Err(e) => Err(e),
    }
}

/// `RsaPublicKey::encrypt` with PKCS#1 v1.5 padding and the thread RNG. On a key
/// that `from_public_key_der` accepted (so its checks pass again), it fails
/// exactly when the message is longer than the modulus size less 11 bytes
/// (`MessageTooLong`), and the ciphertext, as long as the modulus, is an
/// encryption of `msg` under that key. The padding is random, so which of the
/// encryptions comes back is not stated.
#[verifier::external_body]
fn rsa_pkcs1v15_encrypt(key: &ServerKey, msg: &[u8]) -> (r: Result<Vec<u8>, rsa::Error>)
    requires
        rsa_der_accepted(key.der@),
        msg@.len() + 11 <= usize::MAX,
    ensures
        r is Ok <==> msg@.len() + 11 <= rsa_der_modulus_len(key.der@),
        r matches Ok(c) ==> c@.len() == rsa_der_modulus_len(key.der@),
        r matches Ok(c) ==> pkcs1v15_ciphertext_of(key.der@, msg@, c@),
{
    key.key.encrypt(&mut rand::thread_rng(), Pkcs1v15Encrypt, msg)
}

/// Whether a login can be encrypted under the key in `der` with a verify
/// token of `token_len` bytes: the key is accepted and its modulus leaves room
/// for PKCS#1 v1.5 padding around both the 16-byte secret and the token.
pub open spec fn login_encryptable(der: Seq<u8>, token_len: nat) -> bool {
    &&& rsa_der_accepted(der)
    &&& 16 + 11 <= rsa_der_modulus_len(der)
    &&& token_len + 11 <= rsa_der_modulus_len(der)
}

/// Encrypts the shared secret and the verify token with the server's public
/// key for the encryption response. It succeeds exactly when the key is
/// accepted and both fit under it; each ciphertext is as long as the modulus.
pub fn encrypt_login(public_key_der: &[u8], shared_secret: &[u8; 16], verify_token: &[u8]) -> (r: Result<EncryptedLogin, String>)
    requires
        verify_token@.len() + 11 <= usize::MAX,
    ensures
        r is Ok <==> login_encryptable(public_key_der@, verify_token@.len()),
        r matches Ok(l) ==> l.encrypted_secret@.len() == rsa_der_modulus_len(public_key_der@),
        r matches Ok(l) ==> l.encrypted_verify_token@.len() == rsa_der_modulus_len(public_key_der@),
        r matches Ok(l) ==> pkcs1v15_ciphertext_of(public_key_der@, shared_secret@, l.encrypted_secret@),
        r matches Ok(l) ==> pkcs1v15_ciphertext_of(public_key_der@, verify_token@, l.encrypted_verify_token@),
{
    let pub_key = match rsa_key_from_der(public_key_der) {
        Ok(k) => k,
        Err(e) => return Err(e.to_string()),
    };
    let encrypted_secret = match rsa_pkcs1v15_encrypt(&pub_key, shared_secret.as_slice()) {
        Ok(c) => c,
        Err(e) => return Err(e.to_string()),
    };
    let encrypted_verify_token = match rsa_pkcs1v15_encrypt(&pub_key, verify_token) {
        Ok(c) => c,
        Err(e) => return Err(e.to_string()),
    };
    Ok(EncryptedLogin { encrypted_secret, encrypted_verify_token })
}

/// A fresh random 16-byte shared secret from the thread RNG.
#[verifier::external_body]
pub fn generate_shared_secret() -> [u8; 16] {
    let mut key = [0u8; 16];
    rand::thread_rng().fill_bytes(&mut key);
    key
}

/// The characters of `s` other than '-'.
pub open spec fn without_dashes(s: Seq<char>) -> Seq<char> {
    s.filter(|c: char| c != '-')
}

/// Strips the dashes from a UUID string (the form the session server expects).
pub fn uuid_without_dashes(uuid: &str) -> (r: String)
    ensures
        r@ == without_dashes(uuid@),
{
    let mut out = String::new();
    let n = uuid.unicode_len();
    let mut i: usize = 0;
    while i < n
        invariant
            n == uuid@.len(),
            i <= n,
            out@ == without_dashes(uuid@.subrange(0, i as int)),
        decreases n - i,
    {
        let c = uuid.get_char(i);
        proof {
            reveal_with_fuel(Seq::<_>::filter, 1);
            assert(uuid@.subrange(0, i + 1).drop_last() == uuid@.subrange(0, i as int));
        }
        if c != '-' {
            push_char(&mut out, c);
        }
        i = i + 1;
    }
    assert(uuid@.subrange(0, n as int) == uuid@);
    out
}


pub open spec fn is_hex_byte(b: u8) -> bool {
    (48 <= b <= 57) || (97 <= b <= 102) || (65 <= b <= 70)
}

pub open spec fn hex_byte_value(b: u8) -> nat {
    if 48 <= b <= 57 {
        (b - 48) as nat
    } else if 97 <= b <= 102 {
        (b - 87) as nat
    } else {
        (b - 55) as nat
    }
}

/// `u8::from_str_radix` on two bytes in base 16 (a leading '+' being a sign),
/// with 0 where it fails.
pub open spec fn hex_pair_or_zero(a: u8, b: u8) -> u8 {
    if is_hex_byte(a) && is_hex_byte(b) {
        (hex_byte_value(a) * 16 + hex_byte_value(b)) as u8
    } else if a == 43 && is_hex_byte(b) {
        hex_byte_value(b) as u8
    } else {
        0
    }
}

/// The UTF-8 bytes of the UUID without its dashes.
pub open spec fn uuid_hex_bytes(uuid: Seq<char>) -> Seq<u8> {
    encode_utf8(without_dashes(uuid))
}

/// The 16 raw UUID bytes: when the dashless form is 32 bytes long, each pair
/// of bytes read as hex (0 where a pair is not hex); otherwise all zero.
pub open spec fn uuid_bytes_spec(uuid: Seq<char>) -> Seq<u8> {
    let cb = uuid_hex_bytes(uuid);
    if cb.len() == 32 {
        Seq::new(16, |i: int| hex_pair_or_zero(cb[2 * i], cb[2 * i + 1]))
    } else {
        Seq::new(16, |i: int| 0u8)
    }
}

/// Where every pair of the 32-byte dashless form starts on a character
/// boundary, so that slicing out a pair cannot split a character.
pub open spec fn uuid_pairs_on_boundaries(uuid: Seq<char>) -> bool {
    let cb = uuid_hex_bytes(uuid);
    cb.len() == 32 ==> forall|i: int| 0 <= i < 16 ==> #[trigger] is_char_boundary(cb, 2 * i)
}

fn hex_byte_exec(b: u8) -> (r: Option<u8>)
    ensures
        r is Some <==> is_hex_byte(b),
        r matches Some(v) ==> v == hex_byte_value(b) && v < 16,
{
    if 48 <= b && b <= 57 {
        Some(b - 48)
    } else if 97 <= b && b <= 102 {
        Some(b - 87)
    } else if 65 <= b && b <= 70 {
        Some(b - 55)
    } else {
        None
    }
}

fn hex_pair(a: u8, b: u8) -> (r: u8)
    ensures
        r == hex_pair_or_zero(a, b),
{
    match (hex_byte_exec(a), hex_byte_exec(b)) {
        (Some(x), Some(y)) => x * 16 + y,
        (None, Some(y)) => if a == 43 { y } else { 0 },
        _ => 0,
    }
}

/// Converts a UUID string (with or without dashes) into its 16 raw bytes, as
/// written in the 1.19.1+ login start packet.
pub fn uuid_bytes(uuid: &str) -> (out: [u8; 16])
    requires
        uuid_pairs_on_boundaries(uuid@),
    ensures
        out@ == uuid_bytes_spec(uuid@),
{
    let cleaned = uuid_without_dashes(uuid);
    let cb = cleaned.as_str().as_bytes();
    let mut out = [0u8; 16];
    if cb.len() == 32 {
        let mut i: usize = 0;
        while i < 16
            invariant
                cb@.len() == 32,
                cb@ == uuid_hex_bytes(uuid@),
                i <= 16,
                forall|j: int| 0 <= j < i ==> out@[j] == hex_pair_or_zero(cb@[2 * j], cb@[2 * j + 1]),
                forall|j: int| i <= j < 16 ==> out@[j] == 0,
            decreases 16 - i,
        {
            out[i] = hex_pair(cb[2 * i], cb[2 * i + 1]);
            i = i + 1;
        }
    }
    assert(out@ == uuid_bytes_spec(uuid@));
    out
}

proof fn lemma_hex_digit_byte(d: nat)
    requires
        d < 16,
    ensures
        is_hex_byte(hex_digit(d) as u8),
        hex_byte_value(hex_digit(d) as u8) == d,
        '\0' <= hex_digit(d) <= '\u{7f}',
        hex_digit(d) != '-',
{
}

proof fn lemma_hex_spec_at(bytes: Seq<u8>)
    ensures
        hex_spec(bytes).len() == 2 * bytes.len(),
        forall|i: int| 0 <= i < bytes.len() ==> hex_spec(bytes)[2 * i] == hex_digit((#[trigger] bytes[i] / 16) as nat)
            && hex_spec(bytes)[2 * i + 1] == hex_digit((bytes[i] % 16) as nat),
    decreases bytes.len(),
{
    if bytes.len() > 0 {
        let init = bytes.drop_last();
        lemma_hex_spec_at(init);
        assert forall|i: int| 0 <= i < bytes.len() implies hex_spec(bytes)[2 * i] == hex_digit((#[trigger] bytes[i] / 16) as nat)
            && hex_spec(bytes)[2 * i + 1] == hex_digit((bytes[i] % 16) as nat) by {
            if i < init.len() {
                assert(init[i] == bytes[i]);
            }
        }
    }
}

proof fn lemma_no_dashes_kept(s: Seq<char>)
    requires
        forall|i: int| 0 <= i < s.len() ==> s[i] != '-',
    ensures
        without_dashes(s) == s,
    decreases s.len(),
{
    reveal_with_fuel(Seq::<_>::filter, 1);
    if s.len() > 0 {
        lemma_no_dashes_kept(s.drop_last());
        assert(s.drop_last().push(s.last()) == s);
    }
}

/// The hex of 16 bytes reads back as those bytes: `uuid_bytes` undoes `hex`
/// on a UUID's raw form, and that hex meets its precondition.
pub proof fn lemma_uuid_bytes_of_hex(b: Seq<u8>)
    requires
        b.len() == 16,
    ensures
        uuid_pairs_on_boundaries(hex_spec(b)),
        uuid_bytes_spec(hex_spec(b)) == b,
{
    let h = hex_spec(b);
    lemma_hex_spec_at(b);
    assert forall|k: int| 0 <= k < h.len() implies '\0' <= #[trigger] h[k] <= '\u{7f}' && h[k] != '-' by {
        let i = k / 2;
        assert(0 <= i < 16);
        assert(h[2 * i] == hex_digit((b[i] / 16) as nat));
        lemma_hex_digit_byte((b[i] / 16) as nat);
        lemma_hex_digit_byte((b[i] % 16) as nat);
        if k % 2 == 0 {
            assert(k == 2 * i);
        } else {
            assert(k == 2 * i + 1);
        }
    }
    lemma_no_dashes_kept(h);
    assert(is_ascii_chars(h));
    is_ascii_chars_encode_utf8(h);
    let cb = uuid_hex_bytes(h);
    assert(cb == encode_utf8(h));
    assert(cb.len() == 32);
    encode_utf8_valid_utf8(h);
    assert forall|i: int| 0 <= i < 16 implies #[trigger] is_char_boundary(cb, 2 * i) by {
        assert(h[2 * i] as u8 == cb[2 * i]);
        is_char_boundary_iff_not_is_continuation_byte(cb, 2 * i);
    }
    assert forall|i: int| 0 <= i < 16 implies hex_pair_or_zero(cb[2 * i], cb[2 * i + 1]) == #[trigger] b[i] by {
        let hi = (b[i] / 16) as nat;
        let lo = (b[i] % 16) as nat;
        lemma_hex_digit_byte(hi);
        lemma_hex_digit_byte(lo);
        assert(h[2 * i] as u8 == cb[2 * i]);
        assert(h[2 * i + 1] as u8 == cb[2 * i + 1]);
        assert(hi * 16 + lo == b[i]);
    }
    assert(uuid_bytes_spec(h) == b);
}

} // verus!
