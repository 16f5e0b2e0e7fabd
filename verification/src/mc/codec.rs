use vstd::prelude::*;
use vstd::utf8::*;
use vstd::slice::{slice_subrange, slice_to_vec};
use crate::text::utf8_str;
use aes::cipher::generic_array::GenericArray;
use aes::cipher::{BlockEncrypt, KeyInit};
use aes::Aes128;
use flate2::read::ZlibDecoder;
use std::io::{Read, Write};
use crate::text::{with_decimal, append_bytes};
#[allow(unused_imports)]
use crate::text::decimal_int;

verus! {

/// The 7-bit groups of `u`, least significant first, each group but the last
/// carrying the continuation bit.
pub open spec fn varint_spec(u: nat) -> Seq<u8>
    decreases u,
{
    if u < 128 {
        seq![u as u8]
    } else {
        seq![(u % 128 + 128) as u8] + varint_spec(u / 128)
    }
}

/// The unsigned value that a varint encoding of `v` carries: the bits of `v`
/// read as an unsigned 32-bit integer.
pub open spec fn varint_unsigned(v: i32) -> nat {
    (v as u32) as nat
}

/// `varint_bytes` as a spec function.
pub open spec fn varint_encoding(v: i32) -> Seq<u8> {
    varint_spec(varint_unsigned(v))
}

proof fn lemma_varint_step(val: u32)
    ensures
        val & 0x7f == val % 128,
        val >> 7 == val / 128,
        ((val & 0x7f) as u8) | 0x80 == ((val % 128) + 128) as u8,
        (val & 0x7f) as u8 == (val % 128) as u8,
{
    assert(val & 0x7f == val % 128) by (bit_vector);
    assert(val >> 7 == val / 128) by (bit_vector);
    assert(((val & 0x7f) as u8) | 0x80 == ((val % 128) + 128) as u8) by (bit_vector);
    assert((val & 0x7f) as u8 == (val % 128) as u8) by (bit_vector);
}

/// Encodes `v` as a Minecraft protocol varint (negative values take five bytes).
pub fn varint_bytes(v: i32) -> (out: Vec<u8>)
    ensures
        out@ == varint_encoding(v),
{
    let mut out: Vec<u8> = Vec::new();
    let mut val: u32 = #[verifier::truncate] (v as u32);
    loop
        invariant_except_break
            out@ + varint_spec(val as nat) == varint_encoding(v),
        ensures
            out@ == varint_encoding(v),
        decreases val,
    {
        proof {
            lemma_varint_step(val);
        }
        let mut b: u8 = (val & 0x7F) as u8;
        let ghost old_val = val;
        let ghost old_out = out@;
        val = val >> 7;
        if val != 0 {
            b = b | 0x80;
        }
        out.push(b);
        if val == 0 {
            assert(varint_spec(old_val as nat) == seq![b]);
            break;
        }
        assert(old_out + varint_spec(old_val as nat) == out@ + varint_spec(val as nat)) by {
            assert(varint_spec(old_val as nat) == seq![b] + varint_spec(val as nat));
            assert(old_out + (seq![b] + varint_spec(val as nat)) == (old_out + seq![b]) + varint_spec(val as nat));
        }
    }
    out
}


pub open spec fn pow128(i: nat) -> nat
    decreases i,
{
    if i == 0 {
        1
    } else {
        128 * pow128((i - 1) as nat)
    }
}

/// The number that the low seven bits of the first `n` bytes of `data` spell,
/// least significant group first.
pub open spec fn varint_acc(data: Seq<u8>, n: nat) -> nat
    decreases n,
{
    if n == 0 {
        0
    } else {
        varint_acc(data, (n - 1) as nat) + (data[n - 1] % 128) as nat * pow128((n - 1) as nat)
    }
}

/// Length of the varint that starts at `data[i]`'s group, counting from the
/// start of `data`: the first byte at index `>= i` without its high bit, among
/// the first five bytes.
pub open spec fn varint_end_from(data: Seq<u8>, i: nat) -> Option<nat>
    decreases 5 - i,
{
    if i >= 5 || i >= data.len() {
        None
    } else if data[i as int] < 128 {
        Some(i + 1)
    } else {
        varint_end_from(data, i + 1)
    }
}

/// What `parse_varint` reads: the value (the low 32 bits of the groups, as an
/// `i32`) and the number of bytes it takes.
pub open spec fn parse_varint_spec(data: Seq<u8>) -> Option<(i32, nat)> {
    match varint_end_from(data, 0) {
        Some(n) => Some(((varint_acc(data, n) % 0x1_0000_0000) as u32 as i32, n)),
        None => None,
    }
}

/// The message of a malformed varint.
pub open spec fn invalid_varint_msg() -> Seq<char> {
    "invalid varint"@
}

/// Parses a varint from the start of `data`, returning (value, bytes consumed).
pub fn parse_varint(data: &[u8]) -> (r: Result<(i32, usize), String>)
    ensures
        r is Ok <==> parse_varint_spec(data@) is Some,
        r matches Ok((v, n)) ==> parse_varint_spec(data@) == Some((v, n as nat)),
        r matches Err(e) ==> e@ == invalid_varint_msg(),
        r matches Ok((v, n)) ==> 1 <= n <= 5 && n <= data@.len(),
{
    proof {
        lemma_end_from_bounds(data@, 0);
    }
    let mut acc: u64 = 0;
    let mut mult: u64 = 1;
    let mut i: usize = 0;
    while i < data.len() && i < 5
        invariant
            i <= 5,
            mult == pow128(i as nat),
            acc == varint_acc(data@, i as nat),
            acc < pow128(i as nat),
            forall|j: int| 0 <= j < i ==> data@[j] >= 128,
            varint_end_from(data@, 0) == varint_end_from(data@, i as nat),
        decreases 5 - i,
    {
        let b = data[i];
        assert(b & 0x7f == b % 128) by (bit_vector);
        assert(b & 0x80 == 0 <==> b < 128) by (bit_vector);
        proof {
            assert(pow128(i as nat) <= pow128(4)) by {
                lemma_pow128_mono(i as nat, 4);
            }
            reveal_with_fuel(pow128, 5);
            let bb = (b % 128) as int;
            let m = mult as int;
            assert(bb * m <= 127 * m) by (nonlinear_arith)
                requires
                    0 <= bb < 128,
                    0 <= m,
            ;
        }
        acc = acc + ((b & 0x7F) as u64) * mult;
        i = i + 1;
        if b & 0x80 == 0 {
            proof {
                reveal_with_fuel(pow128, 5);
                assert(acc < 0x1_0000_0000 * 8);
            }
            let low: u32 = (acc % 0x1_0000_0000) as u32;
            return Ok((#[verifier::truncate] (low as i32), i));
        }
        mult = mult * 128;
    }
    Err(String::from_str("invalid varint"))
}

proof fn lemma_end_from_bounds(data: Seq<u8>, i: nat)
    ensures
        varint_end_from(data, i) matches Some(n) ==> i < n <= 5 && n <= data.len(),
    decreases 5 - i,
{
    if i < 5 && i < data.len() && data[i as int] >= 128 {
        lemma_end_from_bounds(data, i + 1);
    }
}

proof fn lemma_pow128_mono(i: nat, j: nat)
    requires
        i <= j,
    ensures
        pow128(i) <= pow128(j),
    decreases j - i,
{
    if i < j {
        lemma_pow128_mono(i, (j - 1) as nat);
    }
}


proof fn lemma_varint_spec_shape(u: nat, k: nat)
    requires
        k >= 1,
        u < pow128(k),
    ensures
        1 <= varint_spec(u).len() <= k,
        varint_spec(u)[varint_spec(u).len() - 1] < 128,
        forall|j: int| 0 <= j < varint_spec(u).len() - 1 ==> varint_spec(u)[j] >= 128,
        varint_acc(varint_spec(u), varint_spec(u).len()) == u,
    decreases u,
{
    let s = varint_spec(u);
    if u < 128 {
        assert(s == seq![u as u8]);
        assert(s[0] as nat == u);
        assert(varint_acc(s, 0) == 0);
        let x0 = (s[0] % 128) as nat;
        assert(x0 * pow128(0) == x0) by (nonlinear_arith)
            requires
                pow128(0) == 1,
        ;
        assert(varint_acc(s, 1) == varint_acc(s, 0) + (s[0] % 128) as nat * pow128(0));
    } else {
        let t = varint_spec(u / 128);
        let b = (u % 128 + 128) as u8;
        assert(s == seq![b] + t);
        assert(k >= 2) by {
            if k == 1 {
                assert(pow128(1) == 128 * pow128(0));
            }
        }
        assert(u / 128 < pow128((k - 1) as nat)) by {
            assert(pow128(k) == 128 * pow128((k - 1) as nat));
        }
        lemma_varint_spec_shape(u / 128, (k - 1) as nat);
        lemma_acc_cons(b, t, t.len());
        assert(seq![b] + t == s);
        assert(b % 128 == u % 128) by {
            let r = u % 128;
            assert(b as int == r + 128);
        }
        assert(s.len() == t.len() + 1);
        assert(u == u % 128 + 128 * (u / 128));
    }
}

/// Prepending one byte shifts the groups by one place.
proof fn lemma_acc_cons(b: u8, t: Seq<u8>, n: nat)
    requires
        n <= t.len(),
    ensures
        varint_acc(seq![b] + t, n + 1) == (b % 128) as nat + 128 * varint_acc(t, n),
    decreases n,
{
    let w = seq![b] + t;
    assert(w[0] == b);
    if n == 0 {
        assert(varint_acc(w, 1) == varint_acc(w, 0) + (w[0] % 128) as nat * pow128(0));
        assert(varint_acc(t, 0) == 0);
        assert(varint_acc(w, 0) == 0);
        let x0 = (w[0] % 128) as nat;
        assert(x0 * pow128(0) == x0) by (nonlinear_arith)
            requires
                pow128(0) == 1,
        ;
    } else {
        lemma_acc_cons(b, t, (n - 1) as nat);
        assert(w[n as int] == t[n - 1]);
        let x = (t[n - 1] % 128) as nat;
        let p = pow128((n - 1) as nat);
        assert(pow128(n) == 128 * p);
        assert(x * (128 * p) == 128 * (x * p)) by (nonlinear_arith);
        assert(varint_acc(w, n + 1) == varint_acc(w, n) + x * pow128(n));
        assert(varint_acc(t, n) == varint_acc(t, (n - 1) as nat) + x * p);
        assert(varint_acc(w, n) == (b % 128) as nat + 128 * varint_acc(t, (n - 1) as nat));
        assert(128 * varint_acc(t, n) == 128 * varint_acc(t, (n - 1) as nat) + 128 * (x * p));
    }
}

/// Only the first `n` bytes count.
proof fn lemma_acc_prefix(s: Seq<u8>, rest: Seq<u8>, n: nat)
    requires
        n <= s.len(),
    ensures
        varint_acc(s + rest, n) == varint_acc(s, n),
    decreases n,
{
    if n > 0 {
        lemma_acc_prefix(s, rest, (n - 1) as nat);
        assert((s + rest)[n - 1] == s[n - 1]);
    }
}

proof fn lemma_end_from(w: Seq<u8>, len: nat, i: nat)
    requires
        1 <= len <= 5,
        len <= w.len(),
        i < len,
        w[len - 1] < 128,
        forall|j: int| 0 <= j < len - 1 ==> w[j] >= 128,
    ensures
        varint_end_from(w, i) == Some(len),
    decreases len - i,
{
    if i + 1 < len {
        lemma_end_from(w, len, i + 1);
    }
}

/// Reading back what `varint_bytes` wrote, whatever follows it, gives the
/// value and the length that were written.
/// The number that 7-bit groups `s` carry, the first group lowest.
pub open spec fn groups_value(s: Seq<u8>) -> nat
    decreases s.len(),
{
    if s.len() == 0 {
        0
    } else {
        (s[0] % 128) as nat + 128 * groups_value(s.drop_first())
    }
}

proof fn lemma_varint_spec_groups(u: nat)
    ensures
        groups_value(varint_spec(u)) == u,
        varint_spec(u).len() >= 1,
        varint_spec(u).last() < 128,
        forall|i: int| 0 <= i < varint_spec(u).len() - 1 ==> #[trigger] varint_spec(u)[i] >= 128,
    decreases u,
{
    if u >= 128 {
        lemma_varint_spec_groups(u / 128);
        let s = varint_spec(u);
        let t = varint_spec(u / 128);
        assert(s == seq![(u % 128 + 128) as u8] + t);
        assert(s.drop_first() == t);
        assert(s[0] % 128 == u % 128);
        assert forall|i: int| 0 <= i < s.len() - 1 implies #[trigger] s[i] >= 128 by {
            if i > 0 {
                assert(s[i] == t[i - 1]);
            }
        }
        assert(groups_value(s) == (s[0] % 128) as nat + 128 * groups_value(t));
        assert(u == u % 128 + 128 * (u / 128));
    } else {
        let s = varint_spec(u);
        assert(s.drop_first().len() == 0);
        assert(groups_value(s.drop_first()) == 0);
        assert(s[0] % 128 == u);
    }
}

/// What a varint is: one to five bytes, every byte but the last with its
/// high bit set, the last without; read as 7-bit groups, lowest first, they
/// give the value's 32 bits as an unsigned number.
pub proof fn lemma_varint_shape(v: i32)
    ensures
        1 <= varint_encoding(v).len() <= 5,
        varint_encoding(v).last() < 128,
        forall|i: int| 0 <= i < varint_encoding(v).len() - 1 ==> #[trigger] varint_encoding(v)[i] >= 128,
        groups_value(varint_encoding(v)) == (v as u32) as nat,
{
    lemma_varint_spec_groups(varint_unsigned(v));
    lemma_varint_roundtrip(v, Seq::empty());
}

pub proof fn lemma_varint_roundtrip(v: i32, rest: Seq<u8>)
    ensures
        parse_varint_spec(varint_encoding(v) + rest) == Some((v, varint_encoding(v).len())),
        1 <= varint_encoding(v).len() <= 5,
{
    let u = varint_unsigned(v);
    let s = varint_spec(u);
    reveal_with_fuel(pow128, 6);
    lemma_varint_spec_shape(u, 5);
    let w = s + rest;
    lemma_end_from(w, s.len(), 0);
    lemma_acc_prefix(s, rest, s.len());
    assert(varint_acc(w, s.len()) == u);
    assert(u % 0x1_0000_0000 == u);
    let vu = v as u32;
    assert((vu as i32) == v) by (bit_vector)
        requires
            vu == v as u32,
    ;
}


/// What `parse_string` reads from `data`: the decoded text and the number of
/// bytes taken (the length prefix and the text), or the reason it fails.
pub open spec fn parse_string_spec(data: Seq<u8>) -> Result<(Seq<char>, nat), StringParseFailure> {
    match parse_varint_spec(data) {
        None => Err(StringParseFailure::BadVarint),
        Some((len, i)) => if len < 0 || i + len > data.len() {
            Err(StringParseFailure::BadLength)
        } else if !valid_utf8(data.subrange(i as int, i + len)) {
            Err(StringParseFailure::BadUtf8)
        } else {
            Ok((decode_utf8(data.subrange(i as int, i + len)), i + len as nat))
        },
    }
}

/// A string written behind its varint byte length reads back whole, whatever
/// follows it: `parse_string` gives the string and the length of the prefix and
/// the bytes together.
pub proof fn lemma_string_roundtrip(text: Seq<char>, rest: Seq<u8>)
    requires
        encode_utf8(text).len() <= i32::MAX,
    ensures
        parse_string_spec(varint_encoding(encode_utf8(text).len() as i32) + encode_utf8(text) + rest)
            == Ok::<(Seq<char>, nat), StringParseFailure>((text, varint_encoding(encode_utf8(text).len() as i32).len() + encode_utf8(text).len())),
{
    let b = encode_utf8(text);
    let len = b.len() as i32;
    let pre = varint_encoding(len);
    let data = pre + b + rest;
    assert(data == pre + (b + rest));
    lemma_varint_roundtrip(len, b + rest);
    assert(data.subrange(pre.len() as int, pre.len() + len) == b);
    encode_utf8_valid_utf8(text);
    encode_utf8_decode_utf8(text);
}

/// Why a length-prefixed string cannot be read.
pub ghost enum StringParseFailure {
    BadVarint,
    BadLength,
    BadUtf8,
}

pub open spec fn invalid_string_msg() -> Seq<char> {
    "invalid string"@
}

/// Parses a length-prefixed UTF-8 string from the start of `data`, returning
/// the string and the number of bytes consumed.
pub fn parse_string(data: &[u8]) -> (r: Result<(String, usize), String>)
    ensures
        r is Ok <==> parse_string_spec(data@) is Ok,
        r matches Ok((s, n)) ==> parse_string_spec(data@) == Ok::<(Seq<char>, nat), StringParseFailure>((s@, n as nat)),
        r matches Err(e) ==> (parse_string_spec(data@) == Err::<(Seq<char>, nat), StringParseFailure>(StringParseFailure::BadVarint) ==> e@ == invalid_varint_msg()),
        r matches Err(e) ==> (parse_string_spec(data@) == Err::<(Seq<char>, nat), StringParseFailure>(StringParseFailure::BadLength) ==> e@ == invalid_string_msg()),
{
    let (len, i) = parse_varint(data)?;
    if len < 0 || i + (len as usize) > data.len() {
        return Err(String::from_str("invalid string"));
    }
    let end: usize = i + len as usize;
    let bytes = slice_subrange(data, i, end);
    match utf8_str(bytes) {
        Ok(s) => Ok((String::from_str(s), end)),
        Err(e) => Err(e.to_string()),
    }
}


/// The AES-128 encryption of one 16-byte block under a 16-byte key.
pub uninterp spec fn aes128_block(key: Seq<u8>, block: Seq<u8>) -> Seq<u8>;

/// `aes::Aes128::encrypt_block` under the cipher that `Aes128::new` makes from
/// `key`: the result is named by `aes128_block`.
#[verifier::external_body]
fn aes128_encrypt(key: &[u8; 16], block: &[u8; 16]) -> (out: [u8; 16])
    ensures
        out@ == aes128_block(key@, block@),
{
    let cipher = Aes128::new(GenericArray::from_slice(key));
    let mut b = GenericArray::clone_from_slice(block);
    cipher.encrypt_block(&mut b);
    b.into()
}

/// The shift register after one byte: drop the oldest byte, append `c`.
pub open spec fn cfb8_shift(reg: Seq<u8>, c: u8) -> Seq<u8> {
    reg.subrange(1, reg.len() as int).push(c)
}

/// The register after processing `data`, starting from `reg0`. The register
/// takes in the ciphertext byte: the output when encrypting, the input when
/// decrypting.
pub open spec fn cfb8_reg(key: Seq<u8>, reg0: Seq<u8>, decrypting: bool, data: Seq<u8>) -> Seq<u8>
    decreases data.len(),
{
    if data.len() == 0 {
        reg0
    } else {
        let prev = cfb8_reg(key, reg0, decrypting, data.drop_last());
        let out = data.last() ^ aes128_block(key, prev)[0];
        cfb8_shift(prev, if decrypting { data.last() } else { out })
    }
}

/// The bytes that AES/CFB8 produces from `data`, starting from register `reg0`.
pub open spec fn cfb8_out(key: Seq<u8>, reg0: Seq<u8>, decrypting: bool, data: Seq<u8>) -> Seq<u8>
    decreases data.len(),
{
    if data.len() == 0 {
        data
    } else {
        let prev = cfb8_reg(key, reg0, decrypting, data.drop_last());
        cfb8_out(key, reg0, decrypting, data.drop_last()).push(
            data.last() ^ aes128_block(key, prev)[0],
        )
    }
}

/// AES/CFB8 stream cipher as used by the Minecraft protocol (the same key in
/// both directions, the key also being the initial register).
pub struct AesCfb8 {
    key: [u8; 16],
    reg: [u8; 16],
    decrypting: bool,
}

impl AesCfb8 {
    pub closed spec fn key(&self) -> Seq<u8> {
        self.key@
    }

    pub closed spec fn register(&self) -> Seq<u8> {
        self.reg@
    }

    pub closed spec fn is_decrypting(&self) -> bool {
        self.decrypting
    }

    pub fn new(key: &[u8; 16]) -> (c: Self)
        ensures
            c.key() == key@,
            c.register() == key@,
            !c.is_decrypting(),
    {
        AesCfb8 { key: *key, reg: *key, decrypting: false }
    }

    pub fn new_decrypt(key: &[u8; 16]) -> (c: Self)
        ensures
            c.key() == key@,
            c.register() == key@,
            c.is_decrypting(),
    {
        let mut c = Self::new(key);
        c.decrypting = true;
        c
    }

    /// Encrypts or decrypts `data` in place, continuing from the current register.
    pub fn process(&mut self, data: &mut [u8])
        ensures
            final(data)@ == cfb8_out(old(self).key(), old(self).register(), old(self).is_decrypting(), old(data)@),
            final(self).register() == cfb8_reg(old(self).key(), old(self).register(), old(self).is_decrypting(), old(data)@),
            final(self).key() == old(self).key(),
            final(self).is_decrypting() == old(self).is_decrypting(),
    {
        let ghost d0 = data@;
        let ghost r0 = self.reg@;
        let n = data.len();
        let mut i: usize = 0;
        while i < n
            invariant
                n == data@.len(),
                d0.len() == n,
                i <= n,
                self.key == old(self).key,
                self.decrypting == old(self).decrypting,
                r0 == old(self).reg@,
                d0 == old(data)@,
                data@.subrange(0, i as int) == cfb8_out(self.key@, r0, self.decrypting, d0.subrange(0, i as int)),
                data@.subrange(i as int, n as int) == d0.subrange(i as int, n as int),
                self.reg@ == cfb8_reg(self.key@, r0, self.decrypting, d0.subrange(0, i as int)),
            decreases n - i,
        {
            let block = aes128_encrypt(&self.key, &self.reg);
            let raw = data[i];
            assert(raw == d0[i as int]) by {
                assert(data@.subrange(i as int, n as int)[0] == d0.subrange(i as int, n as int)[0]);
            }
            let outb = raw ^ block[0];
            let ghost prev_data = data@;
            data[i] = outb;
            let c = if self.decrypting { raw } else { outb };
            let ghost old_reg = self.reg@;
            let mut j: usize = 0;
            while j < 15
                invariant
                    j <= 15,
                    forall|k: int| 0 <= k < j ==> self.reg@[k] == old_reg[k + 1],
                    forall|k: int| j <= k < 16 ==> self.reg@[k] == old_reg[k],
                    self.key == old(self).key,
                    self.decrypting == old(self).decrypting,
                decreases 15 - j,
            {
                self.reg[j] = self.reg[j + 1];
                j = j + 1;
            }
            self.reg[15] = c;
            proof {
                let pre = d0.subrange(0, i as int);
                let post = d0.subrange(0, i + 1);
                assert(post.drop_last() == pre);
                assert(post.last() == raw);
                assert(self.reg@ == cfb8_shift(old_reg, c));
                assert(data@ == prev_data.update(i as int, outb));
                assert(data@.subrange(0, i + 1) == prev_data.subrange(0, i as int).push(outb));
                assert(data@.subrange(i + 1, n as int) == prev_data.subrange(i + 1, n as int));
                assert(prev_data.subrange(i + 1, n as int) == prev_data.subrange(i as int, n as int).subrange(1, n - i));
                assert(d0.subrange(i + 1, n as int) == d0.subrange(i as int, n as int).subrange(1, n - i));
            }
            i = i + 1;
        }
        proof {
            assert(d0.subrange(0, n as int) == d0);
            assert(data@.subrange(0, n as int) == data@);
        }
    }
}


proof fn lemma_xor_cancel(x: u8, k: u8)
    ensures
        (x ^ k) ^ k == x,
{
    assert((x ^ k) ^ k == x) by (bit_vector);
}

/// Decrypting what was encrypted, from the same key and register, gives back
/// the plaintext, and both sides end with the same register.
pub proof fn lemma_cfb8_roundtrip(key: Seq<u8>, reg0: Seq<u8>, plain: Seq<u8>)
    ensures
        cfb8_out(key, reg0, true, cfb8_out(key, reg0, false, plain)) == plain,
        cfb8_reg(key, reg0, true, cfb8_out(key, reg0, false, plain)) == cfb8_reg(key, reg0, false, plain),
        cfb8_out(key, reg0, false, plain).len() == plain.len(),
    decreases plain.len(),
{
    if plain.len() > 0 {
        let p = plain.drop_last();
        lemma_cfb8_roundtrip(key, reg0, p);
        let c = cfb8_out(key, reg0, false, plain);
        let prev = cfb8_reg(key, reg0, false, p);
        let k = aes128_block(key, prev)[0];
        let cb = plain.last() ^ k;
        assert(c == cfb8_out(key, reg0, false, p).push(cb));
        assert(c.drop_last() == cfb8_out(key, reg0, false, p));
        assert(c.last() == cb);
        lemma_xor_cancel(plain.last(), k);
        assert(cfb8_out(key, reg0, true, c) == cfb8_out(key, reg0, true, c.drop_last()).push(cb ^ k));
        assert(plain == p.push(plain.last()));
    }
}

/// Processing `a` and then `b` is processing `a + b`: the cipher is a stream,
/// whatever the cut between two calls.
pub proof fn lemma_cfb8_concat(key: Seq<u8>, reg0: Seq<u8>, decrypting: bool, a: Seq<u8>, b: Seq<u8>)
    ensures
        cfb8_out(key, reg0, decrypting, a + b) == cfb8_out(key, reg0, decrypting, a) + cfb8_out(
            key,
            cfb8_reg(key, reg0, decrypting, a),
            decrypting,
            b,
        ),
        cfb8_reg(key, reg0, decrypting, a + b) == cfb8_reg(
            key,
            cfb8_reg(key, reg0, decrypting, a),
            decrypting,
            b,
        ),
    decreases b.len(),
{
    if b.len() == 0 {
        assert(a + b == a);
    } else {
        lemma_cfb8_concat(key, reg0, decrypting, a, b.drop_last());
        assert((a + b).drop_last() == a + b.drop_last());
        assert((a + b).last() == b.last());
    }
}


pub const MAX_PACKET_SIZE: usize = 2 * 1024 * 1024;

#[verifier::external_type_specification]
#[verifier::external_body]
pub struct ExIoError(std::io::Error);

/// The zlib stream that flate2 writes for `data` at its default level.
pub uninterp spec fn zlib_deflate(data: Seq<u8>) -> Seq<u8>;

/// What flate2's zlib decoder reads out of `data`, or `None` where it fails.
pub uninterp spec fn zlib_inflate(data: Seq<u8>) -> Option<Seq<u8>>;

/// `flate2::write::ZlibEncoder` at `Compression::default()`, fed `data` and
/// finished. It writes only into a `Vec`, so it does not fail. The stream it
/// writes is named by `zlib_deflate`; the decoder reads the same bytes back out
/// of it (zlib is lossless).
#[verifier::external_body]
fn zlib_compress(data: &[u8]) -> (r: Result<Vec<u8>, std::io::Error>)
    ensures
        r is Ok,
        r matches Ok(v) ==> v@ == zlib_deflate(data@),
        r matches Ok(v) ==> zlib_inflate(v@) == Some(data@),
{
    let mut enc = flate2::write::ZlibEncoder::new(Vec::new(), flate2::Compression::default());
    enc.write_all(data)?;
    enc.finish()
}

/// `flate2::read::ZlibDecoder` over `data`, read to the end. What it yields is
/// named by `zlib_inflate`.
#[verifier::external_body]
fn zlib_decompress(data: &[u8]) -> (r: Result<Vec<u8>, std::io::Error>)
    ensures
        r is Ok <==> zlib_inflate(data@) is Some,
        r matches Ok(v) ==> zlib_inflate(data@) == Some(v@),
{
    let mut dec = ZlibDecoder::new(data);
    let mut out = Vec::new();
    dec.read_to_end(&mut out)?;
    Ok(out)
}

/// A packet's body: the varint id, then the payload.
pub open spec fn packet_body(id: i32, payload: Seq<u8>) -> Seq<u8> {
    varint_encoding(id) + payload
}

/// `inner` behind its varint length.
pub open spec fn length_prefixed(inner: Seq<u8>) -> Seq<u8> {
    varint_encoding(inner.len() as i32) + inner
}

/// Whether a body of `len` bytes is sent compressed under `threshold`.
pub open spec fn compresses(threshold: i32, len: nat) -> bool {
    threshold >= 0 && len >= threshold
}

/// The frame that goes on the wire for packet `id` with `payload`: without
/// compression (threshold < 0) the length-prefixed body; with it, the body
/// behind its uncompressed length (0 for a body below the threshold, which
/// then travels as is) and the whole behind its length.
pub open spec fn frame_spec(id: i32, payload: Seq<u8>, threshold: i32) -> Seq<u8> {
    let body = packet_body(id, payload);
    if threshold >= 0 {
        if compresses(threshold, body.len()) {
            length_prefixed(varint_encoding(body.len() as i32) + zlib_deflate(body))
        } else {
            length_prefixed(varint_encoding(0) + body)
        }
    } else {
        length_prefixed(body)
    }
}

/// Which frame a packet travels in: with compression on (threshold >= 0),
/// a body of at least `threshold` bytes goes deflated behind its own length,
/// and a shorter one goes as it is behind a data length of 0; with
/// compression off, the body goes behind its length alone.
pub proof fn lemma_frame_compression(id: i32, payload: Seq<u8>, threshold: i32)
    ensures
        threshold >= 0 && packet_body(id, payload).len() >= threshold ==> frame_spec(id, payload, threshold)
            == length_prefixed(varint_encoding(packet_body(id, payload).len() as i32) + zlib_deflate(packet_body(id, payload))),
        threshold >= 0 && packet_body(id, payload).len() < threshold ==> frame_spec(id, payload, threshold)
            == length_prefixed(varint_encoding(0) + packet_body(id, payload)),
        threshold < 0 ==> frame_spec(id, payload, threshold) == length_prefixed(packet_body(id, payload)),
{
}

fn prefix_with_length(inner: Vec<u8>) -> (f: Vec<u8>)
    ensures
        f@ == length_prefixed(inner@),
{
    let mut f = varint_bytes(#[verifier::truncate] (inner.len() as i32));
    append_bytes(&mut f, inner.as_slice());
    f
}

/// Builds the frame for packet `id` with `payload` under the compression
/// `threshold` (negative: no compression). It always succeeds.
pub fn encode_packet(id: i32, payload: &[u8], threshold: i32) -> (r: Result<Vec<u8>, String>)
    ensures
        r matches Ok(f) ==> f@ == frame_spec(id, payload@, threshold),
        r is Ok,
        r matches Ok(f) ==> (threshold >= 0 && packet_body(id, payload@).len() >= threshold ==> f@ == length_prefixed(
            varint_encoding(packet_body(id, payload@).len() as i32) + zlib_deflate(packet_body(id, payload@)),
        )),
        r matches Ok(f) ==> (threshold >= 0 && packet_body(id, payload@).len() < threshold ==> f@ == length_prefixed(
            varint_encoding(0) + packet_body(id, payload@),
        )),
        r matches Ok(f) ==> (threshold < 0 ==> f@ == length_prefixed(packet_body(id, payload@))),
        r matches Ok(f) ==> (packet_body(id, payload@).len() <= i32::MAX && f@.len() <= i32::MAX
            ==> frame_reads_back(f@, id, payload@, threshold)),
{
    let mut body = varint_bytes(id);
    append_bytes(&mut body, payload);
    if threshold >= 0 {
        if body.len() >= threshold as usize {
            let comp = match zlib_compress(body.as_slice()) {
                Ok(c) => c,
                Err(e) => return Err(e.to_string()),
            };
            let mut inner = varint_bytes(#[verifier::truncate] (body.len() as i32));
            append_bytes(&mut inner, comp.as_slice());
            let f = prefix_with_length(inner);
            proof {
                if packet_body(id, payload@).len() <= i32::MAX && f@.len() <= i32::MAX {
                    lemma_frame_reads_back(id, payload@, threshold);
                }
            }
            Ok(f)
        } else {
            let mut inner = varint_bytes(0);
            append_bytes(&mut inner, body.as_slice());
            let f = prefix_with_length(inner);
            proof {
                if packet_body(id, payload@).len() <= i32::MAX && f@.len() <= i32::MAX {
                    lemma_frame_reads_back(id, payload@, threshold);
                }
            }
            Ok(f)
        }
    } else {
        let f = prefix_with_length(body);
        proof {
            if packet_body(id, payload@).len() <= i32::MAX && f@.len() <= i32::MAX {
                lemma_frame_reads_back(id, payload@, threshold);
            }
        }
        Ok(f)
    }
}

/// A frame reads back as the packet it was made from: its length prefix
/// covers the rest exactly, and the rest decodes (without an impossible size)
/// to the same id and payload.
pub open spec fn frame_reads_back(f: Seq<u8>, id: i32, payload: Seq<u8>, threshold: i32) -> bool {
    match parse_varint_spec(f) {
        Some((len, n)) => {
            &&& n + len == f.len()
            &&& decode_spec(f.skip(n as int), threshold) == Ok::<(i32, Seq<u8>), PacketFailure>((id, payload))
            &&& !announces_negative_size(f.skip(n as int), threshold)
        },
        None => false,
    }
}

proof fn lemma_prefixed_reads(inner: Seq<u8>)
    requires
        inner.len() <= i32::MAX,
    ensures
        parse_varint_spec(length_prefixed(inner)) == Some(
            (inner.len() as i32, varint_encoding(inner.len() as i32).len()),
        ),
        length_prefixed(inner).skip(varint_encoding(inner.len() as i32).len() as int) == inner,
        inner.len() as i32 == inner.len(),
{
    lemma_varint_roundtrip(inner.len() as i32, inner);
}

proof fn lemma_frame_reads_back(id: i32, payload: Seq<u8>, threshold: i32)
    requires
        packet_body(id, payload).len() <= i32::MAX,
        frame_spec(id, payload, threshold).len() <= i32::MAX,
        compresses(threshold, packet_body(id, payload).len()) ==> zlib_inflate(
            zlib_deflate(packet_body(id, payload)),
        ) == Some(packet_body(id, payload)),
    ensures
        frame_reads_back(frame_spec(id, payload, threshold), id, payload, threshold),
{
    let body = packet_body(id, payload);
    let f = frame_spec(id, payload, threshold);
    lemma_varint_roundtrip(id, payload);
    assert(body.skip(varint_encoding(id).len() as int) == payload);
    if threshold >= 0 {
        if compresses(threshold, body.len()) {
            let inner = varint_encoding(body.len() as i32) + zlib_deflate(body);
            lemma_prefixed_reads(inner);
            lemma_varint_roundtrip(body.len() as i32, zlib_deflate(body));
            assert(body.len() as i32 == body.len());
            assert(inner.skip(varint_encoding(body.len() as i32).len() as int) == zlib_deflate(body));
        } else {
            let inner = varint_encoding(0) + body;
            lemma_prefixed_reads(inner);
            lemma_varint_roundtrip(0, body);
            assert(inner.skip(varint_encoding(0).len() as int) == body);
        }
    } else {
        lemma_prefixed_reads(body);
    }
}

/// Why a received packet body cannot be read.
pub ghost enum PacketFailure {
    EmptyCompressed,
    BadVarint,
    Inflate,
}

/// The packet body once the compression layer is removed.
pub open spec fn uncompressed_body(data: Seq<u8>, threshold: i32) -> Result<Seq<u8>, PacketFailure> {
    if threshold >= 0 {
        if data.len() == 0 {
            Err(PacketFailure::EmptyCompressed)
        } else {
            match parse_varint_spec(data) {
                None => Err(PacketFailure::BadVarint),
                Some((ulen, c)) => if ulen == 0 {
                    Ok(data.skip(c as int))
                } else {
                    match zlib_inflate(data.skip(c as int)) {
                        None => Err(PacketFailure::Inflate),
                        Some(v) => Ok(v),
                    }
                },
            }
        }
    } else {
        Ok(data)
    }
}

/// What `decode_packet` reads from a received body: packet id and payload.
pub open spec fn decode_spec(data: Seq<u8>, threshold: i32) -> Result<(i32, Seq<u8>), PacketFailure> {
    match uncompressed_body(data, threshold) {
        Err(f) => Err(f),
        Ok(body) => match parse_varint_spec(body) {
            None => Err(PacketFailure::BadVarint),
            Some((id, c)) => Ok((id, body.skip(c as int))),
        },
    }
}

/// A compressed body that announces a negative uncompressed length: reading
/// it would ask for an impossible buffer.
pub open spec fn announces_negative_size(data: Seq<u8>, threshold: i32) -> bool {
    threshold >= 0 && data.len() > 0 && (parse_varint_spec(data) matches Some((ulen, _)) && ulen < 0)
}

pub open spec fn empty_compressed_msg() -> Seq<char> {
    "empty compressed packet"@
}

/// Reads packet id and payload from a received body (what follows the length
/// prefix).
pub fn decode_packet(data: &[u8], threshold: i32) -> (r: Result<(i32, Vec<u8>), String>)
    requires
        !announces_negative_size(data@, threshold),
    ensures
        r is Ok <==> decode_spec(data@, threshold) is Ok,
        r matches Ok((id, p)) ==> decode_spec(data@, threshold) == Ok::<(i32, Seq<u8>), PacketFailure>((id, p@)),
        r matches Err(e) ==> (decode_spec(data@, threshold) == Err::<(i32, Seq<u8>), PacketFailure>(PacketFailure::EmptyCompressed) ==> e@ == empty_compressed_msg()),
        r matches Err(e) ==> (decode_spec(data@, threshold) == Err::<(i32, Seq<u8>), PacketFailure>(PacketFailure::BadVarint) ==> e@ == invalid_varint_msg()),
{
    let body: Vec<u8>;
    if threshold >= 0 {
        if data.len() == 0 {
            return Err(String::from_str("empty compressed packet"));
        }
        let (uncompressed_len, consumed) = parse_varint(data)?;
        let rest = slice_subrange(data, consumed, data.len());
        if uncompressed_len == 0 {
            body = slice_to_vec(rest);
        } else {
            body = match zlib_decompress(rest) {
                Ok(v) => v,
                Err(e) => return Err(e.to_string()),
            };
        }
    } else {
        body = slice_to_vec(data);
    }
    let (id, consumed) = parse_varint(body.as_slice())?;
    let payload = slice_to_vec(slice_subrange(body.as_slice(), consumed, body.len()));
    Ok((id, payload))
}

pub open spec fn oversized_msg(len: i32) -> Seq<char> {
    "oversized packet: "@ + decimal_int(len as int)
}

/// Checks a received length prefix against the packet size limit.
pub fn check_packet_len(len: i32) -> (r: Result<usize, String>)
    ensures
        r is Ok <==> 0 <= len <= MAX_PACKET_SIZE,
        r matches Ok(n) ==> n == len,
        r matches Err(e) ==> e@ == oversized_msg(len),
{
    if len < 0 || len as usize > MAX_PACKET_SIZE {
        return Err(with_decimal("oversized packet: ", len as i64));
    }
    Ok(len as usize)
}


/// The protocol state of one connection: the ciphers once encryption is on,
/// and the compression threshold (negative: no compression).
pub struct StreamState {
    pub encrypt: Option<AesCfb8>,
    pub decrypt: Option<AesCfb8>,
    pub compression_threshold: i32,
}

/// A fresh cipher pair from one key: `enc` encrypts, `dec` decrypts, both
/// starting from the key as register.
pub open spec fn fresh_pair(enc: AesCfb8, dec: AesCfb8, key: Seq<u8>) -> bool {
    &&& enc.key() == key && enc.register() == key && !enc.is_decrypting()
    &&& dec.key() == key && dec.register() == key && dec.is_decrypting()
}

/// `after` is `before` once it has processed `data`.
pub open spec fn advanced_by(before: AesCfb8, after: AesCfb8, data: Seq<u8>) -> bool {
    &&& after.key() == before.key()
    &&& after.is_decrypting() == before.is_decrypting()
    &&& after.register() == cfb8_reg(before.key(), before.register(), before.is_decrypting(), data)
}

impl StreamState {
    pub fn new() -> (s: Self)
        ensures
            s.encrypt is None,
            s.decrypt is None,
            s.compression_threshold == -1,
    {
        StreamState { encrypt: None, decrypt: None, compression_threshold: -1 }
    }

    pub fn enable_encryption(&mut self, key: &[u8; 16])
        ensures
            final(self).encrypt matches Some(e) && final(self).decrypt matches Some(d) && fresh_pair(e, d, key@),
            final(self).compression_threshold == old(self).compression_threshold,
    {
        self.encrypt = Some(AesCfb8::new(key));
        self.decrypt = Some(AesCfb8::new_decrypt(key));
    }

    pub fn set_compression(&mut self, threshold: i32)
        ensures
            final(self).compression_threshold == threshold,
            final(self).encrypt == old(self).encrypt,
            final(self).decrypt == old(self).decrypt,
    {
        self.compression_threshold = threshold;
    }

    /// Encrypts outgoing bytes in place once encryption is on.
    pub fn encrypt_outgoing(&mut self, buf: &mut [u8])
        ensures
            match old(self).encrypt {
                Some(c) => {
                    &&& final(buf)@ == cfb8_out(c.key(), c.register(), c.is_decrypting(), old(buf)@)
                    &&& final(self).encrypt matches Some(c2) && advanced_by(c, c2, old(buf)@)
                },
                None => final(buf)@ == old(buf)@ && final(self).encrypt is None,
            },
            final(self).decrypt == old(self).decrypt,
            final(self).compression_threshold == old(self).compression_threshold,
    {
        if let Some(e) = &mut self.encrypt {
            e.process(buf);
        }
    }

    /// Decrypts incoming bytes in place once encryption is on.
    pub fn decrypt_incoming(&mut self, buf: &mut [u8])
        ensures
            match old(self).decrypt {
                Some(c) => {
                    &&& final(buf)@ == cfb8_out(c.key(), c.register(), c.is_decrypting(), old(buf)@)
                    &&& final(self).decrypt matches Some(c2) && advanced_by(c, c2, old(buf)@)
                },
                None => final(buf)@ == old(buf)@ && final(self).decrypt is None,
            },
            final(self).encrypt == old(self).encrypt,
            final(self).compression_threshold == old(self).compression_threshold,
    {
        if let Some(d) = &mut self.decrypt {
            d.process(buf);
        }
    }
}

/// Two ends of one connection agree: the same compression threshold, and
/// either no encryption on either end or the writer's encrypting cipher and the
/// reader's decrypting cipher on one key at the same register.
pub open spec fn streams_in_sync(w: StreamState, r: StreamState) -> bool {
    &&& w.compression_threshold == r.compression_threshold
    &&& match (w.encrypt, r.decrypt) {
        (None, None) => true,
        (Some(e), Some(d)) => {
            &&& e.key() == d.key()
            &&& e.register() == d.register()
            &&& !e.is_decrypting()
            &&& d.is_decrypting()
        },
        _ => false,
    }
}

/// The bytes that go on the wire when the writer sends `frame`.
pub open spec fn sent_bytes(w: StreamState, frame: Seq<u8>) -> Seq<u8> {
    match w.encrypt {
        Some(e) => cfb8_out(e.key(), e.register(), e.is_decrypting(), frame),
        None => frame,
    }
}

/// What the reader makes of `wire` bytes.
pub open spec fn received_bytes(r: StreamState, wire: Seq<u8>) -> Seq<u8> {
    match r.decrypt {
        Some(d) => cfb8_out(d.key(), d.register(), d.is_decrypting(), wire),
        None => wire,
    }
}

/// After the writer has sent `frame` and the reader has taken it in, their
/// registers still match.
pub open spec fn registers_agree_after(w: StreamState, r: StreamState, frame: Seq<u8>) -> bool {
    match (w.encrypt, r.decrypt) {
        (Some(e), Some(d)) => cfb8_reg(d.key(), d.register(), d.is_decrypting(), sent_bytes(w, frame))
            == cfb8_reg(e.key(), e.register(), e.is_decrypting(), frame),
        _ => true,
    }
}

/// A packet written on one end of a connection reads back on the other: when
/// both ends are in sync and the writer sends a frame that reads back as the
/// packet (as `encode_packet` ensures within the size limits), the reader
/// recovers exactly that frame, which decodes under its own threshold to the
/// same id and payload, and both ends stay in sync for the next packet.
/// (Reading the bytes in pieces gives the same, by `lemma_cfb8_concat`.)
pub proof fn lemma_packet_write_then_read(w: StreamState, r: StreamState, frame: Seq<u8>, id: i32, payload: Seq<u8>)
    requires
        streams_in_sync(w, r),
        frame_reads_back(frame, id, payload, w.compression_threshold),
    ensures
        received_bytes(r, sent_bytes(w, frame)) == frame,
        frame_reads_back(received_bytes(r, sent_bytes(w, frame)), id, payload, r.compression_threshold),
        registers_agree_after(w, r, frame),
{
    match (w.encrypt, r.decrypt) {
        (Some(e), Some(d)) => {
            lemma_cfb8_roundtrip(e.key(), e.register(), frame);
        },
        _ => {},
    }
}

/// The outcome of feeding one more byte to a `VarintReader`.
pub enum VarintProgress {
    Done(i32),
    More,
    TooLong,
}

/// Reads a varint one byte at a time, as bytes arrive from a stream.
pub struct VarintReader {
    acc: u64,
    count: usize,
    seen: Ghost<Seq<u8>>,
}

impl VarintReader {
    /// The bytes fed so far.
    pub closed spec fn bytes(&self) -> Seq<u8> {
        self.seen@
    }

    /// Between bytes: fewer than five fed, each with its continuation bit.
    pub closed spec fn wf(&self) -> bool {
        &&& self.count == self.seen@.len()
        &&& self.count < 5
        &&& forall|j: int| 0 <= j < self.count ==> self.seen@[j] >= 128
        &&& self.acc == varint_acc(self.seen@, self.count as nat)
        &&& self.acc < pow128(self.count as nat)
    }

    pub fn new() -> (r: Self)
        ensures
            r.wf(),
            r.bytes() == Seq::<u8>::empty(),
    {
        VarintReader { acc: 0, count: 0, seen: Ghost(Seq::empty()) }
    }

    /// Takes the next byte. `Done` carries what `parse_varint` reads from the
    /// bytes fed; `TooLong` comes at the fifth byte with its continuation bit
    /// set, where `parse_varint` fails.
    pub fn feed(&mut self, b: u8) -> (p: VarintProgress)
        requires
            old(self).wf(),
        ensures
            final(self).bytes() == old(self).bytes().push(b),
            p matches VarintProgress::Done(v) ==> parse_varint_spec(final(self).bytes()) == Some((v, final(self).bytes().len())),
            p is Done <==> b < 128,
            p is TooLong <==> (b >= 128 && final(self).bytes().len() == 5),
            p is TooLong ==> parse_varint_spec(final(self).bytes()) is None,
            p is More ==> final(self).wf(),
    {
        let ghost s = self.seen@.push(b);
        let ghost i = self.count as nat;
        proof {
            assert(pow128(i) <= pow128(4)) by {
                lemma_pow128_mono(i, 4);
            }
            reveal_with_fuel(pow128, 5);
            lemma_acc_prefix(self.seen@, seq![b], i);
            assert(self.seen@ + seq![b] == s);
            assert(s[i as int] == b);
            let bb = (b % 128) as int;
            let m = pow128(i) as int;
            assert(bb * m <= 127 * m) by (nonlinear_arith)
                requires
                    0 <= bb < 128,
                    0 <= m,
            ;
        }
        assert(b & 0x7f == b % 128) by (bit_vector);
        let mut mult: u64 = 1;
        let mut k: usize = 0;
        while k < self.count
            invariant
                k <= self.count,
                self.count < 5,
                mult == pow128(k as nat),
            decreases self.count - k,
        {
            proof {
                reveal_with_fuel(pow128, 5);
                lemma_pow128_mono(k as nat, 3);
            }
            mult = mult * 128;
            k = k + 1;
        }
        self.acc = self.acc + ((b & 0x7F) as u64) * mult;
        self.count = self.count + 1;
        self.seen = Ghost(s);
        proof {
            lemma_end_from_prefix(s, self.count as nat);
        }
        if b < 128 {
            proof {
                reveal_with_fuel(pow128, 5);
            }
            let low: u32 = (self.acc % 0x1_0000_0000) as u32;
            return VarintProgress::Done(#[verifier::truncate] (low as i32));
        }
        if self.count >= 5 {
            return VarintProgress::TooLong;
        }
        VarintProgress::More
    }
}

/// With every byte before index `n - 1` continuing and at most five bytes,
/// the varint ends at `n` when byte `n - 1` has no continuation bit, and
/// nowhere when five bytes all continue.
proof fn lemma_end_from_prefix(s: Seq<u8>, n: nat)
    requires
        1 <= n <= 5,
        n == s.len(),
        forall|j: int| 0 <= j < n - 1 ==> s[j] >= 128,
    ensures
        s[n - 1] < 128 ==> varint_end_from(s, 0) == Some(n),
        s[n - 1] >= 128 && n == 5 ==> varint_end_from(s, 0) is None,
{
    if s[n - 1] < 128 {
        lemma_end_from(s, n, 0);
    } else if n == 5 {
        lemma_end_from_none(s, 0);
    }
}

proof fn lemma_end_from_none(s: Seq<u8>, i: nat)
    requires
        s.len() == 5,
        i <= 5,
        forall|j: int| 0 <= j < 5 ==> s[j] >= 128,
    ensures
        varint_end_from(s, i) is None,
    decreases 5 - i,
{
    if i < 5 {
        lemma_end_from_none(s, i + 1);
    }
}

} // verus!
