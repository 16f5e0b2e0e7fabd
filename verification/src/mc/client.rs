//! The decisions of the hand-written Minecraft client used for the NameMC
//! claim (protocol versions 759 to 763, 1.19 to 1.20.1): packet layouts,
//! packet bodies, and what to do with each packet received.
use vstd::prelude::*;
use vstd::string::StringSliceAdditionalSpecFns;
use crate::mc::codec::{varint_bytes, varint_encoding, parse_varint, parse_varint_spec, parse_string, parse_string_spec, StringParseFailure, invalid_varint_msg, invalid_string_msg};
use crate::mc::codec::{lemma_varint_roundtrip, lemma_string_roundtrip};
use vstd::utf8::encode_utf8;
use vstd::slice::{slice_subrange, slice_to_vec};
use regex::Regex;
use crate::json::{Json, parse_json, json_of_text, get_spec};
use crate::mc::crypto::{uuid_bytes, uuid_bytes_spec, uuid_pairs_on_boundaries};
use crate::text::{append_bytes, lossy_string, utf8_lossy, occurs_at, contains_seq, chars_contain, with_str};
use crate::text::{str_chars, string_from_chars, char_is_alphanumeric, is_ascii_alphanumeric, unicode_alphanumeric};
use crate::text::{with_decimal, decimal_int};

verus! {

pub struct ClaimConfig {
    pub bearer_token: String,
    pub username: String,
    pub uuid: String,
    pub server: String,
    pub port: u16,
}

#[derive(Clone, Copy, PartialEq, Eq, Structural)]
pub enum Layout {
    V759,
    V761,
    V762,
    V763,
}

#[derive(Clone, Copy, PartialEq, Eq, Structural)]
pub enum ChatStyle {
    V759,
    V761,
    V763,
}

pub open spec fn layout_for(p: i32) -> Option<Layout> {
    if p == 759 {
        Some(Layout::V759)
    } else if p == 760 || p == 761 {
        Some(Layout::V761)
    } else if p == 762 {
        Some(Layout::V762)
    } else if p == 763 {
        Some(Layout::V763)
    } else {
        None
    }
}

impl Layout {
    pub fn for_protocol(p: i32) -> (r: Option<Layout>)
        ensures
            r == layout_for(p),
    {
        match p {
            759 => Some(Layout::V759),
            760 | 761 => Some(Layout::V761),
            762 => Some(Layout::V762),
            763 => Some(Layout::V763),
            _ => None,
        }
    }

    pub open spec fn protocol_spec(self) -> i32 {
        match self {
            Layout::V759 => 759,
            Layout::V761 => 761,
            Layout::V762 => 762,
            Layout::V763 => 763,
        }
    }

    pub fn protocol(self) -> (r: i32)
        ensures
            r == self.protocol_spec(),
    {
        match self {
            Layout::V759 => 759,
            Layout::V761 => 761,
            Layout::V762 => 762,
            Layout::V763 => 763,
        }
    }

    pub open spec fn client_keepalive_id_spec(self) -> i32 {
        match self {
            Layout::V759 => 0x1E,
            Layout::V761 => 0x20,
            Layout::V762 => 0x23,
            Layout::V763 => 0x23,
        }
    }

    /// clientbound play: keep alive
    pub fn client_keepalive_id(self) -> (r: i32)
        ensures
            self is V759 ==> r == 0x1E,
            self is V761 ==> r == 0x20,
            (self is V762 || self is V763) ==> r == 0x23,
            r == self.client_keepalive_id_spec(),
    {
        match self {
            Layout::V759 => 0x1E,
            Layout::V761 => 0x20,
            Layout::V762 => 0x23,
            Layout::V763 => 0x23,
        }
    }

    pub open spec fn server_keepalive_id_spec(self) -> i32 {
        match self {
            Layout::V759 => 0x11,
            _ => 0x12,
        }
    }

    /// serverbound play: keep alive
    pub fn server_keepalive_id(self) -> (r: i32)
        ensures
            self is V759 ==> r == 0x11,
            !(self is V759) ==> r == 0x12,
            r == self.server_keepalive_id_spec(),
    {
        match self {
            Layout::V759 => 0x11,
            Layout::V761 => 0x12,
            Layout::V762 => 0x12,
            Layout::V763 => 0x12,
        }
    }

    pub open spec fn server_chat_id_spec(self) -> i32 {
        match self {
            Layout::V759 => 0x04,
            _ => 0x05,
        }
    }

    /// serverbound play: chat message
    pub fn server_chat_id(self) -> (r: i32)
        ensures
            self is V759 ==> r == 0x04,
            !(self is V759) ==> r == 0x05,
            r == self.server_chat_id_spec(),
    {
        match self {
            Layout::V759 => 0x04,
            _ => 0x05,
        }
    }

    pub open spec fn client_kick_id_spec(self) -> i32 {
        match self {
            Layout::V759 => 0x17,
            Layout::V761 => 0x19,
            _ => 0x1A,
        }
    }

    /// clientbound play: kick/disconnect
    pub fn client_kick_id(self) -> (r: i32)
        ensures
            self is V759 ==> r == 0x17,
            self is V761 ==> r == 0x19,
            (self is V762 || self is V763) ==> r == 0x1A,
            r == self.client_kick_id_spec(),
    {
        match self {
            Layout::V759 => 0x17,
            Layout::V761 => 0x19,
            Layout::V762 => 0x1A,
            Layout::V763 => 0x1A,
        }
    }

    pub open spec fn chat_style_spec(self) -> ChatStyle {
        match self {
            Layout::V759 => ChatStyle::V759,
            Layout::V761 => ChatStyle::V761,
            _ => ChatStyle::V763,
        }
    }

    pub fn chat_style(self) -> (r: ChatStyle)
        ensures
            self is V759 ==> r is V759,
            self is V761 ==> r is V761,
            (self is V762 || self is V763) ==> r is V763,
            r == self.chat_style_spec(),
    {
        match self {
            Layout::V759 => ChatStyle::V759,
            Layout::V761 => ChatStyle::V761,
            Layout::V762 | Layout::V763 => ChatStyle::V763,
        }
    }
}

/// The packet ids each supported protocol uses: 759 (1.19) sends chat as
/// 0x04, keep-alives as 0x11 and receives them as 0x1E, kicks as 0x17; 760 and
/// 761 (1.19.1 to 1.19.3) chat 0x05, keep-alive 0x12 / 0x20, kick 0x19; 762
/// and 763 (1.19.4 to 1.20.1) chat 0x05, keep-alive 0x12 / 0x23, kick 0x1A.
/// Any other protocol has no layout.
pub proof fn lemma_packet_id_table(p: i32)
    ensures
        layout_for(p) is Some <==> 759 <= p <= 763,
        p == 759 ==> (layout_for(p) matches Some(l) && l.server_chat_id_spec() == 0x04
            && l.server_keepalive_id_spec() == 0x11 && l.client_keepalive_id_spec() == 0x1E
            && l.client_kick_id_spec() == 0x17 && l.chat_style_spec() is V759),
        (p == 760 || p == 761) ==> (layout_for(p) matches Some(l) && l.server_chat_id_spec() == 0x05
            && l.server_keepalive_id_spec() == 0x12 && l.client_keepalive_id_spec() == 0x20
            && l.client_kick_id_spec() == 0x19 && l.chat_style_spec() is V761),
        (p == 762 || p == 763) ==> (layout_for(p) matches Some(l) && l.server_chat_id_spec() == 0x05
            && l.server_keepalive_id_spec() == 0x12 && l.client_keepalive_id_spec() == 0x23
            && l.client_kick_id_spec() == 0x1A && l.chat_style_spec() is V763),
{
}

/// A supported protocol maps to a layout that speaks it (760 shares 761's).
pub proof fn lemma_layout_protocol(p: i32)
    ensures
        layout_for(p) matches Some(l) ==> (l.protocol_spec() == p || (p == 760 && l.protocol_spec() == 761)),
        forall|l: Layout| #[trigger] layout_for(l.protocol_spec()) == Some(l),
{
}

pub open spec fn version_label_spec(proto: i32) -> Seq<char> {
    if proto == 759 {
        "1.19"@
    } else if proto == 760 {
        "1.19.1/1.19.2"@
    } else if proto == 761 {
        "1.19.3"@
    } else if proto == 762 {
        "1.19.4"@
    } else if proto == 763 {
        "1.20/1.20.1"@
    } else {
        "unknown"@
    }
}

/// The game version that a protocol number stands for.
pub fn version_label(proto: i32) -> (r: &'static str)
    ensures
        r@ == version_label_spec(proto),
{
    match proto {
        759 => "1.19",
        760 => "1.19.1/1.19.2",
        761 => "1.19.3",
        762 => "1.19.4",
        763 => "1.20/1.20.1",
        _ => "unknown",
    }
}

/// The punctuation that may end a URL.
pub open spec fn url_punctuation() -> Seq<char> {
    seq![':', ';', '/', '?', '!', '@', '&', '=', '+', '$', ',', '#', '%', '.', '_', '~', '-']
}

/// A trailing character that `clean_url` drops: neither alphanumeric nor
/// URL punctuation.
pub open spec fn url_trailing_junk(c: char) -> bool {
    !unicode_alphanumeric(c) && !url_punctuation().contains(c)
}

/// `s` without its trailing junk characters.
pub open spec fn trim_url_end(s: Seq<char>) -> Seq<char>
    decreases s.len(),
{
    if s.len() > 0 && url_trailing_junk(s.last()) {
        trim_url_end(s.drop_last())
    } else {
        s
    }
}

fn is_url_punctuation(c: char) -> (b: bool)
    ensures
        b == url_punctuation().contains(c),
{
    let allowed: [char; 17] = [':', ';', '/', '?', '!', '@', '&', '=', '+', '$', ',', '#', '%', '.', '_', '~', '-'];
    let mut i: usize = 0;
    while i < 17
        invariant
            allowed@ == url_punctuation(),
            i <= 17,
            forall|j: int| 0 <= j < i ==> allowed@[j] != c,
        decreases 17 - i,
    {
        if allowed[i] == c {
            assert(url_punctuation()[i as int] == c);
            return true;
        }
        i = i + 1;
    }
    false
}

/// Drops the characters at the end of a URL that cannot belong to it.
pub fn clean_url(url: &str) -> (r: String)
    ensures
        r@ == trim_url_end(url@),
{
    let cs = str_chars(url);
    let mut end: usize = cs.len();
    assert(cs@.subrange(0, cs@.len() as int) == cs@);
    while end > 0 && !char_is_alphanumeric(cs[end - 1]) && !is_url_punctuation(cs[end - 1])
        invariant
            end <= cs@.len(),
            trim_url_end(cs@) == trim_url_end(cs@.subrange(0, end as int)),
        decreases end,
    {
        assert(cs@.subrange(0, end as int).drop_last() == cs@.subrange(0, end - 1));
        end = end - 1;
    }
    proof {
        assert(cs@.subrange(0, cs@.len() as int) == cs@);
    }
    string_from_chars(vstd::slice::slice_subrange(cs.as_slice(), 0, end))
}

/// `items` with repeats dropped, first occurrences kept in order.
pub open spec fn dedup_first(items: Seq<i32>) -> Seq<i32>
    decreases items.len(),
{
    if items.len() == 0 {
        items
    } else {
        let d = dedup_first(items.drop_last());
        if d.contains(items.last()) {
            d
        } else {
            d.push(items.last())
        }
    }
}

/// The protocol versions to try, in order: the detected one (763 when
/// detection failed), then those that proxies accept most often.
pub open spec fn claim_candidates_spec(detected: Option<i32>) -> Seq<i32> {
    let first = match detected {
        Some(p) => p,
        None => 763,
    };
    dedup_first(seq![first, 760, 759, 762, 761])
}

/// The protocol versions to try for the login, without repeats.
pub fn claim_candidates(detected: Option<i32>) -> (r: Vec<i32>)
    ensures
        r@ == claim_candidates_spec(detected),
{
    let first = match detected {
        Some(p) => p,
        None => 763,
    };
    let all: [i32; 5] = [first, 760, 759, 762, 761];
    let mut out: Vec<i32> = Vec::new();
    let mut i: usize = 0;
    while i < 5
        invariant
            i <= 5,
            all@ == seq![first, 760, 759, 762, 761],
            out@ == dedup_first(all@.subrange(0, i as int)),
        decreases 5 - i,
    {
        let p = all[i];
        let mut seen = false;
        let mut k: usize = 0;
        while k < out.len()
            invariant
                k <= out@.len(),
                seen == exists|j: int| 0 <= j < k && out@[j] == p,
            decreases out@.len() - k,
        {
            if out[k] == p {
                seen = true;
            }
            k = k + 1;
        }
        proof {
            let pre = all@.subrange(0, i as int);
            assert(all@.subrange(0, i + 1).drop_last() == pre);
            assert(all@.subrange(0, i + 1).last() == p);
            if seen {
                let j = choose|j: int| 0 <= j < out@.len() && out@[j] == p;
                assert(out@.contains(p));
            } else {
                assert(!out@.contains(p));
            }
        }
        if !seen {
            out.push(p);
        }
        i = i + 1;
    }
    assert(all@.subrange(0, 5) == all@);
    out
}

/// How one login attempt ended.
pub enum LoginEnd {
    /// Logged in: the play loop takes over.
    Play,
    /// The server refused the login, with its reason.
    Disconnected(String),
    /// The server closed the connection right after the login start: it
    /// does not take this protocol version.
    Rejected,
    Failed(String),
}

/// What the claim does after a login attempt.
pub enum ClaimNext {
    Play,
    /// Stop with this error.
    Fail(String),
    /// Wait out the server's reconnect throttle, then try the next version.
    TryNext,
}

/// The error once every candidate version has been refused.
pub open spec fn every_version_refused_msg() -> Seq<char> {
    "The server closed the connection during login on every supported protocol version (1.19–1.20.1). It may require a newer Minecraft version."@
}

/// The claim's step after a login attempt: play after a login, stop with
/// the reason after a refusal or a failure, and move on to the next version
/// when the server only closed the connection.
pub fn claim_after_login(end: LoginEnd) -> (n: ClaimNext)
    ensures
        match end {
            LoginEnd::Play => n is Play,
            LoginEnd::Disconnected(reason) => n matches ClaimNext::Fail(e) && e@ == "Disconnected during login: "@ + reason@,
            LoginEnd::Rejected => n is TryNext,
            LoginEnd::Failed(e) => n == ClaimNext::Fail(e),
        },
{
    match end {
        LoginEnd::Play => ClaimNext::Play,
        LoginEnd::Disconnected(reason) => ClaimNext::Fail(with_str("Disconnected during login: ", reason.as_str())),
        LoginEnd::Rejected => ClaimNext::TryNext,
        LoginEnd::Failed(e) => ClaimNext::Fail(e),
    }
}

/// The error once every candidate version has been refused.
pub fn every_version_refused() -> (e: String)
    ensures
        e@ == every_version_refused_msg(),
{
    String::from_str("The server closed the connection during login on every supported protocol version (1.19–1.20.1). It may require a newer Minecraft version.")
}

/// The progress line before a login attempt with version `proto`.
pub fn connecting_as_msg(proto: i32) -> (m: String)
    ensures
        m@ == "Connecting as "@ + version_label_spec(proto) + "..."@,
{
    let mut m = String::from_str("Connecting as ");
    m.append(version_label(proto));
    m.append("...");
    m
}

/// The failure for a version without a packet layout.
pub fn unsupported_protocol_msg(proto: i32) -> (m: String)
    ensures
        m@ == "Unsupported protocol "@ + decimal_int(proto as int),
{
    with_decimal("Unsupported protocol ", proto as i64)
}

/// The failure when the session server refused the join twice: a fixed
/// text, then the first 200 characters of the session server's answer.
pub fn join_failed_msg(body: &str) -> (m: String)
    ensures
        m@ == "Mojang rejected the session join (HTTP). Check that the signed-in account owns the skin/ign. "@
            + body@.take(if body@.len() < 200 { body@.len() as int } else { 200 }),
{
    let cs = str_chars(body);
    let n: usize = if cs.len() < 200 { cs.len() } else { 200 };
    let preview = string_from_chars(slice_subrange(cs.as_slice(), 0, n));
    with_str("Mojang rejected the session join (HTTP). Check that the signed-in account owns the skin/ign. ", preview.as_str())
}

/// The error for a failed read while waiting for the link: an early end of
/// the stream gets its own explanation, any other error is passed on.
pub fn play_read_failure(e: &str) -> (m: String)
    ensures
        m@ == if contains_seq(e@, "early eof"@) {
            "Server closed the connection while waiting for the NameMC link (early EOF)."@
        } else {
            e@
        },
{
    let cs = str_chars(e);
    let pat = str_chars("early eof");
    if chars_contain(cs.as_slice(), pat.as_slice()) {
        String::from_str("Server closed the connection while waiting for the NameMC link (early EOF).")
    } else {
        String::from_str(e)
    }
}

/// What the play loop does next.
pub enum PlayTick {
    Cancelled,
    TimedOut,
    SendChat,
    LinkTimedOut,
    Read,
}

/// The play loop's next step: cancellation first, then the five-minute limit,
/// then typing the command two seconds in, then the twenty-second wait for the
/// link once the command went out, else read the next packet.
pub fn play_tick(cancelled: bool, elapsed_ms: u64, since_chat_ms: Option<u64>) -> (t: PlayTick)
    ensures
        cancelled ==> t is Cancelled,
        !cancelled && elapsed_ms > 300_000 ==> t is TimedOut,
        !cancelled && elapsed_ms <= 300_000 && since_chat_ms is None && elapsed_ms >= 2000 ==> t is SendChat,
        !cancelled && elapsed_ms <= 300_000 && (since_chat_ms matches Some(s) && s > 20_000) ==> t is LinkTimedOut,
        !cancelled && elapsed_ms <= 300_000 && (since_chat_ms matches Some(s) && s <= 20_000) ==> t is Read,
        !cancelled && elapsed_ms < 2000 && since_chat_ms is None ==> t is Read,
{
    if cancelled {
        return PlayTick::Cancelled;
    }
    if elapsed_ms > 300_000 {
        return PlayTick::TimedOut;
    }
    match since_chat_ms {
        None => if elapsed_ms >= 2000 {
            PlayTick::SendChat
        } else {
            PlayTick::Read
        },
        Some(s) => if s > 20_000 {
            PlayTick::LinkTimedOut
        } else {
            PlayTick::Read
        },
    }
}


/// The low `n` bytes of `u`, most significant first.
pub open spec fn be_bytes(u: nat, n: nat) -> Seq<u8>
    decreases n,
{
    if n == 0 {
        Seq::empty()
    } else {
        be_bytes(u / 256, (n - 1) as nat).push((u % 256) as u8)
    }
}

fn be_bytes_exec(u: u64, n: usize) -> (v: Vec<u8>)
    ensures
        v@ == be_bytes(u as nat, n as nat),
    decreases n,
{
    if n == 0 {
        Vec::new()
    } else {
        let mut v = be_bytes_exec(u / 256, n - 1);
        v.push((u % 256) as u8);
        v
    }
}

/// The handshake that opens a connection: protocol, server address, port and
/// the state to switch to (1 status, 2 login).
pub open spec fn handshake_spec(proto: i32, server: Seq<u8>, port: u16, next_state: i32) -> Seq<u8> {
    varint_encoding(proto) + varint_encoding(server.len() as i32) + server + be_bytes(port as nat, 2)
        + varint_encoding(next_state)
}

pub fn handshake_payload(proto: i32, server: &str, port: u16, next_state: i32) -> (v: Vec<u8>)
    ensures
        v@ == handshake_spec(proto, server.spec_bytes(), port, next_state),
{
    let sb = server.as_bytes();
    let mut v = varint_bytes(proto);
    let l = varint_bytes(#[verifier::truncate] (sb.len() as i32));
    append_bytes(&mut v, l.as_slice());
    append_bytes(&mut v, sb);
    let pb = be_bytes_exec(port as u64, 2);
    append_bytes(&mut v, pb.as_slice());
    let ns = varint_bytes(next_state);
    append_bytes(&mut v, ns.as_slice());
    v
}

/// The chat packet body for `message` sent at `now_ms`: unsigned, zero salt,
/// and the tail that each protocol generation expects.
pub open spec fn chat_body_spec(style: ChatStyle, message: Seq<u8>, now_ms: i64) -> Seq<u8> {
    let head = varint_encoding(message.len() as i32) + message + be_bytes((now_ms as u64) as nat, 8)
        + be_bytes(0, 8);
    match style {
        ChatStyle::V759 => head + varint_encoding(0) + seq![0u8],
        ChatStyle::V761 => head + varint_encoding(0) + seq![0u8] + varint_encoding(0) + seq![0u8],
        ChatStyle::V763 => head + seq![0u8] + varint_encoding(0) + seq![0u8, 0u8, 0u8],
    }
}

/// The number that big-endian bytes `s` stand for.
pub open spec fn be_value(s: Seq<u8>) -> nat
    decreases s.len(),
{
    if s.len() == 0 {
        0
    } else {
        be_value(s.drop_last()) * 256 + s.last() as nat
    }
}

pub open spec fn pow256(n: nat) -> nat
    decreases n,
{
    if n == 0 {
        1
    } else {
        pow256((n - 1) as nat) * 256
    }
}

proof fn lemma_be_value_of_bytes(u: nat, n: nat)
    requires
        u < pow256(n),
    ensures
        be_bytes(u, n).len() == n,
        be_value(be_bytes(u, n)) == u,
    decreases n,
{
    if n > 0 {
        let p = pow256((n - 1) as nat);
        assert(u / 256 < p) by (nonlinear_arith)
            requires
                u < p * 256,
        ;
        lemma_be_value_of_bytes(u / 256, (n - 1) as nat);
        let b = be_bytes(u, n);
        assert(b.drop_last() == be_bytes(u / 256, (n - 1) as nat));
        assert(b.last() == (u % 256) as u8);
    }
}

/// How a chat message goes out: the message, behind its byte length, reads
/// back whole; then the time in milliseconds as eight big-endian bytes; then
/// an eight-byte zero salt and the empty signature fields, all zero bytes:
/// two of them in the 1.19 format, four in the 1.19.1-1.19.3 one, five in
/// the 1.19.4-1.20.1 one.
pub proof fn lemma_chat_body_layout(style: ChatStyle, text: Seq<char>, now_ms: i64)
    requires
        encode_utf8(text).len() <= i32::MAX,
    ensures
        ({
            let body = chat_body_spec(style, encode_utf8(text), now_ms);
            let n = varint_encoding(encode_utf8(text).len() as i32).len() + encode_utf8(text).len();
            &&& parse_string_spec(body) == Ok::<(Seq<char>, nat), StringParseFailure>((text, n))
            &&& be_value(body.subrange(n as int, n + 8 as int)) == (now_ms as u64)
            &&& body.len() == n + 16 + (match style { ChatStyle::V759 => 2int, ChatStyle::V761 => 4int, ChatStyle::V763 => 5int })
            &&& forall|k: int| n + 8 <= k < body.len() ==> #[trigger] body[k] == 0
        }),
{
    let m = encode_utf8(text);
    let pre = varint_encoding(m.len() as i32);
    let n = pre.len() + m.len();
    let t = be_bytes((now_ms as u64) as nat, 8);
    let z = be_bytes(0, 8);
    let head = pre + m + t + z;
    let body = chat_body_spec(style, m, now_ms);
    reveal_with_fuel(pow256, 9);
    lemma_be_value_of_bytes((now_ms as u64) as nat, 8);
    lemma_be_value_of_bytes(0, 8);
    reveal_with_fuel(be_bytes, 9);
    assert(z =~= seq![0u8, 0u8, 0u8, 0u8, 0u8, 0u8, 0u8, 0u8]);
    lemma_varint_roundtrip(0, Seq::empty());
    assert(varint_encoding(0) =~= seq![0u8]) by {
        reveal_with_fuel(crate::mc::codec::varint_spec, 2);
    }
    let tail = body.skip(head.len() as int);
    assert(body == head + tail);
    lemma_string_roundtrip(text, t + z + tail);
    assert(pre + m + (t + z + tail) == body);
    assert(body.subrange(n as int, n + 8 as int) == t);
}

pub fn chat_body(layout: Layout, message: &str, now_ms: i64) -> (v: Vec<u8>)
    ensures
        v@ == chat_body_spec(layout.chat_style_spec(), message.spec_bytes(), now_ms),
{
    let mb = message.as_bytes();
    let mut body = varint_bytes(#[verifier::truncate] (mb.len() as i32));
    append_bytes(&mut body, mb);
    let t = be_bytes_exec(#[verifier::truncate] (now_ms as u64), 8);
    append_bytes(&mut body, t.as_slice());
    let salt = be_bytes_exec(0, 8);
    append_bytes(&mut body, salt.as_slice());
    let zero = varint_bytes(0);
    match layout.chat_style() {
        ChatStyle::V759 => {
            append_bytes(&mut body, zero.as_slice());
            body.push(0x00);
        },
        ChatStyle::V761 => {
            append_bytes(&mut body, zero.as_slice());
            body.push(0x00);
            append_bytes(&mut body, zero.as_slice());
            body.push(0x00);
        },
        ChatStyle::V763 => {
            body.push(0x00);
            append_bytes(&mut body, zero.as_slice());
            body.push(0x00);
            body.push(0x00);
            body.push(0x00);
        },
    }
    body
}

/// Login start: the name, then for 1.19 an absent signature, for later
/// versions an absent profile key and the UUID.
pub open spec fn login_start_spec(proto: i32, username: Seq<u8>, uuid: Seq<char>) -> Seq<u8> {
    let head = varint_encoding(username.len() as i32) + username;
    if proto == 759 {
        head + seq![0u8]
    } else {
        head + seq![0u8, 1u8] + uuid_bytes_spec(uuid)
    }
}

/// Without a chat-signing key, every version after 1.19 writes the login
/// start the same way: the name, an absent profile key, and the UUID.
pub proof fn lemma_login_start_after_759(p1: i32, p2: i32, username: Seq<u8>, uuid: Seq<char>)
    requires
        p1 != 759,
        p2 != 759,
    ensures
        login_start_spec(p1, username, uuid) == login_start_spec(p2, username, uuid),
{
}

pub fn login_start_body(proto: i32, username: &str, uuid: &str) -> (v: Vec<u8>)
    requires
        proto != 759 ==> uuid_pairs_on_boundaries(uuid@),
    ensures
        v@ == login_start_spec(proto, username.spec_bytes(), uuid@),
{
    let ub = username.as_bytes();
    let mut body = varint_bytes(#[verifier::truncate] (ub.len() as i32));
    append_bytes(&mut body, ub);
    if proto == 759 {
        body.push(0x00);
    } else {
        body.push(0x00);
        body.push(0x01);
        let raw = uuid_bytes(uuid);
        append_bytes(&mut body, raw.as_slice());
    }
    body
}

/// The encryption response: the encrypted secret, then (before 762) a
/// "has verify token" flag, then the encrypted verify token.
pub open spec fn encryption_response_spec(proto: i32, secret: Seq<u8>, token: Seq<u8>) -> Seq<u8> {
    let head = varint_encoding(secret.len() as i32) + secret;
    let flag = if proto < 762 { seq![1u8] } else { Seq::<u8>::empty() };
    head + flag + varint_encoding(token.len() as i32) + token
}

pub fn encryption_response_body(proto: i32, encrypted_secret: &[u8], encrypted_verify_token: &[u8]) -> (v: Vec<u8>)
    ensures
        v@ == encryption_response_spec(proto, encrypted_secret@, encrypted_verify_token@),
{
    let mut ep = varint_bytes(#[verifier::truncate] (encrypted_secret.len() as i32));
    append_bytes(&mut ep, encrypted_secret);
    if proto < 762 {
        ep.push(0x01);
    }
    let l = varint_bytes(#[verifier::truncate] (encrypted_verify_token.len() as i32));
    append_bytes(&mut ep, l.as_slice());
    append_bytes(&mut ep, encrypted_verify_token);
    proof {
        let head = varint_encoding(encrypted_secret@.len() as i32) + encrypted_secret@;
        if proto >= 762 {
            assert(head + Seq::<u8>::empty() == head);
        }
    }
    ep
}

/// The answer to a login plugin request: the message id and "not understood".
pub fn plugin_response_body(msg_id: i32) -> (v: Vec<u8>)
    ensures
        v@ == varint_encoding(msg_id) + seq![0u8],
{
    let mut v = varint_bytes(msg_id);
    v.push(0x00);
    v
}


pub struct EncryptionRequest {
    pub server_id: String,
    pub public_key: Vec<u8>,
    pub verify_token: Vec<u8>,
}

/// How reading an encryption request goes.
pub ghost enum EncryptionRequestRead {
    Failed(StringParseFailure),
    /// A length runs past the packet (or is negative): slicing it would panic.
    OutOfBounds,
    Read(Seq<char>, Seq<u8>, Seq<u8>),
}

/// The encryption request: server id string, then the public key and the
/// verify token, each behind its varint length.
pub open spec fn read_encryption_request(data: Seq<u8>) -> EncryptionRequestRead {
    match parse_string_spec(data) {
        Err(f) => EncryptionRequestRead::Failed(f),
        Ok((sid, i)) => match parse_varint_spec(data.skip(i as int)) {
            None => EncryptionRequestRead::Failed(StringParseFailure::BadVarint),
            Some((pkl, c)) => {
                let j = i + c;
                if pkl < 0 || j + pkl > data.len() {
                    EncryptionRequestRead::OutOfBounds
                } else {
                    let k = j + pkl;
                    match parse_varint_spec(data.skip(k)) {
                        None => EncryptionRequestRead::Failed(StringParseFailure::BadVarint),
                        Some((vtl, c2)) => {
                            let m = k + c2;
                            if vtl < 0 || m + vtl > data.len() {
                                EncryptionRequestRead::OutOfBounds
                            } else {
                                EncryptionRequestRead::Read(
                                    sid,
                                    data.subrange(j as int, k),
                                    data.subrange(m, m + vtl),
                                )
                            }
                        },
                    }
                }
            },
        },
    }
}

/// An encryption request reads back as it was written: the server id as a
/// length-prefixed string, then the public key and the verify token, each
/// behind its varint length, give back that id, that key and that token,
/// whatever follows them.
#[verifier::rlimit(50)]
pub proof fn lemma_encryption_request_reads_back(sid: Seq<char>, pk: Seq<u8>, vt: Seq<u8>, rest: Seq<u8>)
    requires
        encode_utf8(sid).len() <= i32::MAX,
        pk.len() <= i32::MAX,
        vt.len() <= i32::MAX,
    ensures
        read_encryption_request(
            varint_encoding(encode_utf8(sid).len() as i32) + encode_utf8(sid)
                + varint_encoding(pk.len() as i32) + pk
                + varint_encoding(vt.len() as i32) + vt + rest,
        ) == EncryptionRequestRead::Read(sid, pk, vt),
{
    let s0 = varint_encoding(encode_utf8(sid).len() as i32) + encode_utf8(sid);
    let p0 = varint_encoding(pk.len() as i32);
    let v0 = varint_encoding(vt.len() as i32);
    let after_pk = v0 + vt + rest;
    let after_sid = p0 + pk + after_pk;
    let data = s0 + p0 + pk + v0 + vt + rest;
    assert(data == s0 + after_sid);
    lemma_string_roundtrip(sid, after_sid);
    let i = s0.len();
    assert(data.skip(i as int) == after_sid);
    assert(after_sid == p0 + (pk + after_pk));
    lemma_varint_roundtrip(pk.len() as i32, pk + after_pk);
    assert(parse_varint_spec(data.skip(i as int)) == Some((pk.len() as i32, p0.len())));
    assert(parse_string_spec(data) == Ok::<(Seq<char>, nat), StringParseFailure>((sid, i)));
    let j = i + p0.len();
    let k = j + pk.len();
    assert(data.subrange(j as int, k as int) == pk);
    assert(data.skip(k as int) == after_pk);
    assert(after_pk == v0 + (vt + rest));
    lemma_varint_roundtrip(vt.len() as i32, vt + rest);
    assert(parse_varint_spec(data.skip(k as int)) == Some((vt.len() as i32, v0.len())));
    let m = k + v0.len();
    assert(m + vt.len() <= data.len());
    assert(data.subrange(m as int, (m + vt.len()) as int) == vt);
}

/// The message that reading fails with, where it is the library's own.
pub open spec fn read_failure_msg(f: StringParseFailure, e: Seq<char>) -> bool {
    match f {
        StringParseFailure::BadVarint => e == invalid_varint_msg(),
        StringParseFailure::BadLength => e == invalid_string_msg(),
        StringParseFailure::BadUtf8 => true,
    }
}

pub fn parse_encryption_request(data: &[u8]) -> (r: Result<EncryptionRequest, String>)
    requires
        !(read_encryption_request(data@) is OutOfBounds),
    ensures
        match read_encryption_request(data@) {
            EncryptionRequestRead::Read(sid, pk, vt) => r matches Ok(q) && q.server_id@ == sid
                && q.public_key@ == pk && q.verify_token@ == vt,
            EncryptionRequestRead::Failed(f) => r matches Err(e) && read_failure_msg(f, e@),
            EncryptionRequestRead::OutOfBounds => false,
        },
{
    let (server_id, i) = parse_string(data)?;
    let (pk_len, c) = parse_varint(slice_subrange(data, i, data.len()))?;
    let j = i + c;
    let k = j + pk_len as usize;
    let public_key = slice_to_vec(slice_subrange(data, j, k));
    let (vt_len, c2) = parse_varint(slice_subrange(data, k, data.len()))?;
    let m = k + c2;
    let verify_token = slice_to_vec(slice_subrange(data, m, m + vt_len as usize));
    Ok(EncryptionRequest { server_id, public_key, verify_token })
}

/// What the login phase does with one packet.
pub enum LoginAction {
    /// Encryption request: encrypt and answer.
    Encrypt(EncryptionRequest),
    /// Set compression to the threshold.
    SetCompression(i32),
    /// Login success: switch to play.
    Play,
    /// Login plugin request: send this answer as packet 0x02.
    PluginResponse(Vec<u8>),
    /// The server refused the login, with its reason.
    Disconnected(String),
    Ignore,
    Failed(String),
}

pub open spec fn unknown_reason() -> Seq<char> {
    "unknown"@
}

/// Decides what to do with login packet `id` carrying `data`.
pub fn login_packet_action(id: i32, data: &[u8]) -> (a: LoginAction)
    requires
        id == 0x01 ==> !(read_encryption_request(data@) is OutOfBounds),
    ensures
        id == 0x01 ==> match read_encryption_request(data@) {
            EncryptionRequestRead::Read(sid, pk, vt) => a matches LoginAction::Encrypt(q)
                && q.server_id@ == sid && q.public_key@ == pk && q.verify_token@ == vt,
            EncryptionRequestRead::Failed(f) => a matches LoginAction::Failed(e) && read_failure_msg(f, e@),
            EncryptionRequestRead::OutOfBounds => false,
        },
        id == 0x03 ==> match parse_varint_spec(data@) {
            Some((t, _)) => a == LoginAction::SetCompression(t),
            None => a matches LoginAction::Failed(e) && e@ == invalid_varint_msg(),
        },
        id == 0x02 ==> a is Play,
        id == 0x04 ==> match parse_varint_spec(data@) {
            Some((m, _)) => a matches LoginAction::PluginResponse(b) && b@ == varint_encoding(m) + seq![0u8],
            None => a matches LoginAction::Failed(e) && e@ == invalid_varint_msg(),
        },
        id == 0x00 ==> match parse_string_spec(data@) {
            Ok((reason, _)) => a matches LoginAction::Disconnected(r) && r@ == reason,
            Err(_) => a matches LoginAction::Disconnected(r) && r@ == unknown_reason(),
        },
        !(0 <= id <= 4) ==> a is Ignore,
{
    match id {
        0x01 => match parse_encryption_request(data) {
            Ok(q) => LoginAction::Encrypt(q),
            Err(e) => LoginAction::Failed(e),
        },
        0x03 => match parse_varint(data) {
            Ok((threshold, _)) => LoginAction::SetCompression(threshold),
            Err(e) => LoginAction::Failed(e),
        },
        0x02 => LoginAction::Play,
        0x04 => match parse_varint(data) {
            Ok((msg_id, _)) => LoginAction::PluginResponse(plugin_response_body(msg_id)),
            Err(e) => LoginAction::Failed(e),
        },
        0x00 => match parse_string(data) {
            Ok((reason, _)) => LoginAction::Disconnected(reason),
            Err(_) => LoginAction::Disconnected(String::from_str("unknown")),
        },
        _ => LoginAction::Ignore,
    }
}


/// A character that the NameMC link pattern takes after the host.
pub open spec fn link_char(c: char) -> bool {
    is_ascii_alphanumeric(c) || seq!['?', '&', '=', '#', '.', '_', '%', '+', '/', ':', '-'].contains(c)
}

/// The length of the run of link characters starting at `i`.
pub open spec fn link_run(t: Seq<char>, i: int) -> nat
    decreases t.len() - i,
{
    if 0 <= i < t.len() && link_char(t[i]) {
        1 + link_run(t, i + 1)
    } else {
        0
    }
}

/// The length of "https://namemc.com/" or "http://namemc.com/" at `i`, 0 if neither.
pub open spec fn link_head(t: Seq<char>, i: int) -> nat {
    if occurs_at(t, "https://namemc.com/"@, i) {
        19
    } else if occurs_at(t, "http://namemc.com/"@, i) {
        18
    } else {
        0
    }
}

/// Where the pattern `https?://namemc\.com/[A-Za-z0-9?&=#._%+/:-]+` matches at `i`.
pub open spec fn link_at(t: Seq<char>, i: int) -> bool {
    link_head(t, i) > 0 && link_run(t, i + link_head(t, i)) > 0
}

/// The leftmost match at or after `i`, as (start, end).
pub open spec fn first_link_from(t: Seq<char>, i: int) -> Option<(int, int)>
    decreases t.len() + 1 - i,
{
    if i < 0 || i > t.len() {
        None
    } else if link_at(t, i) {
        Some((i, i + link_head(t, i) + link_run(t, i + link_head(t, i))))
    } else {
        first_link_from(t, i + 1)
    }
}

/// The first NameMC link in `t`: the leftmost match of the pattern, its
/// repetition taking as much as it can.
pub open spec fn first_namemc_link(t: Seq<char>) -> Option<Seq<char>> {
    match first_link_from(t, 0) {
        Some((a, b)) => Some(t.subrange(a, b)),
        None => None,
    }
}

/// `regex::Regex` for `https?://namemc\.com/[A-Za-z0-9?&=#._%+/:-]+`, the
/// whole of its first match in `text`: the leftmost match, the optional `s`
/// and the repetition greedy, as `first_namemc_link` states.
#[verifier::external_body]
fn find_namemc_link(text: &str) -> (r: Option<String>)
    ensures
        r matches Some(m) ==> first_namemc_link(text@) == Some(m@),
        r is None ==> first_namemc_link(text@) is None,
{
    let re = Regex::new(r#"https?://namemc\.com/[A-Za-z0-9?&=#._%+/:-]+"#).unwrap();
    re.find(text).map(|m| m.as_str().to_string())
}

/// What the play loop does with one packet.
pub enum PlayAction {
    /// Answer the keep alive: send the data back with this packet id.
    KeepAlive(i32, Vec<u8>),
    /// The server kicked us, with this error.
    Kicked(String),
    /// The NameMC link arrived.
    Link(String),
    Continue,
}

pub open spec fn kicked_prefix() -> Seq<char> {
    "Disconnected by server: "@
}

pub open spec fn kicked_msg() -> Seq<char> {
    "Disconnected by server"@
}

/// The link that a packet carries, read as text (invalid UTF-8 replaced):
/// the first pattern match, cleaned, if it names namemc.com.
pub open spec fn packet_link(data: Seq<u8>) -> Option<Seq<char>> {
    match first_namemc_link(utf8_lossy(data)) {
        Some(m) => {
            let url = trim_url_end(m);
            if url.len() > 0 && contains_seq(url, "namemc.com"@) {
                Some(url)
            } else {
                None
            }
        },
        None => None,
    }
}

/// Decides what to do with play packet `id` carrying `data`: answer keep
/// alives, stop on a kick, and otherwise look for the NameMC link anywhere in
/// the payload.
pub fn play_packet_action(layout: Layout, id: i32, data: &[u8]) -> (a: PlayAction)
    ensures
        id == layout.client_keepalive_id_spec() && data@.len() == 8 ==> (a matches PlayAction::KeepAlive(rid, b)
            && rid == layout.server_keepalive_id_spec() && b@ == data@),
        !(id == layout.client_keepalive_id_spec() && data@.len() == 8) && id == layout.client_kick_id_spec()
            ==> match parse_string_spec(data@) {
                Ok((reason, _)) => a matches PlayAction::Kicked(e) && e@ == kicked_prefix() + reason,
                Err(_) => a matches PlayAction::Kicked(e) && e@ == kicked_msg(),
            },
        !(id == layout.client_keepalive_id_spec() && data@.len() == 8) && id != layout.client_kick_id_spec()
            ==> match packet_link(data@) {
                Some(url) => a matches PlayAction::Link(u) && u@ == url,
                None => a is Continue,
            },
{
    if id == layout.client_keepalive_id() && data.len() == 8 {
        return PlayAction::KeepAlive(layout.server_keepalive_id(), slice_to_vec(data));
    }
    if id == layout.client_kick_id() {
        return match parse_string(data) {
            Ok((reason, _)) => PlayAction::Kicked(with_str("Disconnected by server: ", reason.as_str())),
            Err(_) => PlayAction::Kicked(String::from_str("Disconnected by server")),
        };
    }
    let text = lossy_string(data);
    match find_namemc_link(text.as_str()) {
        Some(m) => {
            let url = clean_url(m.as_str());
            let uc = str_chars(url.as_str());
            let needle = str_chars("namemc.com");
            if uc.len() > 0 && chars_contain(uc.as_slice(), needle.as_slice()) {
                PlayAction::Link(url)
            } else {
                PlayAction::Continue
            }
        },
        None => PlayAction::Continue,
    }
}

/// `json["version"]["protocol"].as_i64()` of the status text.
pub open spec fn json_version_protocol(text: Seq<char>) -> Option<i64> {
    match json_of_text(text) {
        Some(j) => match get_spec(j, "version"@) {
            Some(v) => match get_spec(v, "protocol"@) {
                Some(Json::Number(n, _)) => n,
                _ => None,
            },
            None => None,
        },
        None => None,
    }
}

fn status_version_protocol(text: &str) -> (r: Option<i64>)
    ensures
        r == json_version_protocol(text@),
{
    let json = match parse_json(text) {
        Ok(j) => j,
        Err(_) => return None,
    };
    let version = json.get("version")?;
    let protocol = version.get("protocol")?;
    protocol.as_i64()
}

/// The protocol version in a status response packet (id 0, a JSON string).
pub open spec fn status_protocol_spec(id: i32, data: Seq<u8>) -> Option<i32> {
    if id != 0 {
        None
    } else {
        match parse_string_spec(data) {
            Err(_) => None,
            Ok((json, _)) => match json_version_protocol(json) {
                Some(p) => Some(p as i32),
                None => None,
            },
        }
    }
}

pub fn protocol_from_status(id: i32, data: &[u8]) -> (r: Option<i32>)
    ensures
        r == status_protocol_spec(id, data@),
{
    if id != 0x00 {
        return None;
    }
    let (json, _) = match parse_string(data) {
        Ok(v) => v,
        Err(_) => return None,
    };
    match status_version_protocol(json.as_str()) {
        Some(p) => Some(#[verifier::truncate] (p as i32)),
        None => None,
    }
}

} // verus!
