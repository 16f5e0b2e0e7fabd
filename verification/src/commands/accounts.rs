//! Saved accounts: the list of players kept on disk as JSON objects, the one
//! used last marked by "lastUsed", refresh tokens sealed by the machine key.
use vstd::prelude::*;
use vstd::utf8::*;
use crate::json::{Json, get_spec, field_str, field_set, with_field, get_str};
use crate::commands::crypto::{is_encrypted, has_enc_prefix, decrypt_tokens, encrypt_tokens, open_token, TokenFailure, gcm_plain_max};

verus! {

/// An account to remember after a sign-in.
pub struct SaveAccountRequest {
    pub ign: String,
    pub uuid: Option<String>,
    pub refresh_token: Option<String>,
}

/// The token text that a sealed value opens to under `key`, empty where it
/// does not open.
pub open spec fn opened_token(key: Seq<u8>, sealed: Seq<char>) -> Seq<char> {
    match open_token(key, encode_utf8(sealed)) {
        Ok(s) => s,
        Err(_) => Seq::empty(),
    }
}

/// `v` is `old` with the field `key` set to a string whose text is `s`.
pub open spec fn str_field_set(v: Json, old: Json, key: Seq<char>, s: Seq<char>) -> bool {
    &&& v is Object
    &&& get_spec(v, key) matches Some(Json::Str(x)) && x@ == s
    &&& forall|k: Seq<char>| k != key ==> #[trigger] get_spec(v, k) == get_spec(old, k)
}

/// What loading makes of one stored account: a sealed refresh token is
/// replaced by the token it opens to; everything else stays as stored.
pub open spec fn loaded_account(a: Json, out: Json, key: Seq<u8>) -> bool {
    match get_spec(a, "refreshToken"@) {
        Some(Json::Str(rt)) => if has_enc_prefix(encode_utf8(rt@)) {
            str_field_set(out, a, "refreshToken"@, opened_token(key, rt@))
        } else {
            out == a
        },
        _ => out == a,
    }
}

fn load_one(a: Json, key: &[u8; 32]) -> (r: Json)
    ensures
        loaded_account(a, r, key@),
{
    let rt: Option<String> = match a.get("refreshToken") {
        Some(Json::Str(s)) => Some(String::from_str(s.as_str())),
        _ => None,
    };
    match rt {
        Some(rt) => {
            if !is_encrypted(rt.as_str()) {
                return a;
            }
            let plain = match decrypt_tokens(key, rt.as_str()) {
                Ok(p) => p,
                Err(_) => String::new(),
            };
            let ghost s = plain@;
            let r = with_field(a, "refreshToken", Json::Str(plain));
            assert(get_spec(r, "refreshToken"@) == Some(Json::Str(plain)));
            r
        },
        None => a,
    }
}

/// The stored accounts as the interface gets them: sealed refresh tokens
/// opened with the machine key (an empty token where one does not open).
pub fn load_accounts(accounts: Vec<Json>, key: &[u8; 32]) -> (r: Vec<Json>)
    ensures
        r@.len() == accounts@.len(),
        forall|i: int| 0 <= i < accounts@.len() ==> loaded_account(accounts@[i], #[trigger] r@[i], key@),
{
    let ghost orig = accounts@;
    let mut src = accounts;
    let mut out: Vec<Json> = Vec::new();
    while src.len() > 0
        invariant
            out@.len() + src@.len() == orig.len(),
            src@ == orig.skip(out@.len() as int),
            forall|i: int| 0 <= i < out@.len() ==> loaded_account(orig[i], #[trigger] out@[i], key@),
        decreases src@.len(),
    {
        let a = src.remove(0);
        assert(a == orig[out@.len() as int]);
        assert(src@ == orig.skip(out@.len() as int + 1));
        out.push(load_one(a, key));
    }
    out
}

/// The uuid to store: the one given, where it is not empty.
pub open spec fn uuid_given(account: SaveAccountRequest) -> Option<Seq<char>> {
    match account.uuid {
        Some(u) => if u@.len() > 0 { Some(u@) } else { None },
        None => None,
    }
}

/// The refresh token to store: the one given, where it is not empty.
pub open spec fn token_given(account: SaveAccountRequest) -> Option<Seq<char>> {
    match account.refresh_token {
        Some(t) => if t@.len() > 0 { Some(t@) } else { None },
        None => None,
    }
}

/// The field names an account entry is written with.
pub open spec fn entry_keys() -> Set<Seq<char>> {
    set!["ign"@, "lastUsed"@, "uuid"@, "refreshToken"@]
}

/// `v` is the entry saved for `account` over the stored account `base`
/// (`Null` for a new one): the name, marked used last, the uuid and the
/// refresh token (sealed, so that it opens under `key` to the one given)
/// where they were given, every other field as `base` had it.
pub open spec fn saved_entry(v: Json, base: Json, account: SaveAccountRequest, key: Seq<u8>) -> bool {
    &&& v is Object
    &&& get_spec(v, "ign"@) matches Some(Json::Str(s)) && s@ == account.ign@
    &&& get_spec(v, "lastUsed"@) == Some(Json::Bool(true))
    &&& match uuid_given(account) {
        Some(u) => get_spec(v, "uuid"@) matches Some(Json::Str(s)) && s@ == u,
        None => get_spec(v, "uuid"@) == get_spec(base, "uuid"@),
    }
    &&& match token_given(account) {
        Some(t) => get_spec(v, "refreshToken"@) matches Some(Json::Str(s)) && open_token(key, encode_utf8(s@))
            == Ok::<Seq<char>, TokenFailure>(t),
        None => get_spec(v, "refreshToken"@) == get_spec(base, "refreshToken"@),
    }
    &&& forall|k: Seq<char>| !entry_keys().contains(k) ==> #[trigger] get_spec(v, k) == get_spec(base, k)
}

/// A refresh token saved under the machine key is what loading under the
/// same key gives back for that account.
pub proof fn lemma_saved_token_loads_back(v: Json, base: Json, account: SaveAccountRequest, key: Seq<u8>, out: Json)
    requires
        saved_entry(v, base, account, key),
        token_given(account) is Some,
        loaded_account(v, out, key),
    ensures
        get_spec(out, "refreshToken"@) matches Some(Json::Str(s)) && s@ == token_given(account)->0,
{
}

/// Whether an account is the one used last.
pub open spec fn is_last_used(a: Json) -> bool {
    get_spec(a, "lastUsed"@) == Some(Json::Bool(true))
}

/// The first account at or after `i` named `ign`.
pub open spec fn first_named(accounts: Seq<Json>, ign: Seq<char>, i: int) -> Option<int>
    decreases accounts.len() - i,
{
    if i < 0 || i >= accounts.len() {
        None
    } else if field_str(accounts[i], "ign"@) == Some(ign) {
        Some(i)
    } else {
        first_named(accounts, ign, i + 1)
    }
}

proof fn lemma_first_named_same(a: Seq<Json>, b: Seq<Json>, ign: Seq<char>, i: int)
    requires
        a.len() == b.len(),
        0 <= i,
        forall|j: int| 0 <= j < a.len() ==> #[trigger] field_str(a[j], "ign"@) == field_str(b[j], "ign"@),
    ensures
        first_named(a, ign, i) == first_named(b, ign, i),
    decreases a.len() - i,
{
    if i < a.len() {
        assert(field_str(a[i], "ign"@) == field_str(b[i], "ign"@));
        lemma_first_named_same(a, b, ign, i + 1);
    }
}

proof fn lemma_first_named_bounds(a: Seq<Json>, ign: Seq<char>, i: int)
    requires
        0 <= i,
    ensures
        first_named(a, ign, i) matches Some(p) ==> i <= p < a.len() && field_str(a[p], "ign"@) == Some(ign),
    decreases a.len() - i,
{
    if 0 <= i < a.len() {
        lemma_first_named_bounds(a, ign, i + 1);
    }
}

fn find_named(accounts: &Vec<Json>, ign: &str) -> (r: Option<usize>)
    ensures
        match r {
            Some(i) => first_named(accounts@, ign@, 0) == Some(i as int),
            None => first_named(accounts@, ign@, 0) is None,
        },
{
    let mut i: usize = 0;
    while i < accounts.len()
        invariant
            i <= accounts@.len(),
            first_named(accounts@, ign@, 0) == first_named(accounts@, ign@, i as int),
        decreases accounts@.len() - i,
    {
        let name = get_str(&accounts[i], "ign");
        let hit = match name {
            Some(n) => crate::text::str_eq(n.as_str(), ign),
            None => false,
        };
        if hit {
            return Some(i);
        }
        i = i + 1;
    }
    None
}

proof fn lemma_key_names()
    ensures
        "ign"@ != "lastUsed"@,
        "ign"@ != "uuid"@,
        "ign"@ != "refreshToken"@,
        "lastUsed"@ != "uuid"@,
        "lastUsed"@ != "refreshToken"@,
        "uuid"@ != "refreshToken"@,
{
    reveal_strlit("ign");
    reveal_strlit("lastUsed");
    reveal_strlit("uuid");
    reveal_strlit("refreshToken");
    assert("ign"@.len() != "lastUsed"@.len());
    assert("ign"@[0] != "uuid"@[0]);
    assert("ign"@[0] != "refreshToken"@[0]);
    assert("lastUsed"@[0] != "uuid"@[0]);
    assert("lastUsed"@[0] != "refreshToken"@[0]);
    assert("uuid"@[0] != "refreshToken"@[0]);
}

/// Writes the entry for `account` over `base`.
fn apply_entry(base: Json, ign: &str, uuid: Option<String>, sealed: Option<String>) -> (r: Json)
    requires
        base is Object || base is Null,
    ensures
        r is Object,
        get_spec(r, "ign"@) matches Some(Json::Str(s)) && s@ == ign@,
        get_spec(r, "lastUsed"@) == Some(Json::Bool(true)),
        match uuid {
            Some(u) => get_spec(r, "uuid"@) matches Some(Json::Str(s)) && s@ == u@,
            None => get_spec(r, "uuid"@) == get_spec(base, "uuid"@),
        },
        match sealed {
            Some(t) => get_spec(r, "refreshToken"@) matches Some(Json::Str(s)) && s@ == t@,
            None => get_spec(r, "refreshToken"@) == get_spec(base, "refreshToken"@),
        },
        forall|k: Seq<char>| !entry_keys().contains(k) ==> #[trigger] get_spec(r, k) == get_spec(base, k),
{
    proof {
        lemma_key_names();
    }
    let name = String::from_str(ign);
    let ghost name_v = name;
    let v1 = with_field(base, "ign", Json::Str(name));
    let v2 = with_field(v1, "lastUsed", Json::Bool(true));
    assert(get_spec(v2, "ign"@) == Some(Json::Str(name_v)));
    let v3 = match uuid {
        Some(u) => with_field(v2, "uuid", Json::Str(u)),
        None => v2,
    };
    let v4 = match sealed {
        Some(t) => with_field(v3, "refreshToken", Json::Str(t)),
        None => v3,
    };
    proof {
        assert forall|k: Seq<char>| !entry_keys().contains(k) implies #[trigger] get_spec(v4, k) == get_spec(base, k) by {
            assert(k != "ign"@ && k != "lastUsed"@ && k != "uuid"@ && k != "refreshToken"@);
            assert(get_spec(v1, k) == get_spec(base, k));
            assert(get_spec(v2, k) == get_spec(v1, k));
            assert(get_spec(v3, k) == get_spec(v2, k));
        }
    }
    v4
}

/// The accounts after a sign-in: every stored account is no longer the one
/// used last; the account named `account.ign` (the first so named) takes the
/// new entry's fields, or the entry is added at the end. The refresh token
/// is sealed with `key` under a fresh nonce before it is stored; only that
/// can fail, with the cipher's message, and only on a token longer than the
/// cipher takes. Exactly the saved account is marked
/// as used last.
pub fn save_account(accounts: Vec<Json>, account: SaveAccountRequest, key: &[u8; 32]) -> (r: Result<Vec<Json>, String>)
    requires
        forall|i: int| 0 <= i < accounts@.len() ==> #[trigger] accounts@[i] is Object || accounts@[i] is Null,
    ensures
        r is Ok <==> (token_given(account) matches Some(t) ==> encode_utf8(t).len() <= gcm_plain_max()),
        r matches Ok(list) ==> {
            let n = accounts@.len();
            let at = match first_named(accounts@, account.ign@, 0) {
                Some(p) => p,
                None => n as int,
            };
            &&& list@.len() == if at == n { n as int + 1 } else { n as int }
            &&& saved_entry(list@[at], if at == n { Json::Null } else { accounts@[at] }, account, key@)
            &&& forall|i: int| 0 <= i < n && i != at ==> field_set(#[trigger] list@[i], accounts@[i], "lastUsed"@, Json::Bool(false))
            &&& forall|i: int| 0 <= i < list@.len() ==> (is_last_used(#[trigger] list@[i]) <==> i == at)
        },
{
    proof {
        lemma_key_names();
    }
    let ghost orig = accounts@;
    let ghost n = orig.len();
    let mut src = accounts;
    let mut cleared: Vec<Json> = Vec::new();
    while src.len() > 0
        invariant
            cleared@.len() + src@.len() == orig.len(),
            src@ == orig.skip(cleared@.len() as int),
            forall|i: int| 0 <= i < orig.len() ==> #[trigger] orig[i] is Object || orig[i] is Null,
            forall|i: int| 0 <= i < cleared@.len() ==> field_set(#[trigger] cleared@[i], orig[i], "lastUsed"@, Json::Bool(false)),
        decreases src@.len(),
    {
        let a = src.remove(0);
        assert(a == orig[cleared@.len() as int]);
        assert(src@ == orig.skip(cleared@.len() as int + 1));
        cleared.push(with_field(a, "lastUsed", Json::Bool(false)));
    }
    let uuid: Option<String> = match &account.uuid {
        Some(u) => if u.as_str().unicode_len() > 0 { Some(String::from_str(u.as_str())) } else { None },
        None => None,
    };
    let sealed: Option<String> = match &account.refresh_token {
        Some(t) => if t.as_str().unicode_len() > 0 {
            let s = encrypt_tokens(key, t.as_str())?;
            Some(s)
        } else {
            None
        },
        None => None,
    };
    proof {
        assert(match uuid_given(account) {
            Some(u) => uuid matches Some(x) && x@ == u,
            None => uuid is None,
        });
        assert(match token_given(account) {
            Some(t) => sealed matches Some(x) && open_token(key@, encode_utf8(x@)) == Ok::<Seq<char>, TokenFailure>(t),
            None => sealed is None,
        });
        assert forall|j: int| 0 <= j < orig.len() implies #[trigger] field_str(cleared@[j], "ign"@) == field_str(orig[j], "ign"@) by {
            assert(get_spec(cleared@[j], "ign"@) == get_spec(orig[j], "ign"@));
        }
        lemma_first_named_same(cleared@, orig, account.ign@, 0);
        lemma_first_named_bounds(orig, account.ign@, 0);
    }
    match find_named(&cleared, account.ign.as_str()) {
        Some(idx) => {
            let ghost before = cleared@;
            let old = cleared.remove(idx);
            let merged = apply_entry(old, account.ign.as_str(), uuid, sealed);
            cleared.insert(idx, merged);
            proof {
                assert(cleared@ == before.update(idx as int, merged));
                assert(saved_entry(merged, orig[idx as int], account, key@));
                assert(cleared@[idx as int] == merged);
                assert(first_named(orig, account.ign@, 0) == Some(idx as int));
                assert(saved_entry(cleared@[idx as int], orig[idx as int], account, key@));
                assert forall|k: Seq<char>| !entry_keys().contains(k) implies #[trigger] get_spec(merged, k) == get_spec(orig[idx as int], k) by {
                    assert(k != "lastUsed"@);
                }
                assert forall|i: int| 0 <= i < cleared@.len() implies (is_last_used(#[trigger] cleared@[i]) <==> i == idx) by {
                    if i != idx {
                        assert(get_spec(cleared@[i], "lastUsed"@) == Some(Json::Bool(false)));
                    }
                }
            }
        },
        None => {
            let entry = apply_entry(Json::Null, account.ign.as_str(), uuid, sealed);
            cleared.push(entry);
            proof {
                assert(saved_entry(entry, Json::Null, account, key@));
                assert(cleared@[n as int] == entry);
                assert(first_named(orig, account.ign@, 0) is None);
                assert(saved_entry(cleared@[n as int], Json::Null, account, key@));
                assert forall|i: int| 0 <= i < cleared@.len() implies (is_last_used(#[trigger] cleared@[i]) <==> i == n) by {
                    if i != n {
                        assert(get_spec(cleared@[i], "lastUsed"@) == Some(Json::Bool(false)));
                    }
                }
            }
        },
    }
    proof {
        let at = match first_named(orig, account.ign@, 0) {
            Some(p) => p,
            None => n as int,
        };
        assert(cleared@.len() == if at == n { n as int + 1 } else { n as int });
        assert(saved_entry(cleared@[at], if at == n { Json::Null } else { orig[at] }, account, key@));
        assert(forall|i: int| 0 <= i < n && i != at ==> field_set(#[trigger] cleared@[i], orig[i], "lastUsed"@, Json::Bool(false)));
        assert(forall|i: int| 0 <= i < cleared@.len() ==> (is_last_used(#[trigger] cleared@[i]) <==> i == at));
    }
    Ok(cleared)
}

/// The accounts that deleting `ign` keeps: those not named `ign`, in order.
pub open spec fn kept_accounts(accounts: Seq<Json>, ign: Seq<char>) -> Seq<Json> {
    accounts.filter(|a: Json| field_str(a, "ign"@) != Some(ign))
}

/// None of the accounts is marked as used last.
pub open spec fn none_last_used(s: Seq<Json>) -> bool {
    forall|i: int| 0 <= i < s.len() ==> !is_last_used(#[trigger] s[i])
}

fn any_last_used(accounts: &Vec<Json>) -> (b: bool)
    ensures
        b == !none_last_used(accounts@),
{
    let mut i: usize = 0;
    while i < accounts.len()
        invariant
            i <= accounts@.len(),
            forall|j: int| 0 <= j < i ==> !is_last_used(#[trigger] accounts@[j]),
        decreases accounts@.len() - i,
    {
        let used = match accounts[i].get("lastUsed") {
            Some(v) => match v.as_bool() {
                Some(b) => b,
                None => false,
            },
            None => false,
        };
        if used {
            assert(is_last_used(accounts@[i as int]));
            return true;
        }
        i = i + 1;
    }
    false
}

/// The accounts after deleting `ign`: every account so named is dropped, and
/// when accounts remain but none is marked as used last, the first of them
/// is marked. No account named `ign` remains, and whenever accounts remain
/// one of them is marked as used last.
pub fn delete_account(accounts: Vec<Json>, ign: &str) -> (r: Vec<Json>)
    requires
        ({
            let kept = kept_accounts(accounts@, ign@);
            kept.len() > 0 && none_last_used(kept) ==> (kept[0] is Object || kept[0] is Null)
        }),
    ensures
        ({
            let kept = kept_accounts(accounts@, ign@);
            if kept.len() > 0 && none_last_used(kept) {
                &&& r@.len() == kept.len()
                &&& field_set(r@[0], kept[0], "lastUsed"@, Json::Bool(true))
                &&& forall|i: int| 1 <= i < kept.len() ==> #[trigger] r@[i] == kept[i]
            } else {
                r@ == kept
            }
        }),
        forall|i: int| 0 <= i < r@.len() ==> field_str(#[trigger] r@[i], "ign"@) != Some(ign@),
        r@.len() > 0 ==> !none_last_used(r@),
{
    proof {
        lemma_key_names();
    }
    let ghost orig = accounts@;
    let mut src = accounts;
    let mut kept: Vec<Json> = Vec::new();
    let ghost mut k: int = 0;
    while src.len() > 0
        invariant
            0 <= k <= orig.len(),
            k + src@.len() == orig.len(),
            src@ == orig.skip(k),
            kept@ == kept_accounts(orig.take(k), ign@),
            forall|i: int| 0 <= i < kept@.len() ==> field_str(#[trigger] kept@[i], "ign"@) != Some(ign@),
        decreases src@.len(),
    {
        let a = src.remove(0);
        assert(a == orig[k]);
        assert(src@ == orig.skip(k + 1));
        assert(orig.take(k + 1).drop_last() == orig.take(k));
        assert(orig.take(k + 1).last() == a);
        let drop = match get_str(&a, "ign") {
            Some(n) => crate::text::str_eq(n.as_str(), ign),
            None => false,
        };
        assert(drop == (field_str(a, "ign"@) == Some(ign@)));
        if !drop {
            kept.push(a);
        }
        proof {
            reveal(Seq::filter);
            assert(kept_accounts(orig.take(k + 1), ign@) == kept@);
            k = k + 1;
        }
    }
    assert(orig.take(orig.len() as int) == orig);
    if kept.len() > 0 && !any_last_used(&kept) {
        let ghost before = kept@;
        let first = kept.remove(0);
        let marked = with_field(first, "lastUsed", Json::Bool(true));
        kept.insert(0, marked);
        proof {
            assert(kept@ == before.update(0, marked));
            assert(is_last_used(kept@[0]));
            assert(get_spec(kept@[0], "ign"@) == get_spec(before[0], "ign"@));
        }
    }
    kept
}

} // verus!
