//! JSON documents as the library reads them: parsed by serde_json, then
//! walked by verified code.
use vstd::prelude::*;
use crate::text::str_eq;

verus! {

/// A JSON value. A number is held as what `as_i64` reads from it (`None` for
/// fractions and for integers beyond `i64`) beside its text as serde_json
/// writes it; an object as its entries, each key once.
pub enum Json {
    Null,
    Bool(bool),
    Number(Option<i64>, String),
    Str(String),
    Array(Vec<Json>),
    Object(Vec<(String, Json)>),
}

/// The document that serde_json reads from `text`, `None` where it is not JSON.
pub uninterp spec fn json_of_text(text: Seq<char>) -> Option<Json>;

/// The document that serde_json reads from the bytes `bytes`.
pub uninterp spec fn json_of_bytes(bytes: Seq<u8>) -> Option<Json>;

/// `serde_json::from_str::<serde_json::Value>`, the value turned into a
/// `Json` variant by variant; named by `json_of_text`. The error is
/// serde_json's message.
#[verifier::external_body]
pub fn parse_json(text: &str) -> (r: Result<Json, String>)
    ensures
        r is Ok <==> json_of_text(text@) is Some,
        r matches Ok(j) ==> json_of_text(text@) == Some(j),
{
    serde_json::from_str::<serde_json::Value>(text).map(|v| from_serde(&v)).map_err(|e| e.to_string())
}

/// `serde_json::from_slice::<serde_json::Value>`, turned into a `Json`;
/// named by `json_of_bytes`.
#[verifier::external_body]
pub(crate) fn parse_json_bytes(bytes: &[u8]) -> (r: Option<Json>)
    ensures
        r == json_of_bytes(bytes@),
{
    serde_json::from_slice::<serde_json::Value>(bytes).ok().map(|v| from_serde(&v))
}

#[verifier::external_type_specification]
#[verifier::external_body]
pub struct ExJsonValue(serde_json::Value);

/// A `serde_json::Value` as a `Json`, variant by variant.
#[verifier::external_body]
fn from_serde(v: &serde_json::Value) -> Json {
    match v {
        serde_json::Value::Null => Json::Null,
        serde_json::Value::Bool(b) => Json::Bool(*b),
        serde_json::Value::Number(n) => Json::Number(n.as_i64(), n.to_string()),
        serde_json::Value::String(s) => Json::Str(s.clone()),
        serde_json::Value::Array(a) => Json::Array(a.iter().map(from_serde).collect()),
        serde_json::Value::Object(m) => Json::Object(m.iter().map(|(k, x)| (k.clone(), from_serde(x))).collect()),
    }
}

/// The entry for `key` among `entries` at or after `i`.
pub open spec fn entry_from(entries: Seq<(String, Json)>, key: Seq<char>, i: int) -> Option<Json>
    decreases entries.len() - i,
{
    if i < 0 || i >= entries.len() {
        None
    } else if entries[i].0@ == key {
        Some(entries[i].1)
    } else {
        entry_from(entries, key, i + 1)
    }
}

/// `Value::get(key)`: the field of an object, `None` for anything else.
pub open spec fn get_spec(v: Json, key: Seq<char>) -> Option<Json> {
    match v {
        Json::Object(entries) => entry_from(entries@, key, 0),
        _ => None,
    }
}

/// `value[key]`: the field, `Null` where there is none.
pub open spec fn index_spec(v: Json, key: Seq<char>) -> Json {
    match get_spec(v, key) {
        Some(x) => x,
        None => Json::Null,
    }
}

/// `as_str`: the text of a string.
pub open spec fn str_spec(v: Json) -> Option<Seq<char>> {
    match v {
        Json::Str(s) => Some(s@),
        _ => None,
    }
}

pub open spec fn opt_str_spec(v: Option<Json>) -> Option<Seq<char>> {
    match v {
        Some(x) => str_spec(x),
        None => None,
    }
}

fn entry_find<'a>(entries: &'a Vec<(String, Json)>, key: &str, i: usize) -> (r: Option<&'a Json>)
    requires
        i <= entries@.len(),
    ensures
        match entry_from(entries@, key@, i as int) {
            Some(x) => r == Some(&x),
            None => r is None,
        },
    decreases entries@.len() - i,
{
    if i >= entries.len() {
        return None;
    }
    let k = &entries[i].0;
    if str_eq(k.as_str(), key) {
        Some(&entries[i].1)
    } else {
        entry_find(entries, key, i + 1)
    }
}

impl Json {
    pub fn get(&self, key: &str) -> (r: Option<&Json>)
        ensures
            match get_spec(*self, key@) {
                Some(x) => r == Some(&x),
                None => r is None,
            },
    {
        match self {
            Json::Object(entries) => entry_find(entries, key, 0),
            _ => None,
        }
    }

    pub fn as_str(&self) -> (r: Option<&str>)
        ensures
            match str_spec(*self) {
                Some(s) => r matches Some(x) && x@ == s,
                None => r is None,
            },
    {
        match self {
            Json::Str(s) => Some(s.as_str()),
            _ => None,
        }
    }

    pub fn as_i64(&self) -> (r: Option<i64>)
        ensures
            r == match *self {
                Json::Number(n, _) => n,
                _ => None,
            },
    {
        match self {
            Json::Number(n, _) => *n,
            _ => None,
        }
    }

    pub fn as_bool(&self) -> (r: Option<bool>)
        ensures
            r == match *self {
                Json::Bool(b) => Some(b),
                _ => None,
            },
    {
        match self {
            Json::Bool(b) => Some(*b),
            _ => None,
        }
    }

    pub fn as_array(&self) -> (r: Option<&Vec<Json>>)
        ensures
            match *self {
                Json::Array(a) => r == Some(&a),
                _ => r is None,
            },
    {
        match self {
            Json::Array(a) => Some(a),
            _ => None,
        }
    }
}

/// The field `key` as a string, where the field exists and is one.
pub fn get_str(v: &Json, key: &str) -> (r: Option<String>)
    ensures
        match opt_str_spec(get_spec(*v, key@)) {
            Some(s) => r matches Some(x) && x@ == s,
            None => r is None,
        },
{
    match v.get(key) {
        Some(x) => match x.as_str() {
            Some(s) => Some(String::from_str(s)),
            None => None,
        },
        None => None,
    }
}


/// `value[i]`: the element of an array, `Null` where there is none.
pub open spec fn at_spec(v: Json, i: int) -> Json {
    match v {
        Json::Array(a) => if 0 <= i < a@.len() {
            a@[i]
        } else {
            Json::Null
        },
        _ => Json::Null,
    }
}

/// The text of the field `key`, where it exists and is a string.
pub open spec fn field_str(v: Json, key: Seq<char>) -> Option<Seq<char>> {
    opt_str_spec(get_spec(v, key))
}

/// Whether the object has the field `key`.
pub fn has_field(v: &Json, key: &str) -> (b: bool)
    ensures
        b == get_spec(*v, key@) is Some,
{
    v.get(key).is_some()
}


/// `value[key] = x` leaves an object whose field `key` is `x` and whose
/// other fields are those of `old`.
pub open spec fn field_set(v: Json, old: Json, key: Seq<char>, x: Json) -> bool {
    &&& v is Object
    &&& get_spec(v, key) == Some(x)
    &&& forall|k: Seq<char>| k != key ==> #[trigger] get_spec(v, k) == get_spec(old, k)
}

proof fn lemma_entry_from_push(entries: Seq<(String, Json)>, e: (String, Json), k: Seq<char>, j: int)
    requires
        0 <= j <= entries.len(),
    ensures
        entry_from(entries.push(e), k, j) == match entry_from(entries, k, j) {
            Some(x) => Some(x),
            None => if e.0@ == k { Some(e.1) } else { None },
        },
    decreases entries.len() - j,
{
    let p = entries.push(e);
    if j < entries.len() {
        assert(p[j] == entries[j]);
        lemma_entry_from_push(entries, e, k, j + 1);
    } else {
        assert(p[j] == e);
        assert(entry_from(p, k, j + 1) is None);
    }
}

proof fn lemma_entry_from_replace(entries: Seq<(String, Json)>, i: int, e: (String, Json), k: Seq<char>, j: int)
    requires
        0 <= j <= entries.len(),
        0 <= i < entries.len(),
        e.0@ == entries[i].0@,
        k != e.0@,
    ensures
        entry_from(entries.update(i, e), k, j) == entry_from(entries, k, j),
    decreases entries.len() - j,
{
    if j < entries.len() {
        lemma_entry_from_replace(entries, i, e, k, j + 1);
    }
}

proof fn lemma_entry_from_first(entries: Seq<(String, Json)>, i: int, e: (String, Json), j: int)
    requires
        0 <= j <= i < entries.len(),
        e.0@ == entries[i].0@,
        forall|m: int| j <= m < i ==> #[trigger] entries[m].0@ != e.0@,
    ensures
        entry_from(entries.update(i, e), e.0@, j) == Some(e.1),
    decreases i - j,
{
    if j < i {
        lemma_entry_from_first(entries, i, e, j + 1);
    }
}

/// Where the first entry for `key` is.
fn entry_position(entries: &Vec<(String, Json)>, key: &str) -> (r: Option<usize>)
    ensures
        match r {
            Some(i) => i < entries@.len() && entries@[i as int].0@ == key@
                && forall|m: int| 0 <= m < i ==> #[trigger] entries@[m].0@ != key@,
            None => forall|m: int| 0 <= m < entries@.len() ==> #[trigger] entries@[m].0@ != key@,
        },
{
    let mut i: usize = 0;
    while i < entries.len()
        invariant
            i <= entries@.len(),
            forall|m: int| 0 <= m < i ==> #[trigger] entries@[m].0@ != key@,
        decreases entries@.len() - i,
    {
        if str_eq(entries[i].0.as_str(), key) {
            return Some(i);
        }
        i = i + 1;
    }
    None
}

/// `value[key] = x` on an object, or on `Null`, which becomes an object
/// (`IndexMut` of serde_json panics on anything else): the field replaced
/// where the object has it, added where it does not.
pub fn with_field(v: Json, key: &str, x: Json) -> (r: Json)
    requires
        v is Object || v is Null,
    ensures
        field_set(r, v, key@, x),
{
    let ghost old_v = v;
    match v {
        Json::Object(entries) => {
            let mut entries = entries;
            let ghost before = entries@;
            let e = (String::from_str(key), x);
            match entry_position(&entries, key) {
                Some(i) => {
                    entries.set(i, e);
                    proof {
                        lemma_entry_from_first(before, i as int, e, 0);
                        assert forall|k: Seq<char>| k != key@ implies #[trigger] get_spec(Json::Object(entries), k) == get_spec(old_v, k) by {
                            lemma_entry_from_replace(before, i as int, e, k, 0);
                        }
                    }
                },
                None => {
                    entries.push(e);
                    proof {
                        lemma_entry_from_push(before, e, key@, 0);
                        lemma_entry_from_absent(before, key@, 0);
                        assert forall|k: Seq<char>| k != key@ implies #[trigger] get_spec(Json::Object(entries), k) == get_spec(old_v, k) by {
                            lemma_entry_from_push(before, e, k, 0);
                        }
                    }
                },
            }
            Json::Object(entries)
        },
        _ => {
            let mut entries: Vec<(String, Json)> = Vec::new();
            let ghost empty = entries@;
            let e = (String::from_str(key), x);
            entries.push(e);
            proof {
                lemma_entry_from_push(empty, e, key@, 0);
                assert forall|k: Seq<char>| k != key@ implies #[trigger] get_spec(Json::Object(entries), k) == get_spec(old_v, k) by {
                    lemma_entry_from_push(empty, e, k, 0);
                }
            }
            Json::Object(entries)
        },
    }
}

proof fn lemma_entry_from_absent(entries: Seq<(String, Json)>, key: Seq<char>, j: int)
    requires
        0 <= j <= entries.len(),
        forall|m: int| 0 <= m < entries.len() ==> #[trigger] entries[m].0@ != key,
    ensures
        entry_from(entries, key, j) is None,
    decreases entries.len() - j,
{
    if j < entries.len() {
        lemma_entry_from_absent(entries, key, j + 1);
    }
}

} // verus!
