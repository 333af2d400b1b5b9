//! JSON documents as plain values, read and written by `serde_json`.

use crate::text::{opt_str, opt_view, same};
use vstd::prelude::*;
use vstd::string::*;

verus! {

/// A parsed JSON document of `serde_json`.
#[verifier::external_type_specification]
#[verifier::external_body]
pub struct ExValue(serde_json::Value);

/// A JSON number of `serde_json`.
#[verifier::external_type_specification]
#[verifier::external_body]
pub struct ExNumber(serde_json::Number);

/// A JSON document. A whole number from zero to the largest of 64 bits is a plain integer;
/// every other number, negative or with a fraction, is carried as `serde_json` read it.
pub enum Json {
    Null,
    Bool(bool),
    Natural(u64),
    Number(serde_json::Number),
    Text(String),
    List(Vec<Json>),
    Object(Vec<(String, Json)>),
}

/// What a [`Json`] stands for.
pub enum JsonModel {
    Null,
    Bool(bool),
    Natural(u64),
    Number(serde_json::Number),
    Text(Seq<char>),
    List(Seq<JsonModel>),
    Object(Seq<(Seq<char>, JsonModel)>),
}

/// What a JSON document stands for.
pub open spec fn json_model(j: Json) -> JsonModel
    decreases j,
{
    match j {
        Json::Null => JsonModel::Null,
        Json::Bool(b) => JsonModel::Bool(b),
        Json::Natural(n) => JsonModel::Natural(n),
        Json::Number(n) => JsonModel::Number(n),
        Json::Text(s) => JsonModel::Text(s@),
        Json::List(v) => JsonModel::List(
            Seq::new(
                v@.len(),
                |i: int|
                    if 0 <= i < v@.len() {
                        json_model(v@[i])
                    } else {
                        JsonModel::Null
                    },
            ),
        ),
        Json::Object(v) => JsonModel::Object(
            Seq::new(
                v@.len(),
                |i: int|
                    if 0 <= i < v@.len() {
                        (v@[i].0@, json_model(v@[i].1))
                    } else {
                        (Seq::empty(), JsonModel::Null)
                    },
            ),
        ),
    }
}

impl View for Json {
    type V = JsonModel;

    open spec fn view(&self) -> JsonModel {
        json_model(*self)
    }
}

/// The document that a text is the JSON notation of, or what is wrong with the text.
pub uninterp spec fn json_read(text: Seq<char>) -> Result<JsonModel, Seq<char>>;

/// The document that bytes are the JSON notation of, or what is wrong with them.
pub uninterp spec fn json_read_bytes(bytes: Seq<u8>) -> Result<JsonModel, Seq<char>>;

/// The object of texts that a text is the JSON notation of, by ascending keys, or what is
/// wrong with the text.
pub uninterp spec fn json_read_texts(text: Seq<char>) -> Result<
    Seq<(Seq<char>, Seq<char>)>,
    Seq<char>,
>;

/// The JSON notation of a document, indented, one member to a line.
pub uninterp spec fn json_pretty(value: JsonModel) -> Seq<char>;

/// What an optional document stands for.
pub open spec fn opt_json(r: Option<Json>) -> Option<JsonModel> {
    match r {
        Some(j) => Some(j@),
        None => None,
    }
}

/// What a document that was read, or the error, stands for.
pub open spec fn read_view(r: Result<Json, String>) -> Result<JsonModel, Seq<char>> {
    match r {
        Ok(j) => Ok(j@),
        Err(e) => Err(e@),
    }
}

/// What a list of pairs of texts that was read, or the error, stands for.
pub open spec fn texts_view(r: Result<Vec<(String, String)>, String>) -> Result<
    Seq<(Seq<char>, Seq<char>)>,
    Seq<char>,
> {
    match r {
        Ok(v) => Ok(v@.map_values(|p: (String, String)| (p.0@, p.1@))),
        Err(e) => Err(e@),
    }
}

/// Turns a document of `serde_json` into a plain value, variant by variant. A number is told
/// apart by `serde_json::Number::as_u64`, which gives exactly the whole numbers from zero on.
#[verifier::external_body]
fn json_of_value(value: serde_json::Value) -> Json {
    match value {
        serde_json::Value::Null => Json::Null,
        serde_json::Value::Bool(b) => Json::Bool(b),
        serde_json::Value::Number(n) => match n.as_u64() {
            Some(whole) => Json::Natural(whole),
            None => Json::Number(n),
        },
        serde_json::Value::String(s) => Json::Text(s),
        serde_json::Value::Array(v) => Json::List(v.into_iter().map(json_of_value).collect()),
        serde_json::Value::Object(m) => Json::Object(
            m.into_iter().map(|(k, v)| (k, json_of_value(v))).collect(),
        ),
    }
}

/// Turns a plain value into a document of `serde_json`, variant by variant; a number that was
/// read is handed back as it is.
#[verifier::external_body]
fn value_of_json(json: &Json) -> serde_json::Value {
    match json {
        Json::Null => serde_json::Value::Null,
        Json::Bool(b) => serde_json::Value::Bool(*b),
        Json::Natural(n) => serde_json::Value::Number(serde_json::Number::from(*n)),
        Json::Number(n) => serde_json::Value::Number(n.clone()),
        Json::Text(s) => serde_json::Value::String(s.clone()),
        Json::List(v) => serde_json::Value::Array(v.iter().map(value_of_json).collect()),
        Json::Object(m) => serde_json::Value::Object(
            m.iter().map(|(k, v)| (k.clone(), value_of_json(v))).collect(),
        ),
    }
}

/// `serde_json::from_str` into a `serde_json::Value`: the document that the text is the JSON
/// notation of, or the text of the error; a function of the text alone.
#[verifier::external_body]
pub(crate) fn read_json(text: &str) -> (r: Result<Json, String>)
    ensures
        read_view(r) == json_read(text@),
{
    serde_json::from_str::<serde_json::Value>(text).map(json_of_value).map_err(|e| e.to_string())
}

/// `serde_json::from_slice` into a `serde_json::Value`: the document that the bytes are the
/// JSON notation of, or the text of the error; a function of the bytes alone.
#[verifier::external_body]
pub(crate) fn read_json_bytes(bytes: &[u8]) -> (r: Result<Json, String>)
    ensures
        read_view(r) == json_read_bytes(bytes@),
{
    serde_json::from_slice::<serde_json::Value>(bytes).map(json_of_value).map_err(|e| e.to_string())
}

/// `serde_json::from_str` into a map from texts to texts: its pairs by ascending keys, or the
/// text of the error; a function of the text alone.
#[verifier::external_body]
pub(crate) fn read_json_texts(text: &str) -> (r: Result<Vec<(String, String)>, String>)
    ensures
        texts_view(r) == json_read_texts(text@),
{
    serde_json::from_str::<std::collections::BTreeMap<String, String>>(text).map(
        |m| m.into_iter().collect(),
    ).map_err(|e| e.to_string())
}

/// `serde_json::to_string_pretty` of a `serde_json::Value`, which cannot fail: the indented
/// JSON notation of the document, a function of the document alone.
#[verifier::external_body]
pub(crate) fn write_json_pretty(value: &Json) -> (r: String)
    ensures
        r@ == json_pretty(value@),
{
    serde_json::to_string_pretty(&value_of_json(value)).unwrap_or_default()
}

// ---------------------------------------------------------------------------
// Members of objects
// ---------------------------------------------------------------------------

/// The position from `i` on of the member with the given key, or the length.
pub open spec fn member_from(members: Seq<(Seq<char>, JsonModel)>, key: Seq<char>, i: int) -> int
    decreases members.len() - i,
{
    if i < 0 || i >= members.len() || members[i].0 == key {
        i
    } else {
        member_from(members, key, i + 1)
    }
}

/// The value of a member of an object.
pub open spec fn member(value: JsonModel, key: Seq<char>) -> Option<JsonModel> {
    match value {
        JsonModel::Object(members) => {
            let k = member_from(members, key, 0);
            if k < members.len() {
                Some(members[k].1)
            } else {
                None
            }
        },
        _ => None,
    }
}

/// The text of a member of an object.
pub open spec fn member_text(value: JsonModel, key: Seq<char>) -> Option<Seq<char>> {
    match member(value, key) {
        Some(JsonModel::Text(t)) => Some(t),
        _ => None,
    }
}

/// What a list of members stands for.
pub open spec fn members_view(v: Seq<(String, Json)>) -> Seq<(Seq<char>, JsonModel)> {
    v.map_values(|p: (String, Json)| (p.0@, p.1@))
}

pub(crate) proof fn lemma_object_view(v: Vec<(String, Json)>)
    ensures
        Json::Object(v)@ == JsonModel::Object(members_view(v@)),
{
    let m = Json::Object(v)@;
    assert(m->Object_0 =~= members_view(v@));
}

pub(crate) fn position_of_member(members: &Vec<(String, Json)>, key: &str) -> (r: usize)
    ensures
        r == member_from(members_view(members@), key@, 0),
        r <= members@.len(),
{
    let ghost ms = members_view(members@);
    let mut i: usize = 0;
    while i < members.len()
        invariant
            i <= members@.len(),
            ms == members_view(members@),
            member_from(ms, key@, 0) == member_from(ms, key@, i as int),
        decreases members@.len() - i,
    {
        assert(ms[i as int] == (members@[i as int].0@, members@[i as int].1@));
        if same(members[i].0.as_str(), key) {
            return i;
        }
        i = i + 1;
    }
    i
}

pub(crate) fn get_member<'a>(value: &'a Json, key: &str) -> (r: Option<&'a Json>)
    ensures
        match r {
            Some(j) => member(value@, key@) == Some(j@),
            None => member(value@, key@) is None,
        },
{
    match value {
        Json::Object(members) => {
            proof {
                lemma_object_view(*members);
            }
            let k: usize = position_of_member(members, key);
            if k < members.len() {
                assert(members_view(members@)[k as int].1 == members@[k as int].1@);
                Some(&members[k].1)
            } else {
                None
            }
        },
        _ => None,
    }
}

pub(crate) fn get_text<'a>(value: &'a Json, key: &str) -> (r: Option<&'a str>)
    ensures
        opt_str(r) == member_text(value@, key@),
{
    match get_member(value, key) {
        Some(Json::Text(t)) => Some(t.as_str()),
        _ => None,
    }
}

/// An object's members with one set: the value of a member with the key is exchanged, or the
/// member is appended.
pub open spec fn with_member(
    members: Seq<(Seq<char>, JsonModel)>,
    key: Seq<char>,
    value: JsonModel,
) -> Seq<(Seq<char>, JsonModel)> {
    let k = member_from(members, key, 0);
    if k < members.len() {
        members.update(k, (key, value))
    } else {
        members.push((key, value))
    }
}

/// An object's members without the one with the given key.
pub open spec fn without_member(members: Seq<(Seq<char>, JsonModel)>, key: Seq<char>) -> Seq<
    (Seq<char>, JsonModel),
> {
    let k = member_from(members, key, 0);
    if k < members.len() {
        members.remove(k)
    } else {
        members
    }
}

pub(crate) fn set_member(members: &mut Vec<(String, Json)>, key: &str, value: Json)
    ensures
        members_view(final(members)@) == with_member(members_view(old(members)@), key@, value@),
{
    let ghost before = members_view(members@);
    let ghost model = (key@, value@);
    let k: usize = position_of_member(members, key);
    let pair = (key.to_owned(), value);
    if k < members.len() {
        members.set(k, pair);
        assert(members_view(members@) == before.update(k as int, model));
    } else {
        members.push(pair);
        assert(members_view(members@) == before.push(model));
    }
}

pub(crate) fn remove_member(members: &mut Vec<(String, Json)>, key: &str)
    ensures
        members_view(final(members)@) == without_member(members_view(old(members)@), key@),
{
    let ghost before = members_view(members@);
    let k: usize = position_of_member(members, key);
    if k < members.len() {
        members.remove(k);
        assert(members_view(members@) == before.remove(k as int));
    }
}

// ---------------------------------------------------------------------------
// Cross-origin settings
// ---------------------------------------------------------------------------

/// The list that holds the one text `*`.
pub open spec fn any_list() -> JsonModel {
    JsonModel::List(seq![JsonModel::Text("*"@)])
}

/// Cross-origin settings that let any origin in.
pub open spec fn open_cors(members: Seq<(Seq<char>, JsonModel)>) -> Seq<(Seq<char>, JsonModel)> {
    with_member(
        with_member(
            without_member(
                with_member(members, "allow_origin_regex"@, JsonModel::Text("^https?://.*$"@)),
                "allow_origins"@,
            ),
            "allow_methods"@,
            any_list(),
        ),
        "allow_headers"@,
        any_list(),
    )
}

/// The object at `http.cors` of a document, as its members.
pub open spec fn cors_members(value: JsonModel) -> Option<Seq<(Seq<char>, JsonModel)>> {
    match member(value, "http"@) {
        Some(http) => match member(http, "cors"@) {
            Some(JsonModel::Object(members)) => Some(members),
            _ => None,
        },
        None => None,
    }
}

/// The value with one of its members, which it has, set to another value.
pub open spec fn with_inner(value: JsonModel, key: Seq<char>, inner: JsonModel) -> JsonModel {
    match value {
        JsonModel::Object(members) => JsonModel::Object(with_member(members, key, inner)),
        _ => value,
    }
}

/// A server configuration whose cross-origin settings let any origin in, where it has some.
pub open spec fn with_open_cors(value: JsonModel) -> Option<JsonModel> {
    match cors_members(value) {
        Some(cors) => Some(
            with_inner(
                value,
                "http"@,
                with_inner(
                    member(value, "http"@)->0,
                    "cors"@,
                    JsonModel::Object(open_cors(cors)),
                ),
            ),
        ),
        None => None,
    }
}

fn any_text_list() -> (r: Json)
    ensures
        r@ == any_list(),
{
    let v: Vec<Json> = vec![Json::Text("*".to_owned())];
    let r = Json::List(v);
    proof {
        reveal_with_fuel(json_model, 2);
    }
    assert(r@->List_0 =~= any_list()->List_0);
    r
}

/// Takes a member out of an object to be worked on.
fn take_member(value: Json, key: &str) -> (r: Option<(Vec<(String, Json)>, usize, Json)>)
    ensures
        match r {
            Some(p) => {
                &&& value@ is Object
                &&& p.1 == member_from(value@->Object_0, key@, 0)
                &&& p.1 < value@->Object_0.len()
                &&& p.0@.len() == value@->Object_0.len()
                &&& members_view(p.0@) == value@->Object_0.update(
                    p.1 as int,
                    (key@, JsonModel::Null),
                )
                &&& member(value@, key@) == Some(p.2@)
            },
            None => member(value@, key@) is None,
        },
{
    match value {
        Json::Object(mut members) => {
            proof {
                lemma_object_view(members);
            }
            let ghost before = members_view(members@);
            let k: usize = position_of_member(&members, key);
            if k < members.len() {
                let ghost taken = members@[k as int];
                assert(before[k as int] == (taken.0@, taken.1@));
                members.push((key.to_owned(), Json::Null));
                let pair = members.swap_remove(k);
                assert(members_view(members@) == before.update(k as int, (key@, JsonModel::Null)));
                Some((members, k, pair.1))
            } else {
                None
            }
        },
        _ => None,
    }
}

/// Lets any origin in, in a server configuration that has cross-origin settings.
pub fn open_cors_settings(value: Json) -> (r: Option<Json>)
    ensures
        opt_json(r) == with_open_cors(value@),
{
    let ghost whole = value@;
    let (mut outer, k, http): (Vec<(String, Json)>, usize, Json) = match take_member(value, "http") {
        Some(p) => p,
        None => {
            return None;
        },
    };
    let ghost http_model = http@;
    let (mut middle, m, cors): (Vec<(String, Json)>, usize, Json) = match take_member(
        http,
        "cors",
    ) {
        Some(p) => p,
        None => {
            return None;
        },
    };
    match cors {
        Json::Object(mut members) => {
            proof {
                lemma_object_view(members);
            }
            set_member(&mut members, "allow_origin_regex", Json::Text("^https?://.*$".to_owned()));
            remove_member(&mut members, "allow_origins");
            set_member(&mut members, "allow_methods", any_text_list());
            set_member(&mut members, "allow_headers", any_text_list());
            proof {
                lemma_object_view(members);
            }
            let inner = Json::Object(members);
            let ghost inner_model = inner@;
            let pair = ("cors".to_owned(), inner);
            let ghost gap = members_view(middle@);
            middle.set(m, pair);
            assert(members_view(middle@) == gap.update(m as int, ("cors"@, inner_model)));
            assert(members_view(middle@) == http_model->Object_0.update(
                m as int,
                ("cors"@, inner_model),
            ));
            proof {
                lemma_object_view(middle);
            }
            let http = Json::Object(middle);
            let ghost patched = http@;
            let pair = ("http".to_owned(), http);
            let ghost gap = members_view(outer@);
            outer.set(k, pair);
            assert(members_view(outer@) == gap.update(k as int, ("http"@, patched)));
            assert(members_view(outer@) == whole->Object_0.update(k as int, ("http"@, patched)));
            proof {
                lemma_object_view(outer);
            }
            Some(Json::Object(outer))
        },
        _ => None,
    }
}

/// Lets any origin reach the server of an instance: its `langgraph.json`, where it is JSON and
/// has cross-origin settings, is written anew with a line feed at its end.
pub fn patch_langgraph_cors_if_needed(file: Option<&str>) -> (r: Option<String>)
    ensures
        opt_view(r) == match file {
            Some(content) => match json_read(content@) {
                Ok(value) => match with_open_cors(value) {
                    Some(patched) => Some(json_pretty(patched) + "\n"@),
                    None => None,
                },
                Err(_) => None,
            },
            None => None,
        },
{
    match file {
        Some(content) => match read_json(content) {
            Ok(value) => match open_cors_settings(value) {
                Some(patched) => {
                    let mut text = write_json_pretty(&patched);
                    text.append("\n");
                    Some(text)
                },
                None => None,
            },
            Err(_) => None,
        },
        None => None,
    }
}

// ---------------------------------------------------------------------------
// Laws
// ---------------------------------------------------------------------------

/// Whether no key occurs twice, as in every document that was read.
pub open spec fn has_distinct_members(members: Seq<(Seq<char>, JsonModel)>) -> bool {
    forall|i: int, j: int|
        0 <= i < j < members.len() ==> (#[trigger] members[i]).0 != (#[trigger] members[j]).0
}

proof fn lemma_member_from(members: Seq<(Seq<char>, JsonModel)>, key: Seq<char>, i: int)
    requires
        0 <= i <= members.len(),
    ensures
        i <= member_from(members, key, i) <= members.len(),
        member_from(members, key, i) < members.len() ==> members[member_from(members, key, i)].0
            == key,
        forall|j: int|
            i <= j < member_from(members, key, i) ==> (#[trigger] members[j]).0 != key,
    decreases members.len() - i,
{
    if i < members.len() && members[i].0 != key {
        lemma_member_from(members, key, i + 1);
    }
}

/// The first position at which a key stands is where the search ends.
proof fn lemma_member_at(members: Seq<(Seq<char>, JsonModel)>, key: Seq<char>, k: int)
    requires
        0 <= k <= members.len(),
        k < members.len() ==> members[k].0 == key,
        forall|j: int| 0 <= j < k ==> (#[trigger] members[j]).0 != key,
    ensures
        member_from(members, key, 0) == k,
{
    lemma_member_from(members, key, 0);
    let m = member_from(members, key, 0);
    if m < k {
        assert(members[m].0 != key);
    }
}

/// A member that was set has its value; the others have theirs.
proof fn lemma_with_member(
    members: Seq<(Seq<char>, JsonModel)>,
    key: Seq<char>,
    value: JsonModel,
    other: Seq<char>,
)
    ensures
        member(JsonModel::Object(with_member(members, key, value)), key) == Some(value),
        other != key ==> member(JsonModel::Object(with_member(members, key, value)), other)
            == member(JsonModel::Object(members), other),
        has_distinct_members(members) ==> has_distinct_members(with_member(members, key, value)),
{
    let after = with_member(members, key, value);
    lemma_member_from(members, key, 0);
    lemma_member_from(members, other, 0);
    let k = member_from(members, key, 0);
    let m = member_from(members, other, 0);
    assert(after[k] == (key, value));
    assert forall|j: int| 0 <= j < k implies (#[trigger] after[j]).0 != key by {
        assert(after[j] == members[j]);
    }
    lemma_member_at(after, key, k);
    if other != key {
        assert forall|j: int| 0 <= j < members.len() implies (#[trigger] after[j]).0 == members[j].0 by {}
        if m < members.len() {
            assert(after[m] == members[m]);
            lemma_member_at(after, other, m);
        } else {
            assert forall|j: int| 0 <= j < after.len() implies (#[trigger] after[j]).0 != other by {
                if j < members.len() {
                    assert(after[j].0 == members[j].0);
                }
            }
            lemma_member_at(after, other, after.len() as int);
        }
    }
    if has_distinct_members(members) {
        assert forall|i: int, j: int| 0 <= i < j < after.len() implies (#[trigger] after[i]).0 != (
        #[trigger] after[j]).0 by {
            assert(i < members.len() ==> after[i].0 == members[i].0);
            assert(j < members.len() ==> after[j].0 == members[j].0);
        }
    }
}

/// A member that was taken out is gone; the others have their values.
proof fn lemma_without_member(
    members: Seq<(Seq<char>, JsonModel)>,
    key: Seq<char>,
    other: Seq<char>,
)
    requires
        has_distinct_members(members),
    ensures
        member(JsonModel::Object(without_member(members, key)), key) is None,
        other != key ==> member(JsonModel::Object(without_member(members, key)), other) == member(
            JsonModel::Object(members),
            other,
        ),
        has_distinct_members(without_member(members, key)),
{
    let after = without_member(members, key);
    lemma_member_from(members, key, 0);
    lemma_member_from(members, other, 0);
    let k = member_from(members, key, 0);
    let m = member_from(members, other, 0);
    if k < members.len() {
        assert forall|j: int| 0 <= j < after.len() implies #[trigger] after[j] == members[if j < k {
            j
        } else {
            j + 1
        }] by {}
        assert forall|j: int| 0 <= j < after.len() implies (#[trigger] after[j]).0 != key by {
            let i = if j < k {
                j
            } else {
                j + 1
            };
            assert(after[j] == members[i]);
            assert(members[k].0 == key);
        }
        lemma_member_at(after, key, after.len() as int);
        if other != key {
            let n = if m <= k {
                m
            } else {
                m - 1
            };
            if m < members.len() {
                assert(m != k);
                assert(after[n] == members[m]);
            }
            assert forall|j: int| 0 <= j < n implies (#[trigger] after[j]).0 != other by {
                let i = if j < k {
                    j
                } else {
                    j + 1
                };
                assert(after[j] == members[i]);
            }
            if m == members.len() {
                lemma_member_at(after, other, after.len() as int);
            } else {
                lemma_member_at(after, other, n);
            }
        }
        assert forall|i: int, j: int| 0 <= i < j < after.len() implies (#[trigger] after[i]).0 != (
        #[trigger] after[j]).0 by {
            let a = if i < k {
                i
            } else {
                i + 1
            };
            let b = if j < k {
                j
            } else {
                j + 1
            };
            assert(after[i] == members[a] && after[j] == members[b]);
        }
    }
}

/// Setting a member to the value that it has changes nothing.
proof fn lemma_with_member_again(
    members: Seq<(Seq<char>, JsonModel)>,
    key: Seq<char>,
    value: JsonModel,
)
    requires
        member(JsonModel::Object(members), key) == Some(value),
    ensures
        with_member(members, key, value) == members,
{
    lemma_member_from(members, key, 0);
    let k = member_from(members, key, 0);
    assert(members[k] == (key, value));
    assert(members.update(k, (key, value)) == members);
}

proof fn lemma_open_cors_is_stable(members: Seq<(Seq<char>, JsonModel)>)
    requires
        has_distinct_members(members),
    ensures
        open_cors(open_cors(members)) == open_cors(members),
        has_distinct_members(open_cors(members)),
{
    reveal_strlit("allow_origin_regex");
    reveal_strlit("allow_origins");
    reveal_strlit("allow_methods");
    reveal_strlit("allow_headers");
    let regex = "allow_origin_regex"@;
    let origins = "allow_origins"@;
    let methods = "allow_methods"@;
    let headers = "allow_headers"@;
    assert(regex.len() == 18 && origins.len() == 13 && methods.len() == 13 && headers.len() == 13);
    assert(origins[6] == 'o' && methods[6] == 'm' && headers[6] == 'h');
    let text = JsonModel::Text("^https?://.*$"@);
    let a = with_member(members, regex, text);
    let b = without_member(a, origins);
    let c = with_member(b, methods, any_list());
    let d = with_member(c, headers, any_list());
    lemma_with_member(members, regex, text, origins);
    lemma_without_member(a, origins, regex);
    lemma_with_member(b, methods, any_list(), regex);
    lemma_with_member(b, methods, any_list(), origins);
    lemma_with_member(c, headers, any_list(), regex);
    lemma_with_member(c, headers, any_list(), origins);
    lemma_with_member(c, headers, any_list(), methods);
    lemma_with_member_again(d, regex, text);
    assert(without_member(d, origins) == d);
    lemma_with_member_again(d, methods, any_list());
    lemma_with_member_again(d, headers, any_list());
}

/// Opening cross-origin settings that are open changes nothing.
pub proof fn law_open_cors_is_stable(value: JsonModel)
    requires
        cors_members(value) matches Some(cors) ==> has_distinct_members(cors),
    ensures
        with_open_cors(value) matches Some(patched) ==> with_open_cors(patched) == Some(patched),
{
    if let Some(cors) = cors_members(value) {
        let http = member(value, "http"@)->0;
        let inner = JsonModel::Object(open_cors(cors));
        let middle = with_inner(http, "cors"@, inner);
        let outer = with_inner(value, "http"@, middle);
        lemma_with_member(value->Object_0, "http"@, middle, "http"@);
        lemma_with_member(http->Object_0, "cors"@, inner, "cors"@);
        assert(member(outer, "http"@) == Some(middle));
        assert(member(middle, "cors"@) == Some(inner));
        lemma_open_cors_is_stable(cors);
        lemma_with_member_again(middle->Object_0, "cors"@, inner);
        lemma_with_member_again(outer->Object_0, "http"@, middle);
    }
}

} // verus!
