//! A JSON document as plain library values, and the parse of JSON text.

use vstd::prelude::*;

use crate::text::str_equal;

verus! {

/// A JSON value. Numbers keep their text.
#[derive(Debug)]
pub enum Json {
    Null,
    Bool(bool),
    Number(String),
    Str(String),
    Array(Vec<Json>),
    Object(Vec<(String, Json)>),
}

/// Model of a JSON value.
pub enum JsonModel {
    Null,
    Bool(bool),
    Number(Seq<char>),
    Str(Seq<char>),
    Array(Seq<JsonModel>),
    Object(Seq<(Seq<char>, JsonModel)>),
}

pub open spec fn json_view(j: Json) -> JsonModel
    decreases j,
{
    match j {
        Json::Null => JsonModel::Null,
        Json::Bool(b) => JsonModel::Bool(b),
        Json::Number(s) => JsonModel::Number(s@),
        Json::Str(s) => JsonModel::Str(s@),
        Json::Array(v) => JsonModel::Array(
            Seq::new(
                v@.len(),
                |i: int|
                    if 0 <= i < v@.len() {
                        json_view(v@[i])
                    } else {
                        JsonModel::Null
                    },
            ),
        ),
        Json::Object(v) => JsonModel::Object(
            Seq::new(
                v@.len(),
                |i: int|
                    if 0 <= i < v@.len() {
                        (v@[i].0@, json_view(v@[i].1))
                    } else {
                        (Seq::<char>::empty(), JsonModel::Null)
                    },
            ),
        ),
    }
}

impl View for Json {
    type V = JsonModel;

    open spec fn view(&self) -> JsonModel {
        json_view(*self)
    }
}

/// The value of the first member named `k`.
pub open spec fn member(fields: Seq<(Seq<char>, JsonModel)>, k: Seq<char>) -> Option<JsonModel>
    decreases fields.len(),
{
    if fields.len() == 0 {
        None
    } else if fields[0].0 == k {
        Some(fields[0].1)
    } else {
        member(fields.drop_first(), k)
    }
}

/// The document that JSON text denotes, `None` when the text is not JSON.
pub uninterp spec fn json_of(text: Seq<char>) -> Option<JsonModel>;

/// The declaration of `serde_json::Value`, which the parse goes through.
#[verifier::external_type_specification]
#[verifier::external_body]
pub struct ExJsonValue(serde_json::Value);

/// The library value of a `serde_json::Value`, variant for variant.
#[verifier::external_body]
fn json_from_value(v: serde_json::Value) -> Json {
    match v {
        serde_json::Value::Null => Json::Null,
        serde_json::Value::Bool(b) => Json::Bool(b),
        serde_json::Value::Number(n) => Json::Number(n.to_string()),
        serde_json::Value::String(s) => Json::Str(s),
        serde_json::Value::Array(a) => Json::Array(a.into_iter().map(json_from_value).collect()),
        serde_json::Value::Object(m) => Json::Object(m.into_iter().map(|(k, x)| (k, json_from_value(x))).collect()),
    }
}

/// `serde_json::from_str` into a `serde_json::Value`, converted to the
/// library's `Json`. The parse is a function of the text alone, named
/// `json_of`; what it returns for given text is not stated here. The error
/// message is serde_json's and is not stated either.
#[verifier::external_body]
pub(crate) fn parse_json(text: &str) -> (r: Result<Json, String>)
    ensures
        r is Ok <==> json_of(text@) is Some,
        r matches Ok(j) ==> json_of(text@) == Some(j@),
{
    serde_json::from_str::<serde_json::Value>(text).map(json_from_value).map_err(|e| e.to_string())
}

/// The models of the members of an object.
pub open spec fn members_view(v: Seq<(String, Json)>) -> Seq<(Seq<char>, JsonModel)> {
    Seq::new(v.len(), |i: int| (v[i].0@, json_view(v[i].1)))
}

/// The models of the items of an array.
pub open spec fn items_view(v: Seq<Json>) -> Seq<JsonModel> {
    Seq::new(v.len(), |i: int| json_view(v[i]))
}

/// The model of an object is the models of its members.
pub proof fn lemma_object_view(v: Vec<(String, Json)>)
    ensures
        json_view(Json::Object(v)) == JsonModel::Object(members_view(v@)),
{
    let jv = json_view(Json::Object(v));
    let s2 = jv->Object_0;
    assert(s2.len() == v@.len());
    assert forall|i: int| 0 <= i < s2.len() implies s2[i] == members_view(v@)[i] by {}
    assert(s2 =~= members_view(v@));
}

/// The model of an array is the models of its items.
pub proof fn lemma_array_view(v: Vec<Json>)
    ensures
        json_view(Json::Array(v)) == JsonModel::Array(items_view(v@)),
{
    let jv = json_view(Json::Array(v));
    let s2 = jv->Array_0;
    assert(s2.len() == v@.len());
    assert forall|i: int| 0 <= i < s2.len() implies s2[i] == items_view(v@)[i] by {}
    assert(s2 =~= items_view(v@));
}

/// The value of the first member of `fields` named `k`.
pub fn get_member<'a>(fields: &'a Vec<(String, Json)>, k: &str) -> (r: Option<&'a Json>)
    ensures
        match member(members_view(fields@), k@) {
            None => r is None,
            Some(m) => r matches Some(j) && j@ == m,
        },
{
    let ghost mv = members_view(fields@);
    let mut i: usize = 0;
    assert(mv.skip(0) =~= mv);
    while i < fields.len()
        invariant
            i <= fields@.len(),
            mv == members_view(fields@),
            member(mv, k@) == member(mv.skip(i as int), k@),
        decreases fields@.len() - i,
    {
        proof {
            let rest = mv.skip(i as int);
            assert(rest.drop_first() =~= mv.skip(i + 1));
            assert(rest[0] == mv[i as int]);
        }
        if str_equal(fields[i].0.as_str(), k) {
            return Some(&fields[i].1);
        }
        i = i + 1;
    }
    proof {
        assert(mv.skip(i as int).len() == 0);
    }
    None
}

} // verus!
