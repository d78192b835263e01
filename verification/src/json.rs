//! JSON documents as plain values, and their size.
use vstd::prelude::*;
use crate::order::chars_lt;

verus! {

/// A JSON document. Numbers keep the text that `serde_json` prints for them. Object
/// members are meant to come as a `serde_json` map holds them, sorted by key with each
/// key once (`json_sorted`); promotion requires it of resolver schemas, and the decoder
/// takes no other order.
#[derive(Debug, PartialEq, Eq)]
pub enum JsonValue {
    Null,
    Bool(bool),
    Number(String),
    Text(String),
    Array(Vec<JsonValue>),
    Object(Vec<(String, JsonValue)>),
}

/// The content of a JSON document as a mathematical value.
pub enum JsonModel {
    Null,
    Bool(bool),
    Number(Seq<char>),
    Text(Seq<char>),
    Array(Seq<JsonModel>),
    Object(Seq<(Seq<char>, JsonModel)>),
}

impl View for JsonValue {
    type V = JsonModel;

    open spec fn view(&self) -> JsonModel {
        json_model(*self)
    }
}

/// The content of `v`.
pub open spec fn json_model(v: JsonValue) -> JsonModel
    decreases v, 0nat,
{
    match v {
        JsonValue::Null => JsonModel::Null,
        JsonValue::Bool(b) => JsonModel::Bool(b),
        JsonValue::Number(n) => JsonModel::Number(n@),
        JsonValue::Text(t) => JsonModel::Text(t@),
        JsonValue::Array(items) => JsonModel::Array(item_models(items@, 0)),
        JsonValue::Object(members) => JsonModel::Object(member_models(members@, 0)),
    }
}

/// The contents of `items[i..]`.
pub open spec fn item_models(items: Seq<JsonValue>, i: int) -> Seq<JsonModel>
    decreases items, items.len() - i,
{
    if 0 <= i < items.len() {
        seq![json_model(items[i])] + item_models(items, i + 1)
    } else {
        Seq::empty()
    }
}

/// The contents of `members[i..]`.
pub open spec fn member_models(members: Seq<(String, JsonValue)>, i: int) -> Seq<(Seq<char>, JsonModel)>
    decreases members, members.len() - i,
{
    if 0 <= i < members.len() {
        seq![(members[i].0@, json_model(members[i].1))] + member_models(members, i + 1)
    } else {
        Seq::empty()
    }
}

pub proof fn lemma_item_models(items: Seq<JsonValue>, i: int)
    requires
        0 <= i <= items.len(),
    ensures
        item_models(items, i).len() == items.len() - i,
        forall|j: int| 0 <= j < items.len() - i ==> #[trigger] item_models(items, i)[j] == json_model(items[i + j]),
    decreases items.len() - i,
{
    if i < items.len() {
        lemma_item_models(items, i + 1);
    }
}

pub proof fn lemma_member_models(members: Seq<(String, JsonValue)>, i: int)
    requires
        0 <= i <= members.len(),
    ensures
        member_models(members, i).len() == members.len() - i,
        forall|j: int| 0 <= j < members.len() - i ==> #[trigger] member_models(members, i)[j]
            == (members[i + j].0@, json_model(members[i + j].1)),
    decreases members.len() - i,
{
    if i < members.len() {
        lemma_member_models(members, i + 1);
    }
}

/// The keys of `members` are strictly increasing: sorted, each present once.
pub open spec fn members_sorted(members: Seq<(Seq<char>, JsonModel)>) -> bool {
    forall|i: int, j: int| 0 <= i < j < members.len() ==> chars_lt((#[trigger] members[i]).0, (#[trigger] members[j]).0)
}

/// Every object in `v` holds its members sorted by key, each key once, as a
/// `serde_json` map holds them.
pub open spec fn json_sorted(v: JsonModel) -> bool
    decreases v,
{
    match v {
        JsonModel::Array(items) => forall|i: int| 0 <= i < items.len() ==> json_sorted(#[trigger] items[i]),
        JsonModel::Object(members) => members_sorted(members) && forall|i: int|
            0 <= i < members.len() ==> json_sorted(#[trigger] members[i].1),
        _ => true,
    }
}

/// Number of nodes of `v`: itself plus the nodes of every element or member value.
pub open spec fn json_nodes(v: JsonModel) -> nat
    decreases v, 0nat,
{
    match v {
        JsonModel::Array(items) => 1 + json_nodes_items(items, 0),
        JsonModel::Object(members) => 1 + json_nodes_members(members, 0),
        _ => 1,
    }
}

/// Nodes of `items[i..]`.
pub open spec fn json_nodes_items(items: Seq<JsonModel>, i: int) -> nat
    decreases items, items.len() - i,
{
    if 0 <= i < items.len() {
        json_nodes(items[i]) + json_nodes_items(items, i + 1)
    } else {
        0
    }
}

/// Nodes of the member values `members[i..]`.
pub open spec fn json_nodes_members(members: Seq<(Seq<char>, JsonModel)>, i: int) -> nat
    decreases members, members.len() - i,
{
    if 0 <= i < members.len() {
        json_nodes(members[i].1) + json_nodes_members(members, i + 1)
    } else {
        0
    }
}

impl Clone for JsonValue {
    #[verifier::loop_isolation(false)]
    fn clone(&self) -> (res: Self)
        ensures
            res@ == self@,
        decreases self,
    {
        match self {
            JsonValue::Null => JsonValue::Null,
            JsonValue::Bool(b) => JsonValue::Bool(*b),
            JsonValue::Number(n) => JsonValue::Number(n.clone()),
            JsonValue::Text(t) => JsonValue::Text(t.clone()),
            JsonValue::Array(items) => {
                let mut out: Vec<JsonValue> = Vec::new();
                let mut i: usize = 0;
                while i < items.len()
                    invariant
                        i <= items.len(),
                        out@.len() == i,
                        forall|j: int| 0 <= j < i ==> json_model(#[trigger] out@[j]) == json_model(items@[j]),
                    decreases items.len() - i,
                {
                    proof {
                        assert(*items == self->Array_0);
                        assert(decreases_to!(*self => self->Array_0));
                        assert(decreases_to!(*items => items@));
                        assert(decreases_to!(items@ => items@[i as int]));
                    }
                    let c = items[i].clone();
                    out.push(c);
                    i = i + 1;
                }
                proof {
                    lemma_item_models(out@, 0);
                    lemma_item_models(items@, 0);
                    assert(item_models(out@, 0) =~= item_models(items@, 0));
                }
                JsonValue::Array(out)
            },
            JsonValue::Object(members) => {
                let mut out: Vec<(String, JsonValue)> = Vec::new();
                let mut i: usize = 0;
                while i < members.len()
                    invariant
                        i <= members.len(),
                        out@.len() == i,
                        forall|j: int| 0 <= j < i ==> (#[trigger] out@[j]).0@ == members@[j].0@
                            && json_model(out@[j].1) == json_model(members@[j].1),
                    decreases members.len() - i,
                {
                    proof {
                        assert(*members == self->Object_0);
                        assert(decreases_to!(*self => self->Object_0));
                        assert(decreases_to!(*members => members@));
                        assert(decreases_to!(members@ => members@[i as int]));
                        assert(decreases_to!(members@[i as int] => members@[i as int].1));
                    }
                    let k = members[i].0.clone();
                    let v = members[i].1.clone();
                    out.push((k, v));
                    i = i + 1;
                }
                proof {
                    lemma_member_models(out@, 0);
                    lemma_member_models(members@, 0);
                    assert(member_models(out@, 0) =~= member_models(members@, 0));
                }
                JsonValue::Object(out)
            },
        }
    }
}

/// `n` capped at `usize::MAX`.
pub open spec fn cap_usize(n: nat) -> usize {
    if n <= usize::MAX { n as usize } else { usize::MAX }
}

/// Counts the nodes of `value`, saturating at `usize::MAX`.
#[verifier::loop_isolation(false)]
pub fn json_node_count(value: &JsonValue) -> (count: usize)
    ensures
        count == cap_usize(json_nodes(value@)),
    decreases value,
{
    match value {
        JsonValue::Array(items) => {
            proof {
                lemma_item_models(items@, 0);
            }
            let mut acc: usize = 1;
            let mut i: usize = items.len();
            while i > 0
                invariant
                    i <= items.len(),
                    acc == cap_usize(1 + json_nodes_items(item_models(items@, 0), i as int)),
                decreases i,
            {
                i = i - 1;
                proof {
                    assert(*items == value->Array_0);
                    assert(decreases_to!(*value => value->Array_0));
                    assert(decreases_to!(*items => items@));
                    assert(decreases_to!(items@ => items@[i as int]));
                }
                let n = json_node_count(&items[i]);
                acc = acc.saturating_add(n);
            }
            acc
        },
        JsonValue::Object(members) => {
            proof {
                lemma_member_models(members@, 0);
            }
            let mut acc: usize = 1;
            let mut i: usize = members.len();
            while i > 0
                invariant
                    i <= members.len(),
                    acc == cap_usize(1 + json_nodes_members(member_models(members@, 0), i as int)),
                decreases i,
            {
                i = i - 1;
                proof {
                    assert(*members == value->Object_0);
                    assert(decreases_to!(*value => value->Object_0));
                    assert(decreases_to!(*members => members@));
                    assert(decreases_to!(members@ => members@[i as int]));
                    assert(decreases_to!(members@[i as int] => members@[i as int].1));
                }
                let n = json_node_count(&members[i].1);
                acc = acc.saturating_add(n);
            }
            acc
        },
        _ => 1,
    }
}

} // verus!

verus! {

#[verifier::external_type_specification]
#[verifier::external_body]
pub struct ExSerdeJsonValue(serde_json::Value);

/// Rebuilds a `serde_json::Value` as a `JsonValue`, keeping each number's printed text
/// and the map's member order.
#[verifier::external_body]
pub(crate) fn json_from_serde(value: serde_json::Value) -> JsonValue {
    match value {
        serde_json::Value::Null => JsonValue::Null,
        serde_json::Value::Bool(b) => JsonValue::Bool(b),
        serde_json::Value::Number(n) => JsonValue::Number(n.to_string()),
        serde_json::Value::String(s) => JsonValue::Text(s),
        serde_json::Value::Array(items) => JsonValue::Array(items.into_iter().map(json_from_serde).collect()),
        serde_json::Value::Object(members) => JsonValue::Object(members.into_iter().map(|(k, v)| (k, json_from_serde(v))).collect()),
    }
}

/// Rebuilds a `JsonValue` as a `serde_json::Value`; `None` when a number's text is not a JSON number.
#[verifier::external_body]
pub(crate) fn json_to_serde(value: &JsonValue) -> Option<serde_json::Value> {
    Some(match value {
        JsonValue::Null => serde_json::Value::Null,
        JsonValue::Bool(b) => serde_json::Value::Bool(*b),
        JsonValue::Number(text) => serde_json::Value::Number(text.parse().ok()?),
        JsonValue::Text(s) => serde_json::Value::String(s.clone()),
        JsonValue::Array(items) => serde_json::Value::Array(items.iter().map(json_to_serde).collect::<Option<Vec<_>>>()?),
        JsonValue::Object(members) => serde_json::Value::Object(members.iter().map(|(k, v)| Some((k.clone(), json_to_serde(v)?))).collect::<Option<serde_json::Map<_, _>>>()?),
    })
}

} // verus!

verus! {

/// Whether `jsonschema::validator_for(schema)` builds a validator and that
/// validator's `validate` accepts `instance` (both taken through `serde_json`).
pub uninterp spec fn schema_accepts(schema: JsonModel, instance: JsonModel) -> bool;

/// Calls `jsonschema::validator_for` on `schema` and `validate` on `instance`.
/// Trusted to return `schema_accepts(schema, instance)`; a schema or instance
/// that `serde_json` cannot hold, or a schema the crate rejects, counts as not accepted.
#[verifier::external_body]
pub fn validate_schema(schema: &JsonValue, instance: &JsonValue) -> (res: bool)
    ensures
        res == schema_accepts(schema@, instance@),
{
    match (json_to_serde(schema), json_to_serde(instance)) {
        (Some(schema), Some(instance)) => match jsonschema::validator_for(&schema) {
            Ok(validator) => validator.validate(&instance).is_ok(),
            Err(_) => false,
        },
        _ => false,
    }
}

} // verus!
