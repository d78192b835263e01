//! Deterministic CBOR framing of bindings: definite-length maps keyed by field name,
//! minimal integer heads, text as UTF-8, as `serde_cbor::to_vec` lays out a struct.
use vstd::prelude::*;
use vstd::utf8::encode_utf8;
use crate::json::{JsonValue, JsonModel, item_models, member_models, lemma_item_models, lemma_member_models};
use crate::binding::{BindingScopeV1, BindingPolicyV1, BindingLimitsV1, ExecutableBindingV1, ExecutableOperationV1};
use crate::operations::OperationMap;
use crate::number::{int_cbor, is_int_text, text_int};

verus! {

/// `n` as two big-endian bytes.
pub open spec fn be2(n: u64) -> Seq<u8> {
    seq![((n / 0x100) % 0x100) as u8, (n % 0x100) as u8]
}

/// `n` as four big-endian bytes.
pub open spec fn be4(n: u64) -> Seq<u8> {
    seq![((n / 0x100_0000) % 0x100) as u8, ((n / 0x1_0000) % 0x100) as u8, ((n / 0x100) % 0x100) as u8, (n % 0x100) as u8]
}

/// `n` as eight big-endian bytes.
pub open spec fn be8(n: u64) -> Seq<u8> {
    seq![
        ((n / 0x100_0000_0000_0000) % 0x100) as u8,
        ((n / 0x1_0000_0000_0000) % 0x100) as u8,
        ((n / 0x100_0000_0000) % 0x100) as u8,
        ((n / 0x1_0000_0000) % 0x100) as u8,
        ((n / 0x100_0000) % 0x100) as u8,
        ((n / 0x1_0000) % 0x100) as u8,
        ((n / 0x100) % 0x100) as u8,
        (n % 0x100) as u8,
    ]
}

/// The head of a CBOR item of major type `major` with argument `n`, in its shortest form.
#[verifier::opaque]
pub open spec fn cbor_head(major: u8, n: u64) -> Seq<u8> {
    let m = (major as int) * 32;
    if n <= 23 {
        seq![(m + n) as u8]
    } else if n <= 0xff {
        seq![(m + 24) as u8, n as u8]
    } else if n <= 0xffff {
        seq![(m + 25) as u8] + be2(n)
    } else if n <= 0xffff_ffff {
        seq![(m + 26) as u8] + be4(n)
    } else {
        seq![(m + 27) as u8] + be8(n)
    }
}

/// An unsigned integer.
pub open spec fn cbor_uint(n: u64) -> Seq<u8> {
    cbor_head(0, n)
}

/// A text string.
pub open spec fn cbor_text(s: Seq<char>) -> Seq<u8> {
    cbor_head(3, encode_utf8(s).len() as u64) + encode_utf8(s)
}

/// The CBOR `null`.
pub open spec fn cbor_null() -> Seq<u8> {
    seq![0xf6u8]
}

/// What `serde_cbor::to_vec` writes for the `serde_json::Number` that `text` parses to;
/// `None` when `text` is not a JSON number or the encoder fails.
pub uninterp spec fn json_number_encoding(text: Seq<char>) -> Option<Seq<u8>>;

/// The encoding of the number whose text is `t`: an integer that `serde_json` holds as
/// one is written as a CBOR integer; any other number as `serde_cbor` writes it.
pub open spec fn number_cbor(t: Seq<char>) -> Option<Seq<u8>> {
    if is_int_text(t) {
        Some(int_cbor(text_int(t)))
    } else {
        json_number_encoding(t)
    }
}

/// The encoding of a JSON document as `serde_cbor` writes a `serde_json::Value`.
pub open spec fn json_cbor(v: JsonModel) -> Option<Seq<u8>>
    decreases v, 0nat,
{
    match v {
        JsonModel::Null => Some(cbor_null()),
        JsonModel::Bool(b) => Some(seq![if b { 0xf5u8 } else { 0xf4u8 }]),
        JsonModel::Number(t) => number_cbor(t),
        JsonModel::Text(t) => Some(cbor_text(t)),
        JsonModel::Array(items) => match json_cbor_items(items, items.len() as int) {
            Some(body) => Some(cbor_head(4, items.len() as u64) + body),
            None => None,
        },
        JsonModel::Object(members) => match json_cbor_members(members, members.len() as int) {
            Some(body) => Some(cbor_head(5, members.len() as u64) + body),
            None => None,
        },
    }
}

/// The encodings of `items[..n]`, one after the other.
pub open spec fn json_cbor_items(items: Seq<JsonModel>, n: int) -> Option<Seq<u8>>
    decreases items, n,
{
    if 0 < n <= items.len() {
        match (json_cbor_items(items, n - 1), json_cbor(items[n - 1])) {
            (Some(a), Some(b)) => Some(a + b),
            _ => None,
        }
    } else {
        Some(Seq::empty())
    }
}

/// The encodings of `members[..n]`, each key followed by its value.
pub open spec fn json_cbor_members(members: Seq<(Seq<char>, JsonModel)>, n: int) -> Option<Seq<u8>>
    decreases members, n,
{
    if 0 < n <= members.len() {
        match (json_cbor_members(members, n - 1), json_cbor(members[n - 1].1)) {
            (Some(a), Some(b)) => Some(a + cbor_text(members[n - 1].0) + b),
            _ => None,
        }
    } else {
        Some(Seq::empty())
    }
}

/// Appends the head of an item of major type `major` with argument `n`.
pub fn write_head(out: &mut Vec<u8>, major: u8, n: u64)
    requires
        major < 8,
    ensures
        final(out)@ == old(out)@ + cbor_head(major, n),
{
    let m: u8 = major * 32;
    if n <= 23 {
        out.push(m + n as u8);
    } else if n <= 0xff {
        out.push(m + 24);
        out.push(n as u8);
    } else if n <= 0xffff {
        out.push(m + 25);
        out.push(((n / 0x100) % 0x100) as u8);
        out.push((n % 0x100) as u8);
    } else if n <= 0xffff_ffff {
        out.push(m + 26);
        out.push(((n / 0x100_0000) % 0x100) as u8);
        out.push(((n / 0x1_0000) % 0x100) as u8);
        out.push(((n / 0x100) % 0x100) as u8);
        out.push((n % 0x100) as u8);
    } else {
        out.push(m + 27);
        out.push(((n / 0x100_0000_0000_0000) % 0x100) as u8);
        out.push(((n / 0x1_0000_0000_0000) % 0x100) as u8);
        out.push(((n / 0x100_0000_0000) % 0x100) as u8);
        out.push(((n / 0x1_0000_0000) % 0x100) as u8);
        out.push(((n / 0x100_0000) % 0x100) as u8);
        out.push(((n / 0x1_0000) % 0x100) as u8);
        out.push(((n / 0x100) % 0x100) as u8);
        out.push((n % 0x100) as u8);
    }
    proof {
        reveal(cbor_head);
        let h = cbor_head(major, n);
        assert(final(out)@ =~= old(out)@ + h);
    }
}

/// Appends an unsigned integer.
pub fn write_uint(out: &mut Vec<u8>, n: u64)
    ensures
        final(out)@ == old(out)@ + cbor_uint(n),
{
    write_head(out, 0, n);
}

/// Appends `null`.
pub fn write_null(out: &mut Vec<u8>)
    ensures
        final(out)@ == old(out)@ + cbor_null(),
{
    out.push(0xf6);
    proof {
        assert(final(out)@ =~= old(out)@ + cbor_null());
    }
}

/// Appends a text string.
pub fn write_text(out: &mut Vec<u8>, s: &str)
    ensures
        final(out)@ == old(out)@ + cbor_text(s@),
{
    let bytes = s.as_bytes();
    write_head(out, 3, bytes.len() as u64);
    let ghost mid = out@;
    let mut i: usize = 0;
    while i < bytes.len()
        invariant
            i <= bytes.len(),
            bytes@ == encode_utf8(s@),
            out@ == mid + bytes@.take(i as int),
        decreases bytes.len() - i,
    {
        out.push(bytes[i]);
        proof {
            assert(bytes@.take(i + 1) =~= bytes@.take(i as int).push(bytes@[i as int]));
        }
        i = i + 1;
    }
    proof {
        assert(bytes@.take(bytes.len() as int) =~= bytes@);
        assert(final(out)@ =~= old(out)@ + cbor_text(s@));
    }
}

/// Calls `serde_cbor::to_vec` on the `serde_json::Number` parsed from `text`.
/// Trusted to return `json_number_encoding(text)`, and, where `text` is the decimal text
/// of an integer from `i64::MIN` to `u64::MAX`, its CBOR integer: `Number::from_str`
/// then holds a `PosInt` or `NegInt`, which `serde_cbor` writes with `serialize_u64` or
/// `serialize_i64` as a shortest head of major type 0 or 1.
#[verifier::external_body]
pub fn encode_json_number(text: &str) -> (res: Option<Vec<u8>>)
    ensures
        match res {
            Some(b) => json_number_encoding(text@) == Some(b@),
            None => json_number_encoding(text@) is None,
        },
        is_int_text(text@) ==> res is Some && res->Some_0@ == int_cbor(text_int(text@)),
{
    serde_cbor::to_vec(&text.parse::<serde_json::Number>().ok()?).ok()
}

/// Appends raw bytes.
pub fn write_bytes(out: &mut Vec<u8>, bytes: &Vec<u8>)
    ensures
        final(out)@ == old(out)@ + bytes@,
{
    let ghost start = out@;
    let mut i: usize = 0;
    while i < bytes.len()
        invariant
            i <= bytes.len(),
            out@ == start + bytes@.take(i as int),
        decreases bytes.len() - i,
    {
        out.push(bytes[i]);
        proof {
            assert(bytes@.take(i + 1) =~= bytes@.take(i as int).push(bytes@[i as int]));
        }
        i = i + 1;
    }
    proof {
        assert(bytes@.take(bytes.len() as int) =~= bytes@);
    }
}

/// Appends the encoding of `v`; `false`, with `out` left unspecified, when a number cannot be encoded.
#[verifier::loop_isolation(false)]
pub fn write_json(out: &mut Vec<u8>, v: &JsonValue) -> (ok: bool)
    ensures
        ok == json_cbor(v@) is Some,
        ok ==> final(out)@ == old(out)@ + json_cbor(v@).unwrap(),
    decreases v,
{
    match v {
        JsonValue::Null => {
            write_null(out);
            true
        },
        JsonValue::Bool(b) => {
            out.push(if *b { 0xf5 } else { 0xf4 });
            proof {
                assert(final(out)@ =~= old(out)@ + json_cbor(v@).unwrap());
            }
            true
        },
        JsonValue::Number(t) => {
            match encode_json_number(t.as_str()) {
                Some(b) => {
                    write_bytes(out, &b);
                    true
                },
                None => false,
            }
        },
        JsonValue::Text(t) => {
            write_text(out, t.as_str());
            true
        },
        JsonValue::Array(items) => {
            let ghost models = item_models(items@, 0);
            proof {
                lemma_item_models(items@, 0);
            }
            write_head(out, 4, items.len() as u64);
            let ghost start = out@;
            let mut i: usize = 0;
            while i < items.len()
                invariant
                    i <= items.len(),
                    models.len() == items.len(),
                    forall|j: int| 0 <= j < items.len() ==> #[trigger] models[j] == json_model_of(items@[j]),
                    json_cbor_items(models, i as int) is Some,
                    out@ == start + json_cbor_items(models, i as int).unwrap(),
                decreases items.len() - i,
            {
                proof {
                    assert(*items == v->Array_0);
                    assert(decreases_to!(*v => v->Array_0));
                    assert(decreases_to!(*items => items@));
                    assert(decreases_to!(items@ => items@[i as int]));
                    assert(models[i as int] == items@[i as int]@);
                }
                let ghost before = out@;
                let ok = write_json(out, &items[i]);
                if !ok {
                    proof {
                        lemma_items_none_propagates(models, i as int + 1, items.len() as int);
                    }
                    return false;
                }
                proof {
                    assert(out@ =~= start + json_cbor_items(models, i + 1).unwrap());
                }
                i = i + 1;
            }
            proof {
                assert(final(out)@ =~= old(out)@ + json_cbor(v@).unwrap());
            }
            true
        },
        JsonValue::Object(members) => {
            let ghost models = member_models(members@, 0);
            proof {
                lemma_member_models(members@, 0);
            }
            write_head(out, 5, members.len() as u64);
            let ghost start = out@;
            let mut i: usize = 0;
            while i < members.len()
                invariant
                    i <= members.len(),
                    models.len() == members.len(),
                    forall|j: int| 0 <= j < members.len() ==> #[trigger] models[j] == (members@[j].0@, json_model_of(members@[j].1)),
                    json_cbor_members(models, i as int) is Some,
                    out@ == start + json_cbor_members(models, i as int).unwrap(),
                decreases members.len() - i,
            {
                proof {
                    assert(*members == v->Object_0);
                    assert(decreases_to!(*v => v->Object_0));
                    assert(decreases_to!(*members => members@));
                    assert(decreases_to!(members@ => members@[i as int]));
                    assert(decreases_to!(members@[i as int] => members@[i as int].1));
                    assert(models[i as int].1 == members@[i as int].1@);
                }
                write_text(out, members[i].0.as_str());
                let ok = write_json(out, &members[i].1);
                if !ok {
                    proof {
                        lemma_members_none_propagates(models, i as int + 1, members.len() as int);
                    }
                    return false;
                }
                proof {
                    assert(out@ =~= start + json_cbor_members(models, i + 1).unwrap());
                }
                i = i + 1;
            }
            proof {
                assert(final(out)@ =~= old(out)@ + json_cbor(v@).unwrap());
            }
            true
        },
    }
}

/// The content of a JSON value (the view, as a plain function).
pub open spec fn json_model_of(v: JsonValue) -> JsonModel {
    v@
}

/// Once an element fails to encode, every longer prefix fails too.
proof fn lemma_items_none_propagates(items: Seq<JsonModel>, n: int, m: int)
    requires
        0 < n <= m <= items.len(),
        json_cbor_items(items, n) is None,
    ensures
        json_cbor_items(items, m) is None,
    decreases m - n,
{
    if n < m {
        lemma_items_none_propagates(items, n, m - 1);
    }
}

/// Once a member fails to encode, every longer prefix fails too.
proof fn lemma_members_none_propagates(members: Seq<(Seq<char>, JsonModel)>, n: int, m: int)
    requires
        0 < n <= m <= members.len(),
        json_cbor_members(members, n) is None,
    ensures
        json_cbor_members(members, m) is None,
    decreases m - n,
{
    if n < m {
        lemma_members_none_propagates(members, n, m - 1);
    }
}

} // verus!

verus! {

/// An operation mapping as a struct of three fields.
pub open spec fn op_cbor(m: (Seq<char>, JsonModel, JsonModel)) -> Option<Seq<u8>> {
    match (json_cbor(m.1), json_cbor(m.2)) {
        (Some(a), Some(b)) => Some(
            cbor_head(5, 3) + cbor_text("component_operation"@) + cbor_text(m.0)
                + cbor_text("input_schema"@) + a + cbor_text("output_schema"@) + b,
        ),
        _ => None,
    }
}

/// Every number in `v` is an integer that `serde_json` holds as one.
pub open spec fn integer_numbers(v: JsonModel) -> bool
    decreases v,
{
    match v {
        JsonModel::Number(t) => is_int_text(t),
        JsonModel::Array(items) => forall|i: int| 0 <= i < items.len() ==> integer_numbers(#[trigger] items[i]),
        JsonModel::Object(members) => forall|i: int|
            0 <= i < members.len() ==> integer_numbers(#[trigger] members[i].1),
        _ => true,
    }
}

/// Every number in the schemas of `ops` is an integer that `serde_json` holds as one.
pub open spec fn integer_schemas(ops: Seq<(Seq<char>, (Seq<char>, JsonModel, JsonModel))>) -> bool {
    forall|i: int| 0 <= i < ops.len() ==> integer_numbers((#[trigger] ops[i]).1.1) && integer_numbers(ops[i].1.2)
}

/// A document whose numbers are all integers can be encoded.
pub proof fn lemma_integer_numbers_encode(v: JsonModel)
    requires
        integer_numbers(v),
    ensures
        json_cbor(v) is Some,
    decreases v, 0nat,
{
    match v {
        JsonModel::Array(items) => lemma_integer_items_encode(items, items.len() as int),
        JsonModel::Object(members) => lemma_integer_members_encode(members, members.len() as int),
        _ => {},
    }
}

/// Items whose numbers are all integers can be encoded.
proof fn lemma_integer_items_encode(items: Seq<JsonModel>, n: int)
    requires
        0 <= n <= items.len(),
        forall|i: int| 0 <= i < items.len() ==> integer_numbers(#[trigger] items[i]),
    ensures
        json_cbor_items(items, n) is Some,
    decreases items, n,
{
    if n > 0 {
        lemma_integer_items_encode(items, n - 1);
        assert(integer_numbers(items[n - 1]));
        lemma_integer_numbers_encode(items[n - 1]);
    }
}

/// Members whose values hold only integer numbers can be encoded.
proof fn lemma_integer_members_encode(members: Seq<(Seq<char>, JsonModel)>, n: int)
    requires
        0 <= n <= members.len(),
        forall|i: int| 0 <= i < members.len() ==> integer_numbers(#[trigger] members[i].1),
    ensures
        json_cbor_members(members, n) is Some,
    decreases members, n,
{
    if n > 0 {
        lemma_integer_members_encode(members, n - 1);
        assert(integer_numbers(members[n - 1].1));
        assert(decreases_to!(members => members[n - 1]));
        lemma_integer_numbers_encode(members[n - 1].1);
    }
}

/// The first `n` entries of an operation map whose schemas hold only integer numbers
/// can be encoded.
proof fn lemma_integer_ops_encode(ops: Seq<(Seq<char>, (Seq<char>, JsonModel, JsonModel))>, n: int)
    requires
        0 <= n <= ops.len(),
        integer_schemas(ops),
    ensures
        ops_cbor_prefix(ops, n) is Some,
    decreases n,
{
    if n > 0 {
        lemma_integer_ops_encode(ops, n - 1);
        assert(integer_numbers(ops[n - 1].1.1) && integer_numbers(ops[n - 1].1.2));
        lemma_integer_numbers_encode(ops[n - 1].1.1);
        lemma_integer_numbers_encode(ops[n - 1].1.2);
    }
}

/// An operation map whose schemas hold only integer numbers can be encoded.
pub proof fn lemma_integer_schemas_encode(ops: Seq<(Seq<char>, (Seq<char>, JsonModel, JsonModel))>)
    requires
        integer_schemas(ops),
    ensures
        operations_cbor(ops) is Some,
{
    lemma_integer_ops_encode(ops, ops.len() as int);
}

/// The entries `ops[..n]`, each key followed by its operation.
pub open spec fn ops_cbor_prefix(ops: Seq<(Seq<char>, (Seq<char>, JsonModel, JsonModel))>, n: int) -> Option<Seq<u8>>
    decreases n,
{
    if 0 < n <= ops.len() {
        match (ops_cbor_prefix(ops, n - 1), op_cbor(ops[n - 1].1)) {
            (Some(a), Some(b)) => Some(a + cbor_text(ops[n - 1].0) + b),
            _ => None,
        }
    } else {
        Some(Seq::empty())
    }
}

/// An operation map as a map from name to operation, in key order.
pub open spec fn operations_cbor(ops: Seq<(Seq<char>, (Seq<char>, JsonModel, JsonModel))>) -> Option<Seq<u8>> {
    match ops_cbor_prefix(ops, ops.len() as int) {
        Some(body) => Some(cbor_head(5, ops.len() as u64) + body),
        None => None,
    }
}

/// A field whose value is an optional string, written only when present.
pub open spec fn optional_text_field(name: Seq<char>, value: Option<String>) -> Seq<u8> {
    match value {
        Some(v) => cbor_text(name) + cbor_text(v@),
        None => Seq::empty(),
    }
}

/// A scope: tenant, environment, then team and profile when present.
pub open spec fn scope_cbor(s: BindingScopeV1) -> Seq<u8> {
    let n = (2 + (if s.team is Some { 1int } else { 0int }) + (if s.profile is Some { 1int } else { 0int })) as u64;
    cbor_head(5, n) + cbor_text("tenant"@) + cbor_text(s.tenant@) + cbor_text("environment"@)
        + cbor_text(s.environment@) + optional_text_field("team"@, s.team)
        + optional_text_field("profile"@, s.profile)
}

/// A policy snapshot: reference and version.
pub open spec fn policy_cbor(p: BindingPolicyV1) -> Seq<u8> {
    cbor_head(5, 2) + cbor_text("reference"@) + cbor_text(p.reference@) + cbor_text("version"@)
        + cbor_text(p.version@)
}

/// A field whose value is an unsigned integer.
pub open spec fn uint_field(name: Seq<char>, v: u64) -> Seq<u8> {
    cbor_text(name) + cbor_uint(v)
}

/// The eight limits, in declaration order.
pub open spec fn limits_cbor(l: BindingLimitsV1) -> Seq<u8> {
    cbor_head(5, 8) + uint_field("timeout_ms"@, l.timeout_ms) + uint_field("max_request_bytes"@, l.max_request_bytes)
        + uint_field("max_response_bytes"@, l.max_response_bytes)
        + uint_field("max_metadata_bytes"@, l.max_metadata_bytes)
        + uint_field("max_cbor_depth"@, l.max_cbor_depth as u64)
        + uint_field("max_schema_nodes"@, l.max_schema_nodes as u64)
        + uint_field("max_concurrency"@, l.max_concurrency as u64)
        + uint_field("max_dispatch_depth"@, l.max_dispatch_depth as u64)
}

/// An optional integer: the integer, or `null`.
pub open spec fn opt_uint_cbor(v: Option<u64>) -> Seq<u8> {
    match v {
        Some(n) => cbor_uint(n),
        None => cbor_null(),
    }
}

/// An optional string: the string, or `null`.
pub open spec fn opt_text_cbor(v: Option<String>) -> Seq<u8> {
    match v {
        Some(s) => cbor_text(s@),
        None => cbor_null(),
    }
}

/// The fields of `b` that follow `operations` and precede the two optional trailers.
pub open spec fn scope_policy_limits_cbor(b: ExecutableBindingV1) -> Seq<u8> {
    cbor_text("scope"@) + scope_cbor(b.scope) + cbor_text("policy"@) + policy_cbor(b.policy)
        + cbor_text("limits"@) + limits_cbor(b.limits)
}

/// The digest material of `b`: every security-relevant field, with neither its digest
/// nor its identifier, as a struct of twelve fields.
#[verifier::opaque]
pub open spec fn material_cbor(b: ExecutableBindingV1) -> Option<Seq<u8>> {
    match operations_cbor(b.operations.model()) {
        Some(ops) => Some(
            cbor_head(5, 12) + cbor_text("schema_version"@) + cbor_uint(b.schema_version as u64)
                + cbor_text("capability"@) + cbor_text(b.capability@) + cbor_text("contract_version"@)
                + cbor_text(b.contract_version@) + cbor_text("provider_component_ref"@)
                + cbor_text(b.provider_component_ref@) + cbor_text("provider_digest"@)
                + cbor_text(b.provider_digest@) + cbor_text("operations"@) + ops
                + scope_policy_limits_cbor(b) + cbor_text("expires_at_unix_ms"@)
                + opt_uint_cbor(b.expires_at_unix_ms) + cbor_text("revocation_id"@)
                + opt_text_cbor(b.revocation_id) + cbor_text("resolution_id"@) + cbor_text(b.resolution_id@),
        ),
        None => None,
    }
}

/// The schema version, identifier, digest and capability fields, each after its name.
pub open spec fn ids_fields_cbor(version: u32, id: Seq<char>, digest: Seq<char>, capability: Seq<char>) -> Seq<u8> {
    cbor_text("schema_version"@) + cbor_uint(version as u64) + cbor_text("binding_id"@) + cbor_text(id)
        + cbor_text("binding_digest"@) + cbor_text(digest) + cbor_text("capability"@) + cbor_text(capability)
}

/// The schema version, identifier, digest and capability of `b`, each after its name.
pub open spec fn ids_cbor(b: ExecutableBindingV1) -> Seq<u8> {
    ids_fields_cbor(b.schema_version, b.binding_id@, b.binding_digest@, b.capability@)
}

/// The contract version and provider reference and digest fields, each after its name.
pub open spec fn refs_fields_cbor(contract: Seq<char>, reference: Seq<char>, digest: Seq<char>) -> Seq<u8> {
    cbor_text("contract_version"@) + cbor_text(contract) + cbor_text("provider_component_ref"@)
        + cbor_text(reference) + cbor_text("provider_digest"@) + cbor_text(digest)
}

/// The contract version and the provider reference and digest of `b`, each after its name.
pub open spec fn refs_cbor(b: ExecutableBindingV1) -> Seq<u8> {
    refs_fields_cbor(b.contract_version@, b.provider_component_ref@, b.provider_digest@)
}

/// The expiry field: its name and the time, when there is one.
pub open spec fn expires_cbor(t: Option<u64>) -> Seq<u8> {
    match t {
        Some(t) => cbor_text("expires_at_unix_ms"@) + cbor_uint(t),
        None => Seq::empty(),
    }
}

/// The expiry and revocation fields when present, then the resolution identifier.
pub open spec fn trailer_fields_cbor(expires: Option<u64>, revocation: Option<String>, resolution: Seq<char>) -> Seq<u8> {
    expires_cbor(expires) + optional_text_field("revocation_id"@, revocation) + cbor_text("resolution_id"@)
        + cbor_text(resolution)
}

/// The expiry and revocation fields of `b` when present, then its resolution identifier.
pub open spec fn trailer_cbor(b: ExecutableBindingV1) -> Seq<u8> {
    trailer_fields_cbor(b.expires_at_unix_ms, b.revocation_id, b.resolution_id@)
}

/// The whole binding as a struct; `expires_at_unix_ms` and `revocation_id` are written
/// only when present.
#[verifier::opaque]
pub open spec fn binding_cbor(b: ExecutableBindingV1) -> Option<Seq<u8>> {
    let n = (12 + (if b.expires_at_unix_ms is Some { 1int } else { 0int })
        + (if b.revocation_id is Some { 1int } else { 0int })) as u64;
    match operations_cbor(b.operations.model()) {
        Some(ops) => Some(
            cbor_head(5, n) + ids_cbor(b) + refs_cbor(b) + cbor_text("operations"@) + ops
                + scope_policy_limits_cbor(b) + trailer_cbor(b),
        ),
        None => None,
    }
}

/// Appends one operation mapping.
pub fn write_operation(out: &mut Vec<u8>, op: &ExecutableOperationV1) -> (ok: bool)
    ensures
        ok == op_cbor(op.model()) is Some,
        ok ==> final(out)@ == old(out)@ + op_cbor(op.model()).unwrap(),
{
    write_head(out, 5, 3);
    write_text(out, "component_operation");
    write_text(out, op.component_operation.as_str());
    write_text(out, "input_schema");
    if !write_json(out, &op.input_schema) {
        return false;
    }
    write_text(out, "output_schema");
    if !write_json(out, &op.output_schema) {
        return false;
    }
    proof {
        assert(final(out)@ =~= old(out)@ + op_cbor(op.model()).unwrap());
    }
    true
}

/// Appends an operation map.
pub fn write_operations(out: &mut Vec<u8>, ops: &OperationMap) -> (ok: bool)
    ensures
        ok == operations_cbor(ops.model()) is Some,
        ok ==> final(out)@ == old(out)@ + operations_cbor(ops.model()).unwrap(),
{
    let ghost model = ops.model();
    let n = ops.len();
    write_head(out, 5, n as u64);
    let ghost start = out@;
    let mut i: usize = 0;
    while i < n
        invariant
            n == ops.entries().len(),
            model == ops.model(),
            i <= n,
            ops_cbor_prefix(model, i as int) is Some,
            out@ == start + ops_cbor_prefix(model, i as int).unwrap(),
        decreases n - i,
    {
        let entry = ops.entry(i);
        proof {
            assert(model[i as int] == (entry.0@, entry.1.model()));
        }
        write_text(out, entry.0.as_str());
        if !write_operation(out, &entry.1) {
            proof {
                lemma_ops_none_propagates(model, i as int + 1, n as int);
            }
            return false;
        }
        proof {
            assert(out@ =~= start + ops_cbor_prefix(model, i + 1).unwrap());
        }
        i = i + 1;
    }
    proof {
        assert(final(out)@ =~= old(out)@ + operations_cbor(ops.model()).unwrap());
    }
    true
}

/// Once an entry fails to encode, every longer prefix fails too.
proof fn lemma_ops_none_propagates(ops: Seq<(Seq<char>, (Seq<char>, JsonModel, JsonModel))>, n: int, m: int)
    requires
        0 < n <= m <= ops.len(),
        ops_cbor_prefix(ops, n) is None,
    ensures
        ops_cbor_prefix(ops, m) is None,
    decreases m - n,
{
    if n < m {
        lemma_ops_none_propagates(ops, n, m - 1);
    }
}

/// Appends a field whose value is an optional string, only when present.
pub fn write_optional_text_field(out: &mut Vec<u8>, name: &str, value: &Option<String>)
    ensures
        final(out)@ == old(out)@ + optional_text_field(name@, *value),
{
    match value {
        Some(v) => {
            write_text(out, name);
            write_text(out, v.as_str());
            proof {
                assert(final(out)@ =~= old(out)@ + optional_text_field(name@, *value));
            }
        },
        None => {
            assert(old(out)@ + optional_text_field(name@, *value) =~= old(out)@);
        },
    }
}

/// Appends a scope.
pub fn write_scope(out: &mut Vec<u8>, s: &BindingScopeV1)
    ensures
        final(out)@ == old(out)@ + scope_cbor(*s),
{
    let n: u64 = 2 + (if s.team.is_some() { 1u64 } else { 0u64 }) + (if s.profile.is_some() { 1u64 } else { 0u64 });
    write_head(out, 5, n);
    write_text(out, "tenant");
    write_text(out, s.tenant.as_str());
    write_text(out, "environment");
    write_text(out, s.environment.as_str());
    write_optional_text_field(out, "team", &s.team);
    write_optional_text_field(out, "profile", &s.profile);
    proof {
        assert(final(out)@ =~= old(out)@ + scope_cbor(*s));
    }
}

/// Appends a policy snapshot.
pub fn write_policy(out: &mut Vec<u8>, p: &BindingPolicyV1)
    ensures
        final(out)@ == old(out)@ + policy_cbor(*p),
{
    write_head(out, 5, 2);
    write_text(out, "reference");
    write_text(out, p.reference.as_str());
    write_text(out, "version");
    write_text(out, p.version.as_str());
    proof {
        assert(final(out)@ =~= old(out)@ + policy_cbor(*p));
    }
}

/// Appends a field whose value is an unsigned integer.
fn write_uint_field(out: &mut Vec<u8>, name: &str, v: u64)
    ensures
        final(out)@ == old(out)@ + uint_field(name@, v),
{
    write_text(out, name);
    write_uint(out, v);
    proof {
        assert(final(out)@ =~= old(out)@ + uint_field(name@, v));
    }
}

/// Appends the limits.
pub fn write_limits(out: &mut Vec<u8>, l: &BindingLimitsV1)
    ensures
        final(out)@ == old(out)@ + limits_cbor(*l),
{
    write_head(out, 5, 8);
    write_uint_field(out, "timeout_ms", l.timeout_ms);
    write_uint_field(out, "max_request_bytes", l.max_request_bytes);
    write_uint_field(out, "max_response_bytes", l.max_response_bytes);
    write_uint_field(out, "max_metadata_bytes", l.max_metadata_bytes);
    write_uint_field(out, "max_cbor_depth", l.max_cbor_depth as u64);
    write_uint_field(out, "max_schema_nodes", l.max_schema_nodes as u64);
    write_uint_field(out, "max_concurrency", l.max_concurrency as u64);
    write_uint_field(out, "max_dispatch_depth", l.max_dispatch_depth as u64);
    proof {
        assert(final(out)@ =~= old(out)@ + limits_cbor(*l));
    }
}

/// Appends scope, policy and limits with their field names.
fn write_scope_policy_limits(out: &mut Vec<u8>, b: &ExecutableBindingV1)
    ensures
        final(out)@ == old(out)@ + scope_policy_limits_cbor(*b),
{
    write_text(out, "scope");
    write_scope(out, &b.scope);
    write_text(out, "policy");
    write_policy(out, &b.policy);
    write_text(out, "limits");
    write_limits(out, &b.limits);
    proof {
        assert(final(out)@ =~= old(out)@ + scope_policy_limits_cbor(*b));
    }
}

/// The digest material of `b`; `None` when a schema number cannot be encoded.
pub fn encode_material(b: &ExecutableBindingV1) -> (res: Option<Vec<u8>>)
    ensures
        match res {
            Some(bytes) => material_cbor(*b) == Some(bytes@),
            None => material_cbor(*b) is None,
        },
{
    let mut out: Vec<u8> = Vec::new();
    write_head(&mut out, 5, 12);
    write_text(&mut out, "schema_version");
    write_uint(&mut out, b.schema_version as u64);
    write_text(&mut out, "capability");
    write_text(&mut out, b.capability.0.as_str());
    write_text(&mut out, "contract_version");
    write_text(&mut out, b.contract_version.as_str());
    write_text(&mut out, "provider_component_ref");
    write_text(&mut out, b.provider_component_ref.as_str());
    write_text(&mut out, "provider_digest");
    write_text(&mut out, b.provider_digest.as_str());
    write_text(&mut out, "operations");
    if !write_operations(&mut out, &b.operations) {
        proof {
            reveal(material_cbor);
        }
        return None;
    }
    write_scope_policy_limits(&mut out, b);
    write_text(&mut out, "expires_at_unix_ms");
    match b.expires_at_unix_ms {
        Some(t) => write_uint(&mut out, t),
        None => write_null(&mut out),
    }
    write_text(&mut out, "revocation_id");
    match &b.revocation_id {
        Some(r) => write_text(&mut out, r.as_str()),
        None => write_null(&mut out),
    }
    write_text(&mut out, "resolution_id");
    write_text(&mut out, b.resolution_id.as_str());
    proof {
        reveal(material_cbor);
        assert(out@ =~= material_cbor(*b).unwrap());
    }
    Some(out)
}

/// Appends the schema version, identifier, digest and capability fields.
fn write_ids(out: &mut Vec<u8>, b: &ExecutableBindingV1)
    ensures
        final(out)@ == old(out)@ + ids_cbor(*b),
{
    write_text(out, "schema_version");
    write_uint(out, b.schema_version as u64);
    write_text(out, "binding_id");
    write_text(out, b.binding_id.as_str());
    write_text(out, "binding_digest");
    write_text(out, b.binding_digest.as_str());
    write_text(out, "capability");
    write_text(out, b.capability.0.as_str());
    proof {
        assert(final(out)@ =~= old(out)@ + ids_cbor(*b));
    }
}

/// Appends the contract version and the provider reference and digest fields.
fn write_refs(out: &mut Vec<u8>, b: &ExecutableBindingV1)
    ensures
        final(out)@ == old(out)@ + refs_cbor(*b),
{
    write_text(out, "contract_version");
    write_text(out, b.contract_version.as_str());
    write_text(out, "provider_component_ref");
    write_text(out, b.provider_component_ref.as_str());
    write_text(out, "provider_digest");
    write_text(out, b.provider_digest.as_str());
    proof {
        assert(final(out)@ =~= old(out)@ + refs_cbor(*b));
    }
}

/// Appends the expiry and revocation fields when present, then the resolution identifier.
fn write_trailer(out: &mut Vec<u8>, b: &ExecutableBindingV1)
    ensures
        final(out)@ == old(out)@ + trailer_cbor(*b),
{
    let ghost start = out@;
    match b.expires_at_unix_ms {
        Some(t) => {
            write_text(out, "expires_at_unix_ms");
            write_uint(out, t);
        },
        None => {},
    }
    proof {
        assert(out@ =~= start + expires_cbor(b.expires_at_unix_ms));
    }
    write_optional_text_field(out, "revocation_id", &b.revocation_id);
    write_text(out, "resolution_id");
    write_text(out, b.resolution_id.as_str());
    proof {
        assert(final(out)@ =~= old(out)@ + trailer_cbor(*b));
    }
}

/// The whole binding; `None` when a schema number cannot be encoded.
pub fn encode_binding(b: &ExecutableBindingV1) -> (res: Option<Vec<u8>>)
    ensures
        match res {
            Some(bytes) => binding_cbor(*b) == Some(bytes@),
            None => binding_cbor(*b) is None,
        },
{
    let mut out: Vec<u8> = Vec::new();
    let n: u64 = 12 + (if b.expires_at_unix_ms.is_some() { 1u64 } else { 0u64 })
        + (if b.revocation_id.is_some() { 1u64 } else { 0u64 });
    write_head(&mut out, 5, n);
    write_ids(&mut out, b);
    write_refs(&mut out, b);
    write_text(&mut out, "operations");
    if !write_operations(&mut out, &b.operations) {
        proof {
            reveal(binding_cbor);
        }
        return None;
    }
    write_scope_policy_limits(&mut out, b);
    write_trailer(&mut out, b);
    proof {
        reveal(binding_cbor);
        assert(out@ =~= binding_cbor(*b).unwrap());
    }
    Some(out)
}

} // verus!
