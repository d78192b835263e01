//! CBOR documents: their nesting shape, their depth, and the outside decoder.
use vstd::prelude::*;
use crate::json::{JsonValue, JsonModel, json_from_serde};

verus! {

/// The nesting structure of a decoded CBOR item. Scalars are leaves; arrays,
/// maps and tags nest.
#[derive(Debug)]
pub enum CborShape {
    Leaf,
    Array(Vec<CborShape>),
    Pairs(Vec<(CborShape, CborShape)>),
    Tag(Box<CborShape>),
}

pub open spec fn max_nat(a: nat, b: nat) -> nat {
    if a >= b { a } else { b }
}

/// How many levels of nesting lie below `v` (a leaf has height 0).
pub open spec fn cbor_height(v: CborShape) -> nat
    decreases v, 0nat,
{
    match v {
        CborShape::Leaf => 0,
        CborShape::Array(items) => cbor_items_height(items@, 0),
        CborShape::Pairs(entries) => cbor_entries_height(entries@, 0),
        CborShape::Tag(inner) => 1 + cbor_height(*inner),
    }
}

/// The largest `1 + height` among `items[i..]`, or 0 when there is none.
pub open spec fn cbor_items_height(items: Seq<CborShape>, i: int) -> nat
    decreases items, items.len() - i,
{
    if 0 <= i < items.len() {
        max_nat(1 + cbor_height(items[i]), cbor_items_height(items, i + 1))
    } else {
        0
    }
}

/// The largest `1 + height` among the keys and values of `entries[i..]`, or 0 when there is none.
pub open spec fn cbor_entries_height(entries: Seq<(CborShape, CborShape)>, i: int) -> nat
    decreases entries, entries.len() - i,
{
    if 0 <= i < entries.len() {
        max_nat(
            max_nat(1 + cbor_height(entries[i].0), 1 + cbor_height(entries[i].1)),
            cbor_entries_height(entries, i + 1),
        )
    } else {
        0
    }
}

/// `n` capped at `u32::MAX`.
pub open spec fn cap_u32(n: int) -> u32 {
    if n <= u32::MAX { n as u32 } else { u32::MAX }
}

/// The depth of `value` when it stands at depth `depth`: `depth` plus its height,
/// saturating at `u32::MAX`.
#[verifier::loop_isolation(false)]
pub fn cbor_depth(value: &CborShape, depth: u32) -> (res: u32)
    ensures
        res == cap_u32(depth + cbor_height(*value)),
    decreases value,
{
    let next = depth.saturating_add(1);
    match value {
        CborShape::Leaf => depth,
        CborShape::Array(items) => {
            let mut acc: u32 = depth;
            let mut i: usize = items.len();
            while i > 0
                invariant
                    i <= items.len(),
                    acc == cap_u32(depth + cbor_items_height(items@, i as int)),
                decreases i,
            {
                i = i - 1;
                proof {
                    assert(*items == value->Array_0);
                    assert(decreases_to!(*value => value->Array_0));
                    assert(decreases_to!(*items => items@));
                    assert(decreases_to!(items@ => items@[i as int]));
                }
                let d = cbor_depth(&items[i], next);
                if d > acc {
                    acc = d;
                }
            }
            acc
        },
        CborShape::Pairs(entries) => {
            let mut acc: u32 = depth;
            let mut i: usize = entries.len();
            while i > 0
                invariant
                    i <= entries.len(),
                    acc == cap_u32(depth + cbor_entries_height(entries@, i as int)),
                decreases i,
            {
                i = i - 1;
                proof {
                    assert(*entries == value->Pairs_0);
                    assert(decreases_to!(*value => value->Pairs_0));
                    assert(decreases_to!(*entries => entries@));
                    assert(decreases_to!(entries@ => entries@[i as int]));
                    assert(decreases_to!(entries@[i as int] => entries@[i as int].0));
                    assert(decreases_to!(entries@[i as int] => entries@[i as int].1));
                }
                let dk = cbor_depth(&entries[i].0, next);
                let dv = cbor_depth(&entries[i].1, next);
                if dk > acc {
                    acc = dk;
                }
                if dv > acc {
                    acc = dv;
                }
            }
            acc
        },
        CborShape::Tag(inner) => {
            proof {
                assert(*inner == value->Tag_0);
                assert(decreases_to!(*value => value->Tag_0));
            }
            cbor_depth(inner, next)
        },
    }
}

} // verus!

verus! {

#[verifier::external_type_specification]
#[verifier::external_body]
pub struct ExSerdeCborValue(serde_cbor::Value);

/// A CBOR item decoded by `serde_cbor`, kept together with the bytes it was
/// decoded from and its nesting shape. Only `decode_cbor` builds one.
pub struct CborDocument {
    value: serde_cbor::Value,
    source: Vec<u8>,
    shape: CborShape,
}

impl CborDocument {
    /// The nesting shape of the decoded item.
    pub closed spec fn nesting(&self) -> CborShape {
        self.shape
    }

    /// The nesting shape of the decoded item.
    pub fn shape(&self) -> (res: &CborShape)
        ensures
            *res == self.nesting(),
    {
        &self.shape
    }
}

impl View for CborDocument {
    type V = Seq<u8>;

    /// The bytes the document was decoded from.
    closed spec fn view(&self) -> Seq<u8> {
        self.source@
    }
}

/// What `serde_cbor::from_slice::<serde_cbor::Value>` yields on `bytes`, by its
/// nesting shape; `None` when it returns an error.
pub uninterp spec fn cbor_decoded_shape(bytes: Seq<u8>) -> Option<CborShape>;

/// What `serde_cbor::to_vec` yields on the item that `serde_cbor::from_slice`
/// decodes from `bytes`; `None` when it returns an error.
pub uninterp spec fn cbor_reencoding(bytes: Seq<u8>) -> Option<Seq<u8>>;

/// What `serde_json::to_value` yields on the item that `serde_cbor::from_slice`
/// decodes from `bytes`; `None` when it returns an error.
pub uninterp spec fn cbor_as_json(bytes: Seq<u8>) -> Option<JsonModel>;

/// The nesting shape of an outside CBOR item.
#[verifier::external_body]
fn shape_of(value: &serde_cbor::Value) -> CborShape {
    match value {
        serde_cbor::Value::Array(items) => CborShape::Array(items.iter().map(shape_of).collect()),
        serde_cbor::Value::Map(entries) => CborShape::Pairs(entries.iter().map(|(k, v)| (shape_of(k), shape_of(v))).collect()),
        serde_cbor::Value::Tag(_, inner) => CborShape::Tag(Box::new(shape_of(inner))),
        _ => CborShape::Leaf,
    }
}

/// Calls `serde_cbor::from_slice::<serde_cbor::Value>`. Trusted to succeed exactly
/// when `cbor_decoded_shape(bytes)` is `Some`, and then to hand back a document of
/// `bytes` with that shape.
#[verifier::external_body]
pub fn decode_cbor(bytes: &[u8]) -> (res: Option<CborDocument>)
    ensures
        res is Some <==> cbor_decoded_shape(bytes@) is Some,
        res matches Some(doc) ==> doc@ == bytes@ && Some(doc.nesting()) == cbor_decoded_shape(bytes@),
{
    match serde_cbor::from_slice::<serde_cbor::Value>(bytes) {
        Ok(value) => Some(CborDocument { shape: shape_of(&value), value, source: bytes.to_vec() }),
        Err(_) => None,
    }
}

/// Calls `serde_cbor::to_vec` on the decoded item. Trusted to return
/// `cbor_reencoding` of the document's bytes.
#[verifier::external_body]
pub fn encode_cbor(doc: &CborDocument) -> (res: Option<Vec<u8>>)
    ensures
        match res {
            Some(b) => cbor_reencoding(doc@) == Some(b@),
            None => cbor_reencoding(doc@) is None,
        },
{
    serde_cbor::to_vec(&doc.value).ok()
}

/// Calls `serde_json::to_value` on the decoded item. Trusted to return
/// `cbor_as_json` of the document's bytes.
#[verifier::external_body]
pub fn cbor_to_json(doc: &CborDocument) -> (res: Option<JsonValue>)
    ensures
        match res {
            Some(v) => cbor_as_json(doc@) == Some(v@),
            None => cbor_as_json(doc@) is None,
        },
{
    serde_json::to_value(&doc.value).ok().map(json_from_serde)
}

/// Whether `bytes` decodes, nests no deeper than `max_depth` (the outermost item at
/// depth 1), and is exactly the encoder's own rendering of what it decodes to; if
/// so, the item as JSON.
pub open spec fn canonical_bounded_json(bytes: Seq<u8>, max_depth: u32) -> Option<JsonModel> {
    match cbor_decoded_shape(bytes) {
        None => None,
        Some(shape) => if cap_u32(1 + cbor_height(shape) as int) > max_depth {
            None
        } else if cbor_reencoding(bytes) != Some(bytes) {
            None
        } else {
            cbor_as_json(bytes)
        },
    }
}

/// Decodes `bytes` as one canonical CBOR item no deeper than `max_depth` and
/// converts it to JSON; rejects indefinite, non-minimal or non-deterministically
/// ordered encodings.
pub fn decode_canonical_bounded(bytes: &[u8], max_depth: u32) -> (res: Option<JsonValue>)
    ensures
        match res {
            Some(v) => canonical_bounded_json(bytes@, max_depth) == Some(v@),
            None => canonical_bounded_json(bytes@, max_depth) is None,
        },
{
    let doc = match decode_cbor(bytes) {
        Some(doc) => doc,
        None => return None,
    };
    if cbor_depth(doc.shape(), 1) > max_depth {
        return None;
    }
    let reencoded = match encode_cbor(&doc) {
        Some(b) => b,
        None => return None,
    };
    if !bytes_equal(reencoded.as_slice(), bytes) {
        return None;
    }
    cbor_to_json(&doc)
}

/// Whether `a` and `b` hold the same bytes.
pub fn bytes_equal(a: &[u8], b: &[u8]) -> (res: bool)
    ensures
        res == (a@ == b@),
{
    if a.len() != b.len() {
        return false;
    }
    let mut i: usize = 0;
    while i < a.len()
        invariant
            a.len() == b.len(),
            i <= a.len(),
            forall|j: int| 0 <= j < i ==> a@[j] == b@[j],
        decreases a.len() - i,
    {
        if a[i] != b[i] {
            return false;
        }
        i = i + 1;
    }
    assert(a@ =~= b@);
    true
}

} // verus!
