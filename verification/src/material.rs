//! The digest material determines the fields it was built from: every CBOR item in it is
//! self-delimiting, so equal material means equal fields.
use vstd::prelude::*;
use vstd::utf8::{encode_utf8, encode_utf8_decode_utf8};
use crate::binding::{BindingLimitsV1, BindingPolicyV1, BindingScopeV1, ExecutableBindingV1};
use crate::decode::{lemma_head_at, lemma_head_len, prefix_at};
use crate::encode::{
    cbor_head, cbor_null, cbor_text, cbor_uint, limits_cbor, material_cbor, operations_cbor, opt_text_cbor,
    opt_uint_cbor, optional_text_field, policy_cbor, scope_cbor, scope_policy_limits_cbor, uint_field,
};
use crate::text::opt_text;

verus! {

/// Equal concatenations whose first parts have equal lengths have equal parts.
proof fn lemma_cancel(x1: Seq<u8>, r1: Seq<u8>, x2: Seq<u8>, r2: Seq<u8>)
    requires
        x1 + r1 == x2 + r2,
        x1.len() == x2.len(),
    ensures
        x1 == x2,
        r1 == r2,
{
    assert(x1 =~= (x1 + r1).subrange(0, x1.len() as int));
    assert(x2 =~= (x2 + r2).subrange(0, x2.len() as int));
    assert(r1 =~= (x1 + r1).subrange(x1.len() as int, (x1 + r1).len() as int));
    assert(r2 =~= (x2 + r2).subrange(x2.len() as int, (x2 + r2).len() as int));
}

/// A head followed by anything determines its major type and argument, and what follows it.
proof fn lemma_head_split(m1: u8, n1: u64, r1: Seq<u8>, m2: u8, n2: u64, r2: Seq<u8>)
    requires
        m1 < 8,
        m2 < 8,
        cbor_head(m1, n1) + r1 == cbor_head(m2, n2) + r2,
    ensures
        m1 == m2,
        n1 == n2,
        r1 == r2,
{
    let h1 = cbor_head(m1, n1);
    let h2 = cbor_head(m2, n2);
    let bytes = h1 + r1;
    lemma_head_len(m1, n1);
    lemma_head_len(m2, n2);
    assert(bytes.subrange(0, h1.len() as int) =~= h1);
    assert((h2 + r2).subrange(0, h2.len() as int) =~= h2);
    assert(prefix_at(bytes, 0, h1));
    assert(prefix_at(bytes, 0, h2));
    lemma_head_at(bytes, 0, m1, n1);
    lemma_head_at(bytes, 0, m2, n2);
    lemma_cancel(h1, r1, h2, r2);
}

/// A text item followed by anything determines its text and what follows it.
proof fn lemma_text_split(s1: Seq<char>, r1: Seq<u8>, s2: Seq<char>, r2: Seq<u8>)
    requires
        cbor_text(s1) + r1 == cbor_text(s2) + r2,
        (cbor_text(s1) + r1).len() <= u64::MAX,
    ensures
        s1 == s2,
        r1 == r2,
{
    let u1 = encode_utf8(s1);
    let u2 = encode_utf8(s2);
    let h1 = cbor_head(3, u1.len() as u64);
    let h2 = cbor_head(3, u2.len() as u64);
    assert(cbor_text(s1) + r1 =~= h1 + (u1 + r1));
    assert(cbor_text(s2) + r2 =~= h2 + (u2 + r2));
    lemma_head_split(3, u1.len() as u64, u1 + r1, 3, u2.len() as u64, u2 + r2);
    lemma_cancel(u1, r1, u2, r2);
    encode_utf8_decode_utf8(s1);
    encode_utf8_decode_utf8(s2);
}

/// The same item followed by two tails: the tails are equal.
proof fn lemma_skip(x: Seq<u8>, r1: Seq<u8>, r2: Seq<u8>)
    requires
        x + r1 == x + r2,
    ensures
        r1 == r2,
{
    lemma_cancel(x, r1, x, r2);
}

/// An optional integer item determines its value and what follows it.
proof fn lemma_opt_uint_split(o1: Option<u64>, r1: Seq<u8>, o2: Option<u64>, r2: Seq<u8>)
    requires
        opt_uint_cbor(o1) + r1 == opt_uint_cbor(o2) + r2,
    ensures
        o1 == o2,
        r1 == r2,
{
    let bytes = opt_uint_cbor(o1) + r1;
    match (o1, o2) {
        (Some(a), Some(b)) => lemma_head_split(0, a, r1, 0, b, r2),
        (None, None) => lemma_skip(cbor_null(), r1, r2),
        (Some(a), None) => {
            lemma_head_len(0, a);
            assert(bytes.subrange(0, cbor_head(0, a).len() as int) =~= cbor_head(0, a));
            lemma_head_at(bytes, 0, 0, a);
            assert(bytes[0] == (opt_uint_cbor(o2) + r2)[0]);
        },
        (None, Some(b)) => {
            let bytes2 = opt_uint_cbor(o2) + r2;
            lemma_head_len(0, b);
            assert(bytes2.subrange(0, cbor_head(0, b).len() as int) =~= cbor_head(0, b));
            lemma_head_at(bytes2, 0, 0, b);
            assert(bytes[0] == bytes2[0]);
        },
    }
}

/// An optional text item determines its text and what follows it.
proof fn lemma_opt_text_split(o1: Option<String>, r1: Seq<u8>, o2: Option<String>, r2: Seq<u8>)
    requires
        opt_text_cbor(o1) + r1 == opt_text_cbor(o2) + r2,
        (opt_text_cbor(o1) + r1).len() <= u64::MAX,
    ensures
        opt_text(o1) == opt_text(o2),
        r1 == r2,
{
    let bytes = opt_text_cbor(o1) + r1;
    match (o1, o2) {
        (Some(a), Some(b)) => lemma_text_split(a@, r1, b@, r2),
        (None, None) => lemma_skip(cbor_null(), r1, r2),
        (Some(a), None) => {
            let l = encode_utf8(a@).len() as u64;
            lemma_head_len(3, l);
            assert(bytes =~= cbor_head(3, l) + (encode_utf8(a@) + r1));
            assert(bytes.subrange(0, cbor_head(3, l).len() as int) =~= cbor_head(3, l));
            lemma_head_at(bytes, 0, 3, l);
            assert(bytes[0] == (opt_text_cbor(o2) + r2)[0]);
        },
        (None, Some(b)) => {
            let bytes2 = opt_text_cbor(o2) + r2;
            let l = encode_utf8(b@).len() as u64;
            lemma_head_len(3, l);
            assert(bytes2 =~= cbor_head(3, l) + (encode_utf8(b@) + r2));
            assert(bytes2.subrange(0, cbor_head(3, l).len() as int) =~= cbor_head(3, l));
            lemma_head_at(bytes2, 0, 3, l);
            assert(bytes[0] == bytes2[0]);
        },
    }
}

/// An optional text field named `name` followed by anything: whether it is present, its
/// text, and what follows it, given that both sides agree on its presence.
proof fn lemma_optional_field_split(name: Seq<char>, o1: Option<String>, r1: Seq<u8>, o2: Option<String>, r2: Seq<u8>)
    requires
        optional_text_field(name, o1) + r1 == optional_text_field(name, o2) + r2,
        (optional_text_field(name, o1) + r1).len() <= u64::MAX,
        o1 is Some == o2 is Some,
    ensures
        opt_text(o1) == opt_text(o2),
        r1 == r2,
{
    match (o1, o2) {
        (Some(a), Some(b)) => {
            assert(optional_text_field(name, o1) + r1 =~= cbor_text(name) + (cbor_text(a@) + r1));
            assert(optional_text_field(name, o2) + r2 =~= cbor_text(name) + (cbor_text(b@) + r2));
            lemma_skip(cbor_text(name), cbor_text(a@) + r1, cbor_text(b@) + r2);
            lemma_text_split(a@, r1, b@, r2);
        },
        _ => {
            assert(optional_text_field(name, o1) + r1 =~= r1);
            assert(optional_text_field(name, o2) + r2 =~= r2);
        },
    }
}

/// A present `team` field cannot be read as a `profile` field.
proof fn lemma_team_not_profile(x: String, r1: Seq<u8>, y: String, r2: Seq<u8>)
    requires
        (cbor_text("team"@) + (cbor_text(x@) + r1)).len() <= u64::MAX,
    ensures
        cbor_text("team"@) + (cbor_text(x@) + r1) != cbor_text("profile"@) + (cbor_text(y@) + r2),
{
    if cbor_text("team"@) + (cbor_text(x@) + r1) == cbor_text("profile"@) + (cbor_text(y@) + r2) {
        lemma_text_split("team"@, cbor_text(x@) + r1, "profile"@, cbor_text(y@) + r2);
        reveal_strlit("team");
        reveal_strlit("profile");
        assert("team"@.len() != "profile"@.len());
    }
}

/// The optional team and profile of a scope, followed by anything.
proof fn lemma_team_profile_split(
    a1: Option<String>,
    b1: Option<String>,
    r1: Seq<u8>,
    a2: Option<String>,
    b2: Option<String>,
    r2: Seq<u8>,
)
    requires
        optional_text_field("team"@, a1) + (optional_text_field("profile"@, b1) + r1)
            == optional_text_field("team"@, a2) + (optional_text_field("profile"@, b2) + r2),
        (optional_text_field("team"@, a1) + (optional_text_field("profile"@, b1) + r1)).len() <= u64::MAX,
        (if a1 is Some { 1int } else { 0int }) + (if b1 is Some { 1int } else { 0int })
            == (if a2 is Some { 1int } else { 0int }) + (if b2 is Some { 1int } else { 0int }),
    ensures
        opt_text(a1) == opt_text(a2),
        opt_text(b1) == opt_text(b2),
        r1 == r2,
{
    let p1 = optional_text_field("profile"@, b1) + r1;
    let p2 = optional_text_field("profile"@, b2) + r2;
    match (a1, a2) {
        (Some(x), None) => {
            let y = b2->Some_0;
            assert(optional_text_field("team"@, a1) + p1 =~= cbor_text("team"@) + (cbor_text(x@) + r1));
            assert(optional_text_field("team"@, a2) + p2 =~= cbor_text("profile"@) + (cbor_text(y@) + r2));
            lemma_team_not_profile(x, r1, y, r2);
        },
        (None, Some(y)) => {
            let x = b1->Some_0;
            assert(optional_text_field("team"@, a2) + p2 =~= cbor_text("team"@) + (cbor_text(y@) + r2));
            assert(optional_text_field("team"@, a1) + p1 =~= cbor_text("profile"@) + (cbor_text(x@) + r1));
            lemma_team_not_profile(y, r2, x, r1);
        },
        _ => {
            lemma_optional_field_split("team"@, a1, p1, a2, p2);
            lemma_optional_field_split("profile"@, b1, r1, b2, r2);
        },
    }
}

/// Five pieces and a tail, regrouped to the right.
proof fn lemma_right5(a: Seq<u8>, b: Seq<u8>, c: Seq<u8>, d: Seq<u8>, e: Seq<u8>, r: Seq<u8>)
    ensures
        a + b + c + d + e + r == a + (b + (c + (d + (e + r)))),
{
    assert(a + b + c + d + e + r =~= a + (b + (c + (d + (e + r)))));
}

/// Seven pieces and a tail, regrouped to the right.
proof fn lemma_right7(a: Seq<u8>, b: Seq<u8>, c: Seq<u8>, d: Seq<u8>, e: Seq<u8>, f: Seq<u8>, g: Seq<u8>, r: Seq<u8>)
    ensures
        a + b + c + d + e + f + g + r == a + (b + (c + (d + (e + (f + (g + r)))))),
{
    assert(a + b + c + d + e + f + g + r =~= a + (b + (c + (d + (e + (f + (g + r)))))));
}

/// Nine pieces and a tail, regrouped to the right.
proof fn lemma_right9(
    a: Seq<u8>, b: Seq<u8>, c: Seq<u8>, d: Seq<u8>, e: Seq<u8>, f: Seq<u8>, g: Seq<u8>, h: Seq<u8>, i: Seq<u8>, r: Seq<u8>,
)
    ensures
        a + b + c + d + e + f + g + h + i + r == a + (b + (c + (d + (e + (f + (g + (h + (i + r)))))))),
{
    assert(a + b + c + d + e + f + g + h + i + r =~= a + (b + (c + (d + (e + (f + (g + (h + (i + r)))))))));
}

/// Two pieces and a tail, regrouped to the right.
proof fn lemma_right2(a: Seq<u8>, b: Seq<u8>, r: Seq<u8>)
    ensures
        a + b + r == a + (b + r),
{
    assert(a + b + r =~= a + (b + r));
}

/// A scope followed by anything determines the scope and what follows it.
proof fn lemma_scope_split(s1: BindingScopeV1, r1: Seq<u8>, s2: BindingScopeV1, r2: Seq<u8>)
    requires
        scope_cbor(s1) + r1 == scope_cbor(s2) + r2,
        (scope_cbor(s1) + r1).len() <= u64::MAX,
    ensures
        s1.tenant@ == s2.tenant@,
        s1.environment@ == s2.environment@,
        opt_text(s1.team) == opt_text(s2.team),
        opt_text(s1.profile) == opt_text(s2.profile),
        r1 == r2,
{
    let n1 = (2 + (if s1.team is Some { 1int } else { 0int }) + (if s1.profile is Some { 1int } else { 0int })) as u64;
    let n2 = (2 + (if s2.team is Some { 1int } else { 0int }) + (if s2.profile is Some { 1int } else { 0int })) as u64;
    let t1 = optional_text_field("team"@, s1.team) + (optional_text_field("profile"@, s1.profile) + r1);
    let t2 = optional_text_field("team"@, s2.team) + (optional_text_field("profile"@, s2.profile) + r2);
    let e1 = cbor_text(s1.environment@) + t1;
    let e2 = cbor_text(s2.environment@) + t2;
    let k1 = cbor_text(s1.tenant@) + (cbor_text("environment"@) + e1);
    let k2 = cbor_text(s2.tenant@) + (cbor_text("environment"@) + e2);
    lemma_right7(cbor_head(5, n1), cbor_text("tenant"@), cbor_text(s1.tenant@), cbor_text("environment"@),
        cbor_text(s1.environment@), optional_text_field("team"@, s1.team), optional_text_field("profile"@, s1.profile), r1);
    lemma_right7(cbor_head(5, n2), cbor_text("tenant"@), cbor_text(s2.tenant@), cbor_text("environment"@),
        cbor_text(s2.environment@), optional_text_field("team"@, s2.team), optional_text_field("profile"@, s2.profile), r2);
    lemma_head_split(5, n1, cbor_text("tenant"@) + k1, 5, n2, cbor_text("tenant"@) + k2);
    lemma_skip(cbor_text("tenant"@), k1, k2);
    lemma_text_split(s1.tenant@, cbor_text("environment"@) + e1, s2.tenant@, cbor_text("environment"@) + e2);
    lemma_skip(cbor_text("environment"@), e1, e2);
    lemma_text_split(s1.environment@, t1, s2.environment@, t2);
    lemma_team_profile_split(s1.team, s1.profile, r1, s2.team, s2.profile, r2);
}

/// A policy followed by anything determines the policy and what follows it.
proof fn lemma_policy_split(p1: BindingPolicyV1, r1: Seq<u8>, p2: BindingPolicyV1, r2: Seq<u8>)
    requires
        policy_cbor(p1) + r1 == policy_cbor(p2) + r2,
        (policy_cbor(p1) + r1).len() <= u64::MAX,
    ensures
        p1.reference@ == p2.reference@,
        p1.version@ == p2.version@,
        r1 == r2,
{
    let v1 = cbor_text(p1.version@) + r1;
    let v2 = cbor_text(p2.version@) + r2;
    let q1 = cbor_text(p1.reference@) + (cbor_text("version"@) + v1);
    let q2 = cbor_text(p2.reference@) + (cbor_text("version"@) + v2);
    lemma_right5(cbor_head(5, 2), cbor_text("reference"@), cbor_text(p1.reference@), cbor_text("version"@), cbor_text(p1.version@), r1);
    lemma_right5(cbor_head(5, 2), cbor_text("reference"@), cbor_text(p2.reference@), cbor_text("version"@), cbor_text(p2.version@), r2);
    lemma_skip(cbor_head(5, 2), cbor_text("reference"@) + q1, cbor_text("reference"@) + q2);
    lemma_skip(cbor_text("reference"@), q1, q2);
    lemma_text_split(p1.reference@, cbor_text("version"@) + v1, p2.reference@, cbor_text("version"@) + v2);
    lemma_skip(cbor_text("version"@), v1, v2);
    lemma_text_split(p1.version@, r1, p2.version@, r2);
}

/// An integer field followed by anything determines the integer and what follows it.
proof fn lemma_uint_field_split(name: Seq<char>, x1: u64, r1: Seq<u8>, x2: u64, r2: Seq<u8>)
    requires
        uint_field(name, x1) + r1 == uint_field(name, x2) + r2,
    ensures
        x1 == x2,
        r1 == r2,
{
    lemma_right2(cbor_text(name), cbor_head(0, x1), r1);
    lemma_right2(cbor_text(name), cbor_head(0, x2), r2);
    lemma_skip(cbor_text(name), cbor_head(0, x1) + r1, cbor_head(0, x2) + r2);
    lemma_head_split(0, x1, r1, 0, x2, r2);
}

/// Limits followed by anything determine the limits and what follows them.
proof fn lemma_limits_split(l1: BindingLimitsV1, r1: Seq<u8>, l2: BindingLimitsV1, r2: Seq<u8>)
    requires
        limits_cbor(l1) + r1 == limits_cbor(l2) + r2,
    ensures
        l1 == l2,
        r1 == r2,
{
    let f8_1 = uint_field("max_dispatch_depth"@, l1.max_dispatch_depth as u64) + r1;
    let f8_2 = uint_field("max_dispatch_depth"@, l2.max_dispatch_depth as u64) + r2;
    let f7_1 = uint_field("max_concurrency"@, l1.max_concurrency as u64) + f8_1;
    let f7_2 = uint_field("max_concurrency"@, l2.max_concurrency as u64) + f8_2;
    let f6_1 = uint_field("max_schema_nodes"@, l1.max_schema_nodes as u64) + f7_1;
    let f6_2 = uint_field("max_schema_nodes"@, l2.max_schema_nodes as u64) + f7_2;
    let f5_1 = uint_field("max_cbor_depth"@, l1.max_cbor_depth as u64) + f6_1;
    let f5_2 = uint_field("max_cbor_depth"@, l2.max_cbor_depth as u64) + f6_2;
    let f4_1 = uint_field("max_metadata_bytes"@, l1.max_metadata_bytes) + f5_1;
    let f4_2 = uint_field("max_metadata_bytes"@, l2.max_metadata_bytes) + f5_2;
    let f3_1 = uint_field("max_response_bytes"@, l1.max_response_bytes) + f4_1;
    let f3_2 = uint_field("max_response_bytes"@, l2.max_response_bytes) + f4_2;
    let f2_1 = uint_field("max_request_bytes"@, l1.max_request_bytes) + f3_1;
    let f2_2 = uint_field("max_request_bytes"@, l2.max_request_bytes) + f3_2;
    let f1_1 = uint_field("timeout_ms"@, l1.timeout_ms) + f2_1;
    let f1_2 = uint_field("timeout_ms"@, l2.timeout_ms) + f2_2;
    lemma_right9(cbor_head(5, 8), uint_field("timeout_ms"@, l1.timeout_ms), uint_field("max_request_bytes"@, l1.max_request_bytes),
        uint_field("max_response_bytes"@, l1.max_response_bytes), uint_field("max_metadata_bytes"@, l1.max_metadata_bytes),
        uint_field("max_cbor_depth"@, l1.max_cbor_depth as u64), uint_field("max_schema_nodes"@, l1.max_schema_nodes as u64),
        uint_field("max_concurrency"@, l1.max_concurrency as u64), uint_field("max_dispatch_depth"@, l1.max_dispatch_depth as u64), r1);
    lemma_right9(cbor_head(5, 8), uint_field("timeout_ms"@, l2.timeout_ms), uint_field("max_request_bytes"@, l2.max_request_bytes),
        uint_field("max_response_bytes"@, l2.max_response_bytes), uint_field("max_metadata_bytes"@, l2.max_metadata_bytes),
        uint_field("max_cbor_depth"@, l2.max_cbor_depth as u64), uint_field("max_schema_nodes"@, l2.max_schema_nodes as u64),
        uint_field("max_concurrency"@, l2.max_concurrency as u64), uint_field("max_dispatch_depth"@, l2.max_dispatch_depth as u64), r2);
    lemma_skip(cbor_head(5, 8), f1_1, f1_2);
    lemma_uint_field_split("timeout_ms"@, l1.timeout_ms, f2_1, l2.timeout_ms, f2_2);
    lemma_uint_field_split("max_request_bytes"@, l1.max_request_bytes, f3_1, l2.max_request_bytes, f3_2);
    lemma_uint_field_split("max_response_bytes"@, l1.max_response_bytes, f4_1, l2.max_response_bytes, f4_2);
    lemma_uint_field_split("max_metadata_bytes"@, l1.max_metadata_bytes, f5_1, l2.max_metadata_bytes, f5_2);
    lemma_uint_field_split("max_cbor_depth"@, l1.max_cbor_depth as u64, f6_1, l2.max_cbor_depth as u64, f6_2);
    lemma_uint_field_split("max_schema_nodes"@, l1.max_schema_nodes as u64, f7_1, l2.max_schema_nodes as u64, f7_2);
    lemma_uint_field_split("max_concurrency"@, l1.max_concurrency as u64, f8_1, l2.max_concurrency as u64, f8_2);
    lemma_uint_field_split("max_dispatch_depth"@, l1.max_dispatch_depth as u64, r1, l2.max_dispatch_depth as u64, r2);
}

/// Six pieces and a tail, regrouped to the right.
proof fn lemma_right6(a: Seq<u8>, b: Seq<u8>, c: Seq<u8>, d: Seq<u8>, e: Seq<u8>, f: Seq<u8>, r: Seq<u8>)
    ensures
        a + b + c + d + e + f + r == a + (b + (c + (d + (e + (f + r))))),
{
    assert(a + b + c + d + e + f + r =~= a + (b + (c + (d + (e + (f + r))))));
}

/// Eleven pieces and a tail, regrouped to the right.
proof fn lemma_right11(
    a: Seq<u8>, b: Seq<u8>, c: Seq<u8>, d: Seq<u8>, e: Seq<u8>, f: Seq<u8>, g: Seq<u8>, h: Seq<u8>, i: Seq<u8>,
    j: Seq<u8>, k: Seq<u8>, r: Seq<u8>,
)
    ensures
        a + b + c + d + e + f + g + h + i + j + k + r
            == a + (b + (c + (d + (e + (f + (g + (h + (i + (j + (k + r)))))))))),
{
    assert(a + b + c + d + e + f + g + h + i + j + k + r
        =~= a + (b + (c + (d + (e + (f + (g + (h + (i + (j + (k + r)))))))))));
}

/// Twenty pieces, grouped as a head, eleven, one, one and six.
proof fn lemma_group20(
    h: Seq<u8>,
    a: Seq<u8>, b: Seq<u8>, c: Seq<u8>, d: Seq<u8>, e: Seq<u8>, f: Seq<u8>, g: Seq<u8>, i: Seq<u8>, j: Seq<u8>,
    k: Seq<u8>, l: Seq<u8>,
    o: Seq<u8>,
    s: Seq<u8>,
    t1: Seq<u8>, t2: Seq<u8>, t3: Seq<u8>, t4: Seq<u8>, t5: Seq<u8>, t6: Seq<u8>,
)
    ensures
        h + a + b + c + d + e + f + g + i + j + k + l + o + s + t1 + t2 + t3 + t4 + t5 + t6
            == h + ((a + b + c + d + e + f + g + i + j + k + l) + (o + (s + (t1 + t2 + t3 + t4 + t5 + t6)))),
{
    assert(h + a + b + c + d + e + f + g + i + j + k + l + o + s + t1 + t2 + t3 + t4 + t5 + t6
        =~= h + ((a + b + c + d + e + f + g + i + j + k + l) + (o + (s + (t1 + t2 + t3 + t4 + t5 + t6)))));
}

/// The fields of the material before its operations, each after its name.
spec fn ids_part(b: ExecutableBindingV1) -> Seq<u8> {
    cbor_text("schema_version"@) + cbor_uint(b.schema_version as u64) + cbor_text("capability"@)
        + cbor_text(b.capability@) + cbor_text("contract_version"@) + cbor_text(b.contract_version@)
        + cbor_text("provider_component_ref"@) + cbor_text(b.provider_component_ref@)
        + cbor_text("provider_digest"@) + cbor_text(b.provider_digest@) + cbor_text("operations"@)
}

/// The fields of the material after its limits, each after its name.
spec fn tail_part(b: ExecutableBindingV1) -> Seq<u8> {
    cbor_text("expires_at_unix_ms"@) + opt_uint_cbor(b.expires_at_unix_ms) + cbor_text("revocation_id"@)
        + opt_text_cbor(b.revocation_id) + cbor_text("resolution_id"@) + cbor_text(b.resolution_id@)
}

/// The material in its five parts.
proof fn lemma_material_shape(b: ExecutableBindingV1)
    requires
        material_cbor(b) is Some,
    ensures
        material_cbor(b).unwrap() == cbor_head(5, 12) + (ids_part(b) + (operations_cbor(b.operations.model()).unwrap()
            + (scope_policy_limits_cbor(b) + tail_part(b)))),
{
    reveal(material_cbor);
    lemma_group20(
        cbor_head(5, 12),
        cbor_text("schema_version"@), cbor_uint(b.schema_version as u64), cbor_text("capability"@),
        cbor_text(b.capability@), cbor_text("contract_version"@), cbor_text(b.contract_version@),
        cbor_text("provider_component_ref"@), cbor_text(b.provider_component_ref@),
        cbor_text("provider_digest"@), cbor_text(b.provider_digest@), cbor_text("operations"@),
        operations_cbor(b.operations.model()).unwrap(),
        scope_policy_limits_cbor(b),
        cbor_text("expires_at_unix_ms"@), opt_uint_cbor(b.expires_at_unix_ms), cbor_text("revocation_id"@),
        opt_text_cbor(b.revocation_id), cbor_text("resolution_id"@), cbor_text(b.resolution_id@),
    );
}

/// The fields before the operations, followed by anything, determine those fields and
/// what follows them.
proof fn lemma_ids_split(a: ExecutableBindingV1, r1: Seq<u8>, b: ExecutableBindingV1, r2: Seq<u8>)
    requires
        ids_part(a) + r1 == ids_part(b) + r2,
        (ids_part(a) + r1).len() <= u64::MAX,
    ensures
        a.schema_version == b.schema_version,
        a.capability@ == b.capability@,
        a.contract_version@ == b.contract_version@,
        a.provider_component_ref@ == b.provider_component_ref@,
        a.provider_digest@ == b.provider_digest@,
        r1 == r2,
{
    let q1 = cbor_text("operations"@) + r1;
    let q2 = cbor_text("operations"@) + r2;
    let d1 = cbor_text(a.provider_digest@) + q1;
    let d2 = cbor_text(b.provider_digest@) + q2;
    let p1 = cbor_text(a.provider_component_ref@) + (cbor_text("provider_digest"@) + d1);
    let p2 = cbor_text(b.provider_component_ref@) + (cbor_text("provider_digest"@) + d2);
    let c1 = cbor_text(a.contract_version@) + (cbor_text("provider_component_ref"@) + p1);
    let c2 = cbor_text(b.contract_version@) + (cbor_text("provider_component_ref"@) + p2);
    let k1 = cbor_text(a.capability@) + (cbor_text("contract_version"@) + c1);
    let k2 = cbor_text(b.capability@) + (cbor_text("contract_version"@) + c2);
    let v1 = cbor_uint(a.schema_version as u64) + (cbor_text("capability"@) + k1);
    let v2 = cbor_uint(b.schema_version as u64) + (cbor_text("capability"@) + k2);
    lemma_right11(
        cbor_text("schema_version"@), cbor_uint(a.schema_version as u64), cbor_text("capability"@),
        cbor_text(a.capability@), cbor_text("contract_version"@), cbor_text(a.contract_version@),
        cbor_text("provider_component_ref"@), cbor_text(a.provider_component_ref@),
        cbor_text("provider_digest"@), cbor_text(a.provider_digest@), cbor_text("operations"@), r1,
    );
    lemma_right11(
        cbor_text("schema_version"@), cbor_uint(b.schema_version as u64), cbor_text("capability"@),
        cbor_text(b.capability@), cbor_text("contract_version"@), cbor_text(b.contract_version@),
        cbor_text("provider_component_ref"@), cbor_text(b.provider_component_ref@),
        cbor_text("provider_digest"@), cbor_text(b.provider_digest@), cbor_text("operations"@), r2,
    );
    lemma_skip(cbor_text("schema_version"@), v1, v2);
    lemma_head_split(0, a.schema_version as u64, cbor_text("capability"@) + k1, 0, b.schema_version as u64, cbor_text("capability"@) + k2);
    lemma_skip(cbor_text("capability"@), k1, k2);
    lemma_text_split(a.capability@, cbor_text("contract_version"@) + c1, b.capability@, cbor_text("contract_version"@) + c2);
    lemma_skip(cbor_text("contract_version"@), c1, c2);
    lemma_text_split(a.contract_version@, cbor_text("provider_component_ref"@) + p1, b.contract_version@, cbor_text("provider_component_ref"@) + p2);
    lemma_skip(cbor_text("provider_component_ref"@), p1, p2);
    lemma_text_split(a.provider_component_ref@, cbor_text("provider_digest"@) + d1, b.provider_component_ref@, cbor_text("provider_digest"@) + d2);
    lemma_skip(cbor_text("provider_digest"@), d1, d2);
    lemma_text_split(a.provider_digest@, q1, b.provider_digest@, q2);
    lemma_skip(cbor_text("operations"@), r1, r2);
}

/// Scope, policy and limits, followed by anything, determine them and what follows them.
proof fn lemma_spl_split(a: ExecutableBindingV1, r1: Seq<u8>, b: ExecutableBindingV1, r2: Seq<u8>)
    requires
        scope_policy_limits_cbor(a) + r1 == scope_policy_limits_cbor(b) + r2,
        (scope_policy_limits_cbor(a) + r1).len() <= u64::MAX,
    ensures
        a.scope.tenant@ == b.scope.tenant@,
        a.scope.environment@ == b.scope.environment@,
        opt_text(a.scope.team) == opt_text(b.scope.team),
        opt_text(a.scope.profile) == opt_text(b.scope.profile),
        a.policy.reference@ == b.policy.reference@,
        a.policy.version@ == b.policy.version@,
        a.limits == b.limits,
        r1 == r2,
{
    let l1 = limits_cbor(a.limits) + r1;
    let l2 = limits_cbor(b.limits) + r2;
    let p1 = policy_cbor(a.policy) + (cbor_text("limits"@) + l1);
    let p2 = policy_cbor(b.policy) + (cbor_text("limits"@) + l2);
    let s1 = scope_cbor(a.scope) + (cbor_text("policy"@) + p1);
    let s2 = scope_cbor(b.scope) + (cbor_text("policy"@) + p2);
    lemma_right6(cbor_text("scope"@), scope_cbor(a.scope), cbor_text("policy"@), policy_cbor(a.policy), cbor_text("limits"@), limits_cbor(a.limits), r1);
    lemma_right6(cbor_text("scope"@), scope_cbor(b.scope), cbor_text("policy"@), policy_cbor(b.policy), cbor_text("limits"@), limits_cbor(b.limits), r2);
    lemma_skip(cbor_text("scope"@), s1, s2);
    lemma_scope_split(a.scope, cbor_text("policy"@) + p1, b.scope, cbor_text("policy"@) + p2);
    lemma_skip(cbor_text("policy"@), p1, p2);
    lemma_policy_split(a.policy, cbor_text("limits"@) + l1, b.policy, cbor_text("limits"@) + l2);
    lemma_skip(cbor_text("limits"@), l1, l2);
    lemma_limits_split(a.limits, r1, b.limits, r2);
}

/// The fields after the limits determine those fields.
proof fn lemma_tail_split(a: ExecutableBindingV1, b: ExecutableBindingV1)
    requires
        tail_part(a) == tail_part(b),
        tail_part(a).len() <= u64::MAX,
    ensures
        a.expires_at_unix_ms == b.expires_at_unix_ms,
        opt_text(a.revocation_id) == opt_text(b.revocation_id),
        a.resolution_id@ == b.resolution_id@,
{
    let e = Seq::<u8>::empty();
    let z1 = cbor_text(a.resolution_id@) + e;
    let z2 = cbor_text(b.resolution_id@) + e;
    let v1 = opt_text_cbor(a.revocation_id) + (cbor_text("resolution_id"@) + z1);
    let v2 = opt_text_cbor(b.revocation_id) + (cbor_text("resolution_id"@) + z2);
    let x1 = opt_uint_cbor(a.expires_at_unix_ms) + (cbor_text("revocation_id"@) + v1);
    let x2 = opt_uint_cbor(b.expires_at_unix_ms) + (cbor_text("revocation_id"@) + v2);
    lemma_right6(cbor_text("expires_at_unix_ms"@), opt_uint_cbor(a.expires_at_unix_ms), cbor_text("revocation_id"@),
        opt_text_cbor(a.revocation_id), cbor_text("resolution_id"@), cbor_text(a.resolution_id@), e);
    lemma_right6(cbor_text("expires_at_unix_ms"@), opt_uint_cbor(b.expires_at_unix_ms), cbor_text("revocation_id"@),
        opt_text_cbor(b.revocation_id), cbor_text("resolution_id"@), cbor_text(b.resolution_id@), e);
    assert(tail_part(a) + e =~= tail_part(a));
    assert(tail_part(b) + e =~= tail_part(b));
    lemma_skip(cbor_text("expires_at_unix_ms"@), x1, x2);
    lemma_opt_uint_split(a.expires_at_unix_ms, cbor_text("revocation_id"@) + v1, b.expires_at_unix_ms, cbor_text("revocation_id"@) + v2);
    lemma_skip(cbor_text("revocation_id"@), v1, v2);
    lemma_opt_text_split(a.revocation_id, cbor_text("resolution_id"@) + z1, b.revocation_id, cbor_text("resolution_id"@) + z2);
    lemma_skip(cbor_text("resolution_id"@), z1, z2);
    lemma_text_split(a.resolution_id@, e, b.resolution_id@, e);
}

/// The digest material determines every field it covers: bindings with the same material
/// and operations written alike agree on their schema version, capability, contract
/// version, provider reference and digest, scope, policy, limits, expiry, revocation
/// identifier and resolution identifier. So any change to one of these fields after sealing
/// changes the material that the digest is taken over. The material is bytes in memory,
/// so its length fits in a machine word.
pub proof fn lemma_material_determines_fields(a: ExecutableBindingV1, b: ExecutableBindingV1)
    requires
        material_cbor(a) is Some,
        material_cbor(a) == material_cbor(b),
        material_cbor(a).unwrap().len() <= usize::MAX,
        operations_cbor(a.operations.model()) == operations_cbor(b.operations.model()),
    ensures
        a.schema_version == b.schema_version,
        a.capability@ == b.capability@,
        a.contract_version@ == b.contract_version@,
        a.provider_component_ref@ == b.provider_component_ref@,
        a.provider_digest@ == b.provider_digest@,
        a.scope.tenant@ == b.scope.tenant@,
        a.scope.environment@ == b.scope.environment@,
        opt_text(a.scope.team) == opt_text(b.scope.team),
        opt_text(a.scope.profile) == opt_text(b.scope.profile),
        a.policy.reference@ == b.policy.reference@,
        a.policy.version@ == b.policy.version@,
        a.limits == b.limits,
        a.expires_at_unix_ms == b.expires_at_unix_ms,
        opt_text(a.revocation_id) == opt_text(b.revocation_id),
        a.resolution_id@ == b.resolution_id@,
{
    lemma_material_shape(a);
    lemma_material_shape(b);
    let ops = operations_cbor(a.operations.model()).unwrap();
    let r1 = ops + (scope_policy_limits_cbor(a) + tail_part(a));
    let r2 = ops + (scope_policy_limits_cbor(b) + tail_part(b));
    lemma_skip(cbor_head(5, 12), ids_part(a) + r1, ids_part(b) + r2);
    lemma_ids_split(a, r1, b, r2);
    lemma_skip(ops, scope_policy_limits_cbor(a) + tail_part(a), scope_policy_limits_cbor(b) + tail_part(b));
    lemma_spl_split(a, tail_part(a), b, tail_part(b));
    lemma_tail_split(a, b);
}

} // verus!
