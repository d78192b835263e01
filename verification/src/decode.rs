//! Reading back the framing that `encode` writes: heads, texts, JSON documents, operation
//! maps and whole executable bindings. Each reader takes exactly the bytes that the
//! matching writer produces and gives back what was written.
use vstd::prelude::*;
use vstd::utf8::{decode_utf8, encode_utf8, valid_utf8, encode_utf8_valid_utf8, encode_utf8_decode_utf8, decode_utf8_encode_utf8};
use vstd::slice::slice_subrange;
use vstd::string::StringExecFns;
use crate::binding::{
    BindingId, schemas_sorted, BindingLimitsV1, BindingPolicyV1, BindingScopeV1, CapabilityId, ExecutableBindingV1, ExecutableOperationV1,
    same_binding, same_policy, same_scope,
};
use crate::encode::{
    ids_cbor, refs_cbor, trailer_cbor, expires_cbor, ids_fields_cbor, refs_fields_cbor, trailer_fields_cbor,
    be2, be4, be8, cbor_head, encode_json_number, json_number_encoding, cbor_null, cbor_text, cbor_uint, json_cbor, json_cbor_items, json_cbor_members, op_cbor,
    operations_cbor, ops_cbor_prefix, optional_text_field, policy_cbor, scope_cbor, limits_cbor, uint_field, binding_cbor,
    scope_policy_limits_cbor,
};
use crate::text::opt_text;
use crate::operations::{OperationMap, entries_model, keys_sorted, model_sorted};
use crate::cbor::bytes_equal;
use crate::json::{
    JsonModel, JsonValue, item_models, member_models, json_model, lemma_item_models, lemma_member_models, members_sorted,
    json_sorted,
};
use crate::order::{chars_lt, compare_chars, KeyOrder, lemma_chars_lt_transitive};
use crate::text::chars_of;
use crate::number::{int_cbor, int_range, int_text, is_int_text, lemma_text_int, negative_int_text, text_int, uint_text};

verus! {

/// `e` occurs in `bytes` at `pos`.
pub open spec fn prefix_at(bytes: Seq<u8>, pos: int, e: Seq<u8>) -> bool {
    0 <= pos && pos + e.len() <= bytes.len() && bytes.subrange(pos, pos + e.len()) == e
}

/// A head byte splits back into its major type and its additional information.
proof fn lemma_head_byte(m: u8, k: u8)
    requires
        m < 8,
        k < 32,
    ensures
        ((m * 32 + k) as u8) / 32 == m,
        ((m * 32 + k) as u8) % 32 == k,
{
    assert(((m * 32 + k) as u8) / 32 == m && ((m * 32 + k) as u8) % 32 == k) by (bit_vector)
        requires
            m < 8,
            k < 32,
    ;
}

/// Two big-endian bytes give back the argument they were cut from.
proof fn lemma_be2(n: u64)
    requires
        n <= 0xffff,
    ensures
        ((((n / 0x100) % 0x100) as u8) as u64) * 256 + (((n % 0x100) as u8) as u64) == n,
{
    assert(((((n / 0x100) % 0x100) as u8) as u64) * 256 + (((n % 0x100) as u8) as u64) == n) by (bit_vector)
        requires
            n <= 0xffff,
    ;
}

/// Four big-endian bytes give back the argument they were cut from.
proof fn lemma_be4(n: u64)
    requires
        n <= 0xffff_ffff,
    ensures
        ((((n / 0x100_0000) % 0x100) as u8) as u64) << 24 | ((((n / 0x1_0000) % 0x100) as u8) as u64) << 16
            | ((((n / 0x100) % 0x100) as u8) as u64) << 8 | (((n % 0x100) as u8) as u64) == n,
{
    assert(((((n / 0x100_0000) % 0x100) as u8) as u64) << 24 | ((((n / 0x1_0000) % 0x100) as u8) as u64) << 16
        | ((((n / 0x100) % 0x100) as u8) as u64) << 8 | (((n % 0x100) as u8) as u64) == n) by (bit_vector)
        requires
            n <= 0xffff_ffff,
    ;
}

/// Eight big-endian bytes give back the argument they were cut from.
proof fn lemma_be8(n: u64)
    ensures
        ((((n / 0x100_0000_0000_0000) % 0x100) as u8) as u64) << 56
            | ((((n / 0x1_0000_0000_0000) % 0x100) as u8) as u64) << 48
            | ((((n / 0x100_0000_0000) % 0x100) as u8) as u64) << 40
            | ((((n / 0x1_0000_0000) % 0x100) as u8) as u64) << 32
            | ((((n / 0x100_0000) % 0x100) as u8) as u64) << 24
            | ((((n / 0x1_0000) % 0x100) as u8) as u64) << 16
            | ((((n / 0x100) % 0x100) as u8) as u64) << 8
            | (((n % 0x100) as u8) as u64) == n,
{
    assert(((((n / 0x100_0000_0000_0000) % 0x100) as u8) as u64) << 56
        | ((((n / 0x1_0000_0000_0000) % 0x100) as u8) as u64) << 48
        | ((((n / 0x100_0000_0000) % 0x100) as u8) as u64) << 40
        | ((((n / 0x1_0000_0000) % 0x100) as u8) as u64) << 32
        | ((((n / 0x100_0000) % 0x100) as u8) as u64) << 24
        | ((((n / 0x1_0000) % 0x100) as u8) as u64) << 16
        | ((((n / 0x100) % 0x100) as u8) as u64) << 8
        | (((n % 0x100) as u8) as u64) == n) by (bit_vector);
}

/// A byte is its major type times 32 plus its additional information.
proof fn lemma_byte_split(b: u8)
    ensures
        b == ((b / 32) * 32 + b % 32) as u8,
        b / 32 < 8,
{
    assert(b == ((b / 32) * 32 + b % 32) as u8 && b / 32 < 8) by (bit_vector);
}

/// An argument read from two big-endian bytes is cut back into the same bytes.
proof fn lemma_be2_read(b1: u8, b2: u8)
    ensures
        ({
            let n = (b1 as u64) * 256 + (b2 as u64);
            ((n / 0x100) % 0x100) as u8 == b1 && (n % 0x100) as u8 == b2 && n <= 0xffff
        }),
{
    assert(({
        let n = (b1 as u64) * 256 + (b2 as u64);
        ((n / 0x100) % 0x100) as u8 == b1 && (n % 0x100) as u8 == b2 && n <= 0xffff
    })) by (bit_vector);
}

/// An argument read from four big-endian bytes is cut back into the same bytes.
proof fn lemma_be4_read(b1: u8, b2: u8, b3: u8, b4: u8)
    ensures
        ({
            let n = (b1 as u64) << 24 | (b2 as u64) << 16 | (b3 as u64) << 8 | (b4 as u64);
            &&& ((n / 0x100_0000) % 0x100) as u8 == b1
            &&& ((n / 0x1_0000) % 0x100) as u8 == b2
            &&& ((n / 0x100) % 0x100) as u8 == b3
            &&& (n % 0x100) as u8 == b4
            &&& n <= 0xffff_ffff
        }),
{
    assert(({
        let n = (b1 as u64) << 24 | (b2 as u64) << 16 | (b3 as u64) << 8 | (b4 as u64);
        &&& ((n / 0x100_0000) % 0x100) as u8 == b1
        &&& ((n / 0x1_0000) % 0x100) as u8 == b2
        &&& ((n / 0x100) % 0x100) as u8 == b3
        &&& (n % 0x100) as u8 == b4
        &&& n <= 0xffff_ffff
    })) by (bit_vector);
}

/// An argument read from eight big-endian bytes is cut back into the same bytes.
proof fn lemma_be8_read(b1: u8, b2: u8, b3: u8, b4: u8, b5: u8, b6: u8, b7: u8, b8: u8)
    ensures
        ({
            let n = (b1 as u64) << 56 | (b2 as u64) << 48 | (b3 as u64) << 40 | (b4 as u64) << 32
                | (b5 as u64) << 24 | (b6 as u64) << 16 | (b7 as u64) << 8 | (b8 as u64);
            &&& ((n / 0x100_0000_0000_0000) % 0x100) as u8 == b1
            &&& ((n / 0x1_0000_0000_0000) % 0x100) as u8 == b2
            &&& ((n / 0x100_0000_0000) % 0x100) as u8 == b3
            &&& ((n / 0x1_0000_0000) % 0x100) as u8 == b4
            &&& ((n / 0x100_0000) % 0x100) as u8 == b5
            &&& ((n / 0x1_0000) % 0x100) as u8 == b6
            &&& ((n / 0x100) % 0x100) as u8 == b7
            &&& (n % 0x100) as u8 == b8
        }),
{
    assert(({
        let n = (b1 as u64) << 56 | (b2 as u64) << 48 | (b3 as u64) << 40 | (b4 as u64) << 32
            | (b5 as u64) << 24 | (b6 as u64) << 16 | (b7 as u64) << 8 | (b8 as u64);
        &&& ((n / 0x100_0000_0000_0000) % 0x100) as u8 == b1
        &&& ((n / 0x1_0000_0000_0000) % 0x100) as u8 == b2
        &&& ((n / 0x100_0000_0000) % 0x100) as u8 == b3
        &&& ((n / 0x1_0000_0000) % 0x100) as u8 == b4
        &&& ((n / 0x100_0000) % 0x100) as u8 == b5
        &&& ((n / 0x1_0000) % 0x100) as u8 == b6
        &&& ((n / 0x100) % 0x100) as u8 == b7
        &&& (n % 0x100) as u8 == b8
    })) by (bit_vector);
}

/// The length of the head `cbor_head(m, n)`.
pub open spec fn head_len(n: u64) -> int {
    if n <= 23 { 1 } else if n <= 0xff { 2 } else if n <= 0xffff { 3 } else if n <= 0xffff_ffff { 5 } else { 9 }
}

/// `head_len` is the length of every head with argument `n`.
pub proof fn lemma_head_len(m: u8, n: u64)
    ensures
        cbor_head(m, n).len() == head_len(n),
{
    reveal(cbor_head);
}

/// What a head written by `cbor_head(m, n)` at `pos` tells a reader: its first byte, and
/// the big-endian argument bytes that follow it.
pub proof fn lemma_head_at(bytes: Seq<u8>, pos: int, m: u8, n: u64)
    requires
        m < 8,
        prefix_at(bytes, pos, cbor_head(m, n)),
    ensures
        pos + head_len(n) <= bytes.len(),
        bytes[pos] / 32 == m,
        n <= 23 ==> bytes[pos] % 32 == n,
        23 < n <= 0xff ==> bytes[pos] % 32 == 24 && bytes[pos + 1] == n,
        0xff < n <= 0xffff ==> bytes[pos] % 32 == 25 && (bytes[pos + 1] as u64) * 256 + (bytes[pos + 2] as u64) == n,
        0xffff < n <= 0xffff_ffff ==> bytes[pos] % 32 == 26 && ((bytes[pos + 1] as u64) << 24 | (bytes[pos + 2] as u64) << 16
            | (bytes[pos + 3] as u64) << 8 | (bytes[pos + 4] as u64)) == n,
        0xffff_ffff < n ==> bytes[pos] % 32 == 27 && ((bytes[pos + 1] as u64) << 56 | (bytes[pos + 2] as u64) << 48
            | (bytes[pos + 3] as u64) << 40 | (bytes[pos + 4] as u64) << 32 | (bytes[pos + 5] as u64) << 24
            | (bytes[pos + 6] as u64) << 16 | (bytes[pos + 7] as u64) << 8 | (bytes[pos + 8] as u64)) == n,
{
    reveal(cbor_head);
    let h = cbor_head(m, n);
    assert forall|i: int| 0 <= i < h.len() implies bytes[pos + i] == h[i] by {
        assert(bytes.subrange(pos, pos + h.len())[i] == bytes[pos + i]);
    }
    if n <= 23 {
        lemma_head_byte(m, n as u8);
        assert(h[0] == ((m as int) * 32 + n) as u8);
        assert((m as int) * 32 + n == m * 32 + (n as u8));
    } else if n <= 0xff {
        lemma_head_byte(m, 24);
        assert(h[0] == ((m as int) * 32 + 24) as u8);
        assert(h[1] == n as u8);
    } else if n <= 0xffff {
        lemma_head_byte(m, 25);
        lemma_be2(n);
        assert(h[0] == ((m as int) * 32 + 25) as u8);
        assert(h[1] == be2(n)[0] && h[2] == be2(n)[1]);
    } else if n <= 0xffff_ffff {
        lemma_head_byte(m, 26);
        lemma_be4(n);
        assert(h[0] == ((m as int) * 32 + 26) as u8);
        assert(h[1] == be4(n)[0] && h[2] == be4(n)[1] && h[3] == be4(n)[2] && h[4] == be4(n)[3]);
    } else {
        lemma_head_byte(m, 27);
        lemma_be8(n);
        assert(h[0] == ((m as int) * 32 + 27) as u8);
        assert(h[1] == be8(n)[0] && h[2] == be8(n)[1] && h[3] == be8(n)[2] && h[4] == be8(n)[3]);
        assert(h[5] == be8(n)[4] && h[6] == be8(n)[5] && h[7] == be8(n)[6] && h[8] == be8(n)[7]);
    }
}

/// Reads the head at `pos`: its major type, its argument, and where the item's content
/// starts. Only the shortest form of each argument is read, so a head is read back
/// exactly when `cbor_head` writes it.
pub fn read_head(bytes: &[u8], pos: usize) -> (res: Option<(u8, u64, usize)>)
    ensures
        forall|m: u8, n: u64| m < 8 && #[trigger] prefix_at(bytes@, pos as int, cbor_head(m, n))
            ==> res == Some((m, n, (pos + head_len(n)) as usize)),
        res matches Some((m, n, p)) ==> m < 8 && pos < p <= bytes.len() && p == pos + head_len(n)
            && prefix_at(bytes@, pos as int, cbor_head(m, n)),
{
    if pos >= bytes.len() {
        proof {
            assert forall|m: u8, n: u64| m < 8 && #[trigger] prefix_at(bytes@, pos as int, cbor_head(m, n))
                implies false by {
                lemma_head_at(bytes@, pos as int, m, n);
            }
        }
        return None;
    }
    let b = bytes[pos];
    let major = b / 32;
    let info = b % 32;
    let (n, end): (u64, usize) = if info < 24 {
        (info as u64, pos + 1)
    } else if info == 24 {
        if bytes.len() - pos < 2 {
            proof {
                assert forall|m: u8, n: u64| m < 8 && #[trigger] prefix_at(bytes@, pos as int, cbor_head(m, n)) implies false by {
                    lemma_head_at(bytes@, pos as int, m, n);
                }
            }
            return None;
        }
        (bytes[pos + 1] as u64, pos + 2)
    } else if info == 25 {
        if bytes.len() - pos < 3 {
            proof {
                assert forall|m: u8, n: u64| m < 8 && #[trigger] prefix_at(bytes@, pos as int, cbor_head(m, n)) implies false by {
                    lemma_head_at(bytes@, pos as int, m, n);
                }
            }
            return None;
        }
        ((bytes[pos + 1] as u64) * 256 + (bytes[pos + 2] as u64), pos + 3)
    } else if info == 26 {
        if bytes.len() - pos < 5 {
            proof {
                assert forall|m: u8, n: u64| m < 8 && #[trigger] prefix_at(bytes@, pos as int, cbor_head(m, n)) implies false by {
                    lemma_head_at(bytes@, pos as int, m, n);
                }
            }
            return None;
        }
        ((bytes[pos + 1] as u64) << 24 | (bytes[pos + 2] as u64) << 16 | (bytes[pos + 3] as u64) << 8
            | (bytes[pos + 4] as u64), pos + 5)
    } else if info == 27 {
        if bytes.len() - pos < 9 {
            proof {
                assert forall|m: u8, n: u64| m < 8 && #[trigger] prefix_at(bytes@, pos as int, cbor_head(m, n)) implies false by {
                    lemma_head_at(bytes@, pos as int, m, n);
                }
            }
            return None;
        }
        ((bytes[pos + 1] as u64) << 56 | (bytes[pos + 2] as u64) << 48 | (bytes[pos + 3] as u64) << 40
            | (bytes[pos + 4] as u64) << 32 | (bytes[pos + 5] as u64) << 24 | (bytes[pos + 6] as u64) << 16
            | (bytes[pos + 7] as u64) << 8 | (bytes[pos + 8] as u64), pos + 9)
    } else {
        proof {
            assert forall|m: u8, n: u64| m < 8 && #[trigger] prefix_at(bytes@, pos as int, cbor_head(m, n)) implies false by {
                lemma_head_at(bytes@, pos as int, m, n);
            }
        }
        return None;
    };
    // the argument must be in its shortest form
    let shortest = if info < 24 {
        true
    } else if info == 24 {
        n > 23
    } else if info == 25 {
        n > 0xff
    } else if info == 26 {
        n > 0xffff
    } else {
        n > 0xffff_ffff
    };
    if !shortest {
        proof {
            assert forall|m: u8, k: u64| m < 8 && #[trigger] prefix_at(bytes@, pos as int, cbor_head(m, k)) implies false by {
                lemma_head_at(bytes@, pos as int, m, k);
            }
        }
        return None;
    }
    proof {
        assert forall|m: u8, k: u64| m < 8 && #[trigger] prefix_at(bytes@, pos as int, cbor_head(m, k))
            implies (major, n, end) == (m, k, (pos + head_len(k)) as usize) by {
            lemma_head_at(bytes@, pos as int, m, k);
        }
    }
    proof {
        reveal(cbor_head);
        lemma_byte_split(b);
        let h = cbor_head(major, n);
        let bs = bytes@;
        if info < 24 {
            assert(bs.subrange(pos as int, pos + 1) =~= h);
        } else if info == 24 {
            assert(bs.subrange(pos as int, pos + 2) =~= h);
        } else if info == 25 {
            lemma_be2_read(bs[pos + 1], bs[pos + 2]);
            assert(bs.subrange(pos as int, pos + 3) =~= h);
        } else if info == 26 {
            lemma_be4_read(bs[pos + 1], bs[pos + 2], bs[pos + 3], bs[pos + 4]);
            assert(bs.subrange(pos as int, pos + 5) =~= h);
        } else {
            lemma_be8_read(bs[pos + 1], bs[pos + 2], bs[pos + 3], bs[pos + 4], bs[pos + 5], bs[pos + 6], bs[pos + 7], bs[pos + 8]);
            assert(bs.subrange(pos as int, pos + 9) =~= h);
        }
    }
    Some((major, n, end))
}

/// `x + y` occurs at `pos` exactly when `x` does and `y` follows it.
pub proof fn lemma_prefix_split(bytes: Seq<u8>, pos: int, x: Seq<u8>, y: Seq<u8>)
    ensures
        prefix_at(bytes, pos, x + y) <==> (prefix_at(bytes, pos, x) && prefix_at(bytes, pos + x.len(), y)),
{
    if prefix_at(bytes, pos, x + y) {
        let w = bytes.subrange(pos, pos + x.len() + y.len());
        assert(w == x + y);
        assert(bytes.subrange(pos, pos + x.len()) =~= w.subrange(0, x.len() as int));
        assert(w.subrange(0, x.len() as int) =~= x);
        assert(bytes.subrange(pos + x.len(), pos + x.len() + y.len()) =~= w.subrange(
            x.len() as int,
            (x.len() + y.len()) as int,
        ));
        assert(w.subrange(x.len() as int, (x.len() + y.len()) as int) =~= y);
    }
    if prefix_at(bytes, pos, x) && prefix_at(bytes, pos + x.len(), y) {
        assert(bytes.subrange(pos, pos + (x + y).len()) =~= bytes.subrange(pos, pos + x.len())
            + bytes.subrange(pos + x.len(), pos + x.len() + y.len()));
    }
}

/// `String::from_utf8`: the text that `bytes` encode, when they are well-formed UTF-8.
#[verifier::external_body]
fn utf8_text(bytes: &[u8]) -> (res: Option<String>)
    ensures
        match res {
            Some(s) => valid_utf8(bytes@) && s@ == decode_utf8(bytes@),
            None => !valid_utf8(bytes@),
        },
{
    String::from_utf8(bytes.to_vec()).ok()
}

/// Reads the text string at `pos`, and where the next item starts.
pub fn read_text(bytes: &[u8], pos: usize) -> (res: Option<(String, usize)>)
    ensures
        forall|s: Seq<char>| #[trigger] prefix_at(bytes@, pos as int, cbor_text(s))
            ==> (res matches Some((t, p)) && t@ == s && p == pos + cbor_text(s).len()),
        res matches Some((t, p)) ==> pos < p <= bytes.len() && prefix_at(bytes@, pos as int, cbor_text(t@))
            && p == pos + cbor_text(t@).len(),
{
    let head = read_head(bytes, pos);
    let blen = bytes.len();
    proof {
        assert forall|s: Seq<char>| #[trigger] prefix_at(bytes@, pos as int, cbor_text(s)) implies {
            let l = encode_utf8(s).len() as u64;
            &&& l == encode_utf8(s).len()
            &&& head == Some((3u8, l, (pos + head_len(l)) as usize))
            &&& prefix_at(bytes@, pos + head_len(l), encode_utf8(s))
        } by {
            let l = encode_utf8(s).len() as u64;
            assert(encode_utf8(s).len() <= blen);
            lemma_prefix_split(bytes@, pos as int, cbor_head(3, l), encode_utf8(s));
            lemma_head_len(3, l);
        }
    }
    match head {
        None => None,
        Some((major, n, start)) => {
            if major != 3 || n > (bytes.len() - start) as u64 {
                return None;
            }
            let end = start + n as usize;
            let content = slice_subrange(bytes, start, end);
            match utf8_text(content) {
                Some(t) => {
                    proof {
                        assert forall|s: Seq<char>| #[trigger] prefix_at(bytes@, pos as int, cbor_text(s)) implies t@ == s
                            && end == pos + cbor_text(s).len() by {
                            encode_utf8_decode_utf8(s);
                            lemma_head_len(3, n);
                            assert(content@ =~= encode_utf8(s));
                        }
                        decode_utf8_encode_utf8(content@);
                        lemma_head_len(3, n);
                        assert(prefix_at(bytes@, start as int, content@));
                        lemma_prefix_split(bytes@, pos as int, cbor_head(3, n), content@);
                    }
                    Some((t, end))
                },
                None => {
                    proof {
                        assert forall|s: Seq<char>| #[trigger] prefix_at(bytes@, pos as int, cbor_text(s)) implies false by {
                            encode_utf8_valid_utf8(s);
                            assert(content@ =~= encode_utf8(s));
                        }
                    }
                    None
                },
            }
        },
    }
}

/// Reads the text string `key` at `pos`, and where the next item starts.
pub fn expect_key(bytes: &[u8], pos: usize, key: &str) -> (res: Option<usize>)
    ensures
        prefix_at(bytes@, pos as int, cbor_text(key@)) ==> res == Some((pos + cbor_text(key@).len()) as usize),
        res matches Some(p) ==> pos < p <= bytes.len() && prefix_at(bytes@, pos as int, cbor_text(key@))
            && p == pos + cbor_text(key@).len(),
{
    match read_text(bytes, pos) {
        Some((t, p)) => {
            let k = String::from_str(key);
            if t == k {
                Some(p)
            } else {
                None
            }
        },
        None => None,
    }
}

/// Reads the unsigned integer at `pos`, and where the next item starts.
pub fn read_uint(bytes: &[u8], pos: usize) -> (res: Option<(u64, usize)>)
    ensures
        forall|n: u64| #[trigger] prefix_at(bytes@, pos as int, cbor_uint(n))
            ==> res == Some((n, (pos + cbor_uint(n).len()) as usize)),
        res matches Some((n, p)) ==> pos < p <= bytes.len() && prefix_at(bytes@, pos as int, cbor_uint(n))
            && p == pos + cbor_uint(n).len(),
{
    match read_head(bytes, pos) {
        Some((major, n, p)) => {
            proof {
                assert forall|k: u64| #[trigger] prefix_at(bytes@, pos as int, cbor_uint(k))
                    implies (n, p) == (k, (pos + cbor_uint(k).len()) as usize) by {
                    assert(prefix_at(bytes@, pos as int, cbor_head(0, k)));
                    lemma_head_len(0, k);
                }
            }
            if major == 0 {
                proof {
                    lemma_head_len(0, n);
                }
                Some((n, p))
            } else {
                None
            }
        },
        None => {
            proof {
                assert forall|k: u64| #[trigger] prefix_at(bytes@, pos as int, cbor_uint(k)) implies false by {
                    assert(prefix_at(bytes@, pos as int, cbor_head(0, k)));
                }
            }
            None
        },
    }
}

/// `x` occurs at `pos`, so each of its prefixes does.
pub proof fn lemma_prefix_take(bytes: Seq<u8>, pos: int, x: Seq<u8>, k: int)
    requires
        prefix_at(bytes, pos, x),
        0 <= k <= x.len(),
    ensures
        prefix_at(bytes, pos, x.subrange(0, k)),
{
    assert(bytes.subrange(pos, pos + k) =~= bytes.subrange(pos, pos + x.len()).subrange(0, k));
}

/// Every number in `v` is an integer that `serde_json` holds as one or a float that
/// `serde_cbor` writes as a float item and reads back as the same text, every object holds
/// its members sorted by key, and arrays and objects nest at most `depth` deep: a
/// document that `read_json` reads back from its encoding.
pub open spec fn readable(v: JsonModel, depth: nat) -> bool
    decreases v,
{
    match v {
        JsonModel::Number(t) => is_int_text(t) || float_readable(t),
        JsonModel::Array(items) => depth > 0 && forall|i: int|
            0 <= i < items.len() ==> readable(#[trigger] items[i], (depth - 1) as nat),
        JsonModel::Object(members) => depth > 0 && members_sorted(members) && forall|i: int|
            0 <= i < members.len() ==> readable(#[trigger] members[i].1, (depth - 1) as nat),
        _ => true,
    }
}

/// The encoding of `items[..i]` begins the encoding of `items[..n]`.
proof fn lemma_items_prefix(items: Seq<JsonModel>, i: int, n: int)
    requires
        0 <= i <= n <= items.len(),
        json_cbor_items(items, n) is Some,
    ensures
        json_cbor_items(items, i) is Some,
        json_cbor_items(items, i).unwrap().len() <= json_cbor_items(items, n).unwrap().len(),
        json_cbor_items(items, n).unwrap().subrange(0, json_cbor_items(items, i).unwrap().len() as int)
            == json_cbor_items(items, i).unwrap(),
    decreases n - i,
{
    let big = json_cbor_items(items, n).unwrap();
    if i < n {
        lemma_items_prefix(items, i, n - 1);
        let a = json_cbor_items(items, n - 1).unwrap();
        let small = json_cbor_items(items, i).unwrap();
        assert(big.subrange(0, small.len() as int) =~= a.subrange(0, small.len() as int));
    } else {
        assert(big.subrange(0, big.len() as int) =~= big);
    }
}

/// The encoding of the first `k` items does not change when an item is appended.
proof fn lemma_items_push(items: Seq<JsonModel>, x: JsonModel, k: int)
    requires
        0 <= k <= items.len(),
    ensures
        json_cbor_items(items.push(x), k) == json_cbor_items(items, k),
        k == items.len() ==> json_cbor_items(items.push(x), k + 1) == (match (json_cbor_items(items, k), json_cbor(x)) {
            (Some(a), Some(b)) => Some(a + b),
            _ => None,
        }),
    decreases k,
{
    if k > 0 {
        lemma_items_push(items, x, k - 1);
        assert(items.push(x)[k - 1] == items[k - 1]);
    }
    if k == items.len() {
        assert(items.push(x)[k] == x);
    }
}

/// The encoding of the first `k` members does not change when a member is appended.
proof fn lemma_members_push(members: Seq<(Seq<char>, JsonModel)>, x: (Seq<char>, JsonModel), k: int)
    requires
        0 <= k <= members.len(),
    ensures
        json_cbor_members(members.push(x), k) == json_cbor_members(members, k),
        k == members.len() ==> json_cbor_members(members.push(x), k + 1) == (match (json_cbor_members(members, k), json_cbor(x.1)) {
            (Some(a), Some(b)) => Some(a + cbor_text(x.0) + b),
            _ => None,
        }),
    decreases k,
{
    if k > 0 {
        lemma_members_push(members, x, k - 1);
        assert(members.push(x)[k - 1] == members[k - 1]);
    }
    if k == members.len() {
        assert(members.push(x)[k] == x);
    }
}

/// The encoding of `members[..i]` begins the encoding of `members[..n]`.
proof fn lemma_members_prefix(members: Seq<(Seq<char>, JsonModel)>, i: int, n: int)
    requires
        0 <= i <= n <= members.len(),
        json_cbor_members(members, n) is Some,
    ensures
        json_cbor_members(members, i) is Some,
        json_cbor_members(members, i).unwrap().len() <= json_cbor_members(members, n).unwrap().len(),
        json_cbor_members(members, n).unwrap().subrange(0, json_cbor_members(members, i).unwrap().len() as int)
            == json_cbor_members(members, i).unwrap(),
    decreases n - i,
{
    let big = json_cbor_members(members, n).unwrap();
    if i < n {
        lemma_members_prefix(members, i, n - 1);
        let a = json_cbor_members(members, n - 1).unwrap();
        let small = json_cbor_members(members, i).unwrap();
        assert(big.subrange(0, small.len() as int) =~= a.subrange(0, small.len() as int));
    } else {
        assert(big.subrange(0, big.len() as int) =~= big);
    }
}

/// The encoding of a document is never empty, where its number, if it is one, is readable.
proof fn lemma_json_nonempty(v: JsonModel)
    requires
        v matches JsonModel::Number(t) ==> is_int_text(t) || float_readable(t),
        json_cbor(v) is Some,
    ensures
        json_cbor(v).unwrap().len() >= 1,
{
    reveal(cbor_head);
}

/// Each of the first `n` readable items takes at least one byte.
proof fn lemma_items_len(items: Seq<JsonModel>, n: int, d: nat)
    requires
        0 <= n <= items.len(),
        forall|i: int| 0 <= i < items.len() ==> readable(#[trigger] items[i], d),
        json_cbor_items(items, n) is Some,
    ensures
        json_cbor_items(items, n).unwrap().len() >= n,
    decreases n,
{
    if n > 0 {
        assert(readable(items[n - 1], d));
        lemma_json_nonempty(items[n - 1]);
        lemma_items_len(items, n - 1, d);
    }
}

/// Each of the first `n` members with a readable value takes at least one byte.
proof fn lemma_members_len(members: Seq<(Seq<char>, JsonModel)>, n: int, d: nat)
    requires
        0 <= n <= members.len(),
        forall|i: int| 0 <= i < members.len() ==> readable(#[trigger] members[i].1, d),
        json_cbor_members(members, n) is Some,
    ensures
        json_cbor_members(members, n).unwrap().len() >= n,
    decreases n,
{
    if n > 0 {
        assert(readable(members[n - 1].1, d));
        lemma_json_nonempty(members[n - 1].1);
        lemma_members_len(members, n - 1, d);
    }
}

/// What the first bytes of the encoding of a readable document are.
proof fn lemma_json_head(bytes: Seq<u8>, pos: int, v: JsonModel, d: nat)
    requires
        bytes.len() <= usize::MAX,
        readable(v, d),
        json_cbor(v) is Some,
        prefix_at(bytes, pos, json_cbor(v).unwrap()),
    ensures
        0 <= pos < bytes.len(),
        v is Null ==> bytes[pos] == 0xf6,
        v matches JsonModel::Bool(b) ==> bytes[pos] == (if b { 0xf5u8 } else { 0xf4u8 }),
        v matches JsonModel::Text(t) ==> bytes[pos] / 32 == 3 && prefix_at(bytes, pos, cbor_text(t)),
        v matches JsonModel::Number(t) ==> is_int_text(t) ==> ({
            let k = text_int(t);
            &&& int_range(k) && int_text(k) == t
            &&& k >= 0 ==> bytes[pos] / 32 == 0 && prefix_at(bytes, pos, cbor_head(0, k as u64))
            &&& k < 0 ==> bytes[pos] / 32 == 1 && prefix_at(bytes, pos, cbor_head(1, (-1 - k) as u64))
        }),
        v matches JsonModel::Number(t) ==> !is_int_text(t) ==> ({
            let e = json_number_encoding(t).unwrap();
            &&& float_readable(t)
            &&& prefix_at(bytes, pos, e)
            &&& bytes[pos] == e[0]
            &&& pos + e.len() <= bytes.len()
        }),
        v matches JsonModel::Array(items) ==> bytes[pos] / 32 == 4 && items.len() <= u64::MAX && ({
            let h = cbor_head(4, items.len() as u64);
            &&& prefix_at(bytes, pos, h)
            &&& json_cbor_items(items, items.len() as int) is Some
            &&& prefix_at(bytes, pos + h.len(), json_cbor_items(items, items.len() as int).unwrap())
        }),
        v matches JsonModel::Object(members) ==> bytes[pos] / 32 == 5 && members.len() <= u64::MAX && ({
            let h = cbor_head(5, members.len() as u64);
            &&& prefix_at(bytes, pos, h)
            &&& json_cbor_members(members, members.len() as int) is Some
            &&& prefix_at(bytes, pos + h.len(), json_cbor_members(members, members.len() as int).unwrap())
        }),
{
    let e = json_cbor(v).unwrap();
    reveal(cbor_head);
    assert(e.len() >= 1);
    assert(bytes.subrange(pos, pos + e.len())[0] == bytes[pos]);
    match v {
        JsonModel::Number(t) => if is_int_text(t) {
            let k = text_int(t);
            if k >= 0 {
                lemma_head_at(bytes, pos, 0, k as u64);
            } else {
                lemma_head_at(bytes, pos, 1, (-1 - k) as u64);
            }
        },
        JsonModel::Text(t) => {
            let l = encode_utf8(t).len() as u64;
            lemma_prefix_split(bytes, pos, cbor_head(3, l), encode_utf8(t));
            lemma_head_at(bytes, pos, 3, l);
        },
        JsonModel::Array(items) => {
            let l = items.len() as u64;
            let body = json_cbor_items(items, items.len() as int).unwrap();
            lemma_prefix_split(bytes, pos, cbor_head(4, l), body);
            lemma_head_at(bytes, pos, 4, l);
            lemma_items_len(items, items.len() as int, (d - 1) as nat);
        },
        JsonModel::Object(members) => {
            let l = members.len() as u64;
            let body = json_cbor_members(members, members.len() as int).unwrap();
            lemma_prefix_split(bytes, pos, cbor_head(5, l), body);
            lemma_head_at(bytes, pos, 5, l);
            lemma_members_len(members, members.len() as int, (d - 1) as nat);
        },
        _ => {},
    }
}

/// The text that `serde_json` prints for the `serde_json::Number` that `serde_cbor` reads
/// from `bytes`; `None` when `serde_cbor` reads no such number there.
pub uninterp spec fn json_number_decoding(bytes: Seq<u8>) -> Option<Seq<char>>;

/// `e` is a float item as `serde_cbor` writes one: a half, single or double precision float.
pub open spec fn float_item(e: Seq<u8>) -> bool {
    ||| e.len() == 3 && e[0] == 0xf9
    ||| e.len() == 5 && e[0] == 0xfa
    ||| e.len() == 9 && e[0] == 0xfb
}

/// `t` is not the text of an integer, `serde_cbor` writes the number it parses to as a
/// float item, and reads that item back as a `serde_json::Number` printed as `t` again.
pub open spec fn float_readable(t: Seq<char>) -> bool {
    &&& !is_int_text(t)
    &&& json_number_encoding(t) matches Some(e)
    &&& float_item(e)
    &&& json_number_decoding(e) == Some(t)
}

/// `serde_cbor::from_slice::<serde_json::Number>`, printed with `to_string`.
#[verifier::external_body]
fn decode_json_number(bytes: &[u8]) -> (res: Option<String>)
    ensures
        json_number_decoding(bytes@) == (match res {
            Some(t) => Some(t@),
            None => None::<Seq<char>>,
        }),
{
    match serde_cbor::from_slice::<serde_json::Number>(bytes) {
        Ok(n) => Some(n.to_string()),
        Err(_) => None,
    }
}

/// Reads `bytes[pos..end]` as the number that `serde_cbor` reads as a `serde_json::Number`
/// there, taken only when its encoder writes that number back as the same bytes.
fn read_other_number(bytes: &[u8], pos: usize, end: usize) -> (res: Option<(JsonValue, usize)>)
    requires
        pos < end <= bytes.len(),
    ensures
        forall|t: Seq<char>| #[trigger] float_readable(t) && json_number_encoding(t).unwrap().len() == end - pos
            && prefix_at(bytes@, pos as int, json_number_encoding(t).unwrap())
            ==> (res matches Some((x, p)) && x@ == JsonModel::Number(t) && p == end),
        res matches Some((x, p)) ==> p == end && json_cbor(x@) is Some
            && prefix_at(bytes@, pos as int, json_cbor(x@).unwrap()) && p == pos + json_cbor(x@).unwrap().len()
            && json_sorted(x@),
{
    let item = slice_subrange(bytes, pos, end);
    let t = match decode_json_number(item) {
        Some(t) => t,
        None => {
            return None;
        },
    };
    // only a number in the form its encoder writes it is read
    let again = match encode_json_number(t.as_str()) {
        Some(e) => e,
        None => {
            return None;
        },
    };
    if !bytes_equal(again.as_slice(), item) {
        return None;
    }
    proof {
        assert(prefix_at(bytes@, pos as int, item@));
    }
    Some((JsonValue::Number(t), end))
}

/// The item at `pos` is the encoding of the readable document `v`.
pub open spec fn encoded_at(bytes: Seq<u8>, pos: int, v: JsonModel, depth: nat) -> bool {
    readable(v, depth) && json_cbor(v) is Some && prefix_at(bytes, pos, json_cbor(v).unwrap())
}

/// Reads the JSON document at `pos`, and where the next item starts. Arrays and objects
/// may nest at most `depth` deep. An integer item from `i64::MIN` to `u64::MAX` is read
/// as its decimal text; any other number is what `serde_cbor` reads as a
/// `serde_json::Number` from its item, taken only when the item is the one its encoder
/// writes for it. Whatever is read, the bytes read are its encoding; every readable
/// document is read back from that encoding.
pub fn read_json(bytes: &[u8], pos: usize, depth: u32) -> (res: Option<(JsonValue, usize)>)
    ensures
        forall|v: JsonModel| #[trigger] encoded_at(bytes@, pos as int, v, depth as nat)
            ==> (res matches Some((x, p)) && x@ == v && p == pos + json_cbor(v).unwrap().len()),
        res matches Some((x, p)) ==> pos < p <= bytes.len() && json_cbor(x@) is Some
            && prefix_at(bytes@, pos as int, json_cbor(x@).unwrap()) && p == pos + json_cbor(x@).unwrap().len()
            && json_sorted(x@),
    decreases depth, 0nat,
{
    let blen = bytes.len();
    if pos >= blen {
        proof {
            assert forall|v: JsonModel| #[trigger] encoded_at(bytes@, pos as int, v, depth as nat) implies false by {
                lemma_json_head(bytes@, pos as int, v, depth as nat);
            }
        }
        return None;
    }
    let b = bytes[pos];
    let major = b / 32;
    let info = b % 32;
    if b == 0xf6 || b == 0xf5 || b == 0xf4 {
        let x = if b == 0xf6 {
            JsonValue::Null
        } else {
            JsonValue::Bool(b == 0xf5)
        };
        proof {
            assert forall|v: JsonModel| #[trigger] encoded_at(bytes@, pos as int, v, depth as nat) implies x@ == v
                && pos + 1 == pos + json_cbor(v).unwrap().len() by {
                lemma_json_head(bytes@, pos as int, v, depth as nat);
            }
            assert(bytes@.subrange(pos as int, pos + 1) =~= json_cbor(x@).unwrap());
        }
        return Some((x, pos + 1));
    }
    if major == 3 {
        proof {
            assert forall|v: JsonModel| #[trigger] encoded_at(bytes@, pos as int, v, depth as nat) implies
                v is Text by {
                lemma_json_head(bytes@, pos as int, v, depth as nat);
            }
        }
        return match read_text(bytes, pos) {
            Some((t, p)) => Some((JsonValue::Text(t), p)),
            None => None,
        };
    }
    if major == 0 || major == 1 {
        let (m, n, p) = match read_head(bytes, pos) {
            Some(h) => h,
            None => {
                proof {
                    assert forall|v: JsonModel| #[trigger] encoded_at(bytes@, pos as int, v, depth as nat) implies false by {
                        lemma_json_head(bytes@, pos as int, v, depth as nat);
                        if is_int_text(v->Number_0) {
                            let k = text_int(v->Number_0);
                            assert(prefix_at(bytes@, pos as int, cbor_head(0, k as u64)) || prefix_at(bytes@, pos as int, cbor_head(1, (-1 - k) as u64)));
                        }
                    }
                }
                return None;
            },
        };
        proof {
            assert forall|v: JsonModel| #[trigger] encoded_at(bytes@, pos as int, v, depth as nat) implies
                v is Number && int_text(if m == 0 { n as int } else { -1 - n }) == v->Number_0
                && json_cbor(v) == Some(cbor_head(m, n)) by {
                lemma_json_head(bytes@, pos as int, v, depth as nat);
                if is_int_text(v->Number_0) {
                    let k = text_int(v->Number_0);
                    if k >= 0 {
                        assert(prefix_at(bytes@, pos as int, cbor_head(0, k as u64)));
                    } else {
                        assert(prefix_at(bytes@, pos as int, cbor_head(1, (-1 - k) as u64)));
                    }
                }
            }
        }
        if m == 0 || n <= 0x7fff_ffff_ffff_ffff {
            let t = if m == 0 {
                uint_text(n)
            } else {
                negative_int_text(n)
            };
            proof {
                let i: int = if m == 0 { n as int } else { -1 - n };
                lemma_text_int(i);
                lemma_head_at(bytes@, pos as int, m, n);
                if m == 0 {
                    assert(int_cbor(i) == cbor_head(0, n));
                } else {
                    assert(m == 1 && -1 - i == n);
                    assert(int_cbor(i) == cbor_head(1, n));
                }
                lemma_head_len(m, n);
            }
            return Some((JsonValue::Number(t), p));
        }
        return read_other_number(bytes, pos, p);
    }
    if major == 7 && 25 <= info && info <= 27 {
        let width: usize = if info == 25 {
            3
        } else if info == 26 {
            5
        } else {
            9
        };
        proof {
            assert forall|v: JsonModel| #[trigger] encoded_at(bytes@, pos as int, v, depth as nat) implies
                v matches JsonModel::Number(t) && float_readable(t)
                && json_cbor(v) == json_number_encoding(t)
                && json_number_encoding(t).unwrap().len() == width
                && pos + width <= blen by {
                lemma_json_head(bytes@, pos as int, v, depth as nat);
            }
        }
        if blen - pos < width {
            return None;
        }
        return read_other_number(bytes, pos, pos + width);
    }
    proof {
        assert forall|v: JsonModel| #[trigger] encoded_at(bytes@, pos as int, v, depth as nat) implies
            v is Array || v is Object by {
            lemma_json_head(bytes@, pos as int, v, depth as nat);
        }
    }
    if major != 4 && major != 5 {
        proof {
            assert forall|v: JsonModel| #[trigger] encoded_at(bytes@, pos as int, v, depth as nat) implies false by {
                lemma_json_head(bytes@, pos as int, v, depth as nat);
            }
        }
        return None;
    }
    let head = read_head(bytes, pos);
    if depth == 0 {
        return None;
    }
    let (m, n, start) = match head {
        Some((m, n, start)) => (m, n, start),
        None => {
            proof {
                assert forall|v: JsonModel| #[trigger] encoded_at(bytes@, pos as int, v, depth as nat) implies false by {
                    lemma_json_head(bytes@, pos as int, v, depth as nat);
                }
            }
            return None;
        },
    };
    proof {
        assert forall|v: JsonModel| #[trigger] encoded_at(bytes@, pos as int, v, depth as nat) implies
            (v matches JsonModel::Array(items) ==> n == items.len() && start == pos + head_len(n))
            && (v matches JsonModel::Object(members) ==> n == members.len() && start == pos + head_len(n)) by {
            lemma_json_head(bytes@, pos as int, v, depth as nat);
            lemma_head_len(4, n);
            lemma_head_len(5, n);
            assert(bytes@.len() == blen);
        }
    }
    if major == 4 {
        let read = read_json_items(bytes, start, n, depth - 1);
        proof {
            assert forall|v: JsonModel| #[trigger] encoded_at(bytes@, pos as int, v, depth as nat) implies
                items_at(bytes@, start as int, v->Array_0, n, (depth - 1) as nat) by {
                lemma_json_head(bytes@, pos as int, v, depth as nat);
                lemma_head_len(4, n);
            }
        }
        match read {
            Some((items, p)) => {
                proof {
                    assert forall|v: JsonModel| #[trigger] encoded_at(bytes@, pos as int, v, depth as nat) implies
                        JsonValue::Array(items)@ == v && p == pos + json_cbor(v).unwrap().len() by {
                        lemma_json_head(bytes@, pos as int, v, depth as nat);
                        lemma_head_len(4, n);
                        let its = v->Array_0;
                        assert(items_at(bytes@, start as int, its, n, (depth - 1) as nat));
                        assert(item_models(items@, 0) =~= its);
                    }
                    let x = JsonValue::Array(items);
                    let ms = item_models(items@, 0);
                    assert(x@ == JsonModel::Array(ms));
                    assert(ms.len() == n);
                    lemma_head_at(bytes@, pos as int, m, n);
                    lemma_head_len(4, n);
                    lemma_prefix_split(bytes@, pos as int, cbor_head(4, n), json_cbor_items(ms, n as int).unwrap());
                }
                Some((JsonValue::Array(items), p))
            },
            None => {
                proof {
                    assert forall|v: JsonModel| #[trigger] encoded_at(bytes@, pos as int, v, depth as nat) implies false by {
                        lemma_json_head(bytes@, pos as int, v, depth as nat);
                    }
                }
                None
            },
        }
    } else {
        let read = read_json_members(bytes, start, n, depth - 1);
        proof {
            assert forall|v: JsonModel| #[trigger] encoded_at(bytes@, pos as int, v, depth as nat) implies
                members_at(bytes@, start as int, v->Object_0, n, (depth - 1) as nat) by {
                lemma_json_head(bytes@, pos as int, v, depth as nat);
                lemma_head_len(5, n);
            }
        }
        match read {
            Some((members, p)) => {
                proof {
                    assert forall|v: JsonModel| #[trigger] encoded_at(bytes@, pos as int, v, depth as nat) implies
                        JsonValue::Object(members)@ == v && p == pos + json_cbor(v).unwrap().len() by {
                        lemma_json_head(bytes@, pos as int, v, depth as nat);
                        lemma_head_len(5, n);
                        let ms = v->Object_0;
                        assert(members_at(bytes@, start as int, ms, n, (depth - 1) as nat));
                        assert(member_models(members@, 0) =~= ms);
                    }
                    let x = JsonValue::Object(members);
                    let ms = member_models(members@, 0);
                    assert(x@ == JsonModel::Object(ms));
                    assert(ms.len() == n);
                    lemma_head_at(bytes@, pos as int, m, n);
                    lemma_head_len(5, n);
                    lemma_prefix_split(bytes@, pos as int, cbor_head(5, n), json_cbor_members(ms, n as int).unwrap());
                }
                Some((JsonValue::Object(members), p))
            },
            None => {
                proof {
                    assert forall|v: JsonModel| #[trigger] encoded_at(bytes@, pos as int, v, depth as nat) implies false by {
                        lemma_json_head(bytes@, pos as int, v, depth as nat);
                    }
                }
                None
            },
        }
    }
}

/// `items` is the content of `n` readable items, each nested at most `depth`
/// deep, whose encodings follow one another at `start`.
pub open spec fn items_at(bytes: Seq<u8>, start: int, items: Seq<JsonModel>, n: u64, depth: nat) -> bool {
    &&& items.len() == n
    &&& forall|i: int| 0 <= i < items.len() ==> readable(#[trigger] items[i], depth)
    &&& json_cbor_items(items, n as int) is Some
    &&& prefix_at(bytes, start, json_cbor_items(items, n as int).unwrap())
}

/// Reads `n` JSON documents one after the other from `start`.
fn read_json_items(bytes: &[u8], start: usize, n: u64, depth: u32) -> (res: Option<(Vec<JsonValue>, usize)>)
    ensures
        forall|items: Seq<JsonModel>| #[trigger] items_at(bytes@, start as int, items, n, depth as nat)
            ==> (res matches Some((out, p)) && item_models(out@, 0) == items
                && p == start + json_cbor_items(items, n as int).unwrap().len()),
        res matches Some((out, p)) ==> start <= p <= bytes.len() && item_models(out@, 0).len() == n
            && json_cbor_items(item_models(out@, 0), n as int) is Some
            && prefix_at(bytes@, start as int, json_cbor_items(item_models(out@, 0), n as int).unwrap())
            && p == start + json_cbor_items(item_models(out@, 0), n as int).unwrap().len()
            && forall|j: int| 0 <= j < n ==> json_sorted(#[trigger] item_models(out@, 0)[j]),
    decreases depth, 1nat,
{
    let mut out: Vec<JsonValue> = Vec::new();
    let mut p = start;
    let mut i: u64 = 0;
    if start > bytes.len() {
        proof {
            assert forall|items: Seq<JsonModel>| #[trigger] items_at(bytes@, start as int, items, n, depth as nat)
                implies false by {}
        }
        return None;
    }
    proof {
        assert(bytes@.subrange(start as int, start as int) =~= Seq::<u8>::empty());
        assert(out@.map_values(|x: JsonValue| x@) =~= Seq::<JsonModel>::empty());
    }
    while i < n
        invariant
            i <= n,
            start <= p <= bytes.len(),
            out@.len() == i,
            forall|items: Seq<JsonModel>| #[trigger] items_at(bytes@, start as int, items, n, depth as nat) ==> {
                &&& json_cbor_items(items, i as int) is Some
                &&& p == start + json_cbor_items(items, i as int).unwrap().len()
                &&& forall|j: int| 0 <= j < i ==> json_model(#[trigger] out@[j]) == items[j]
            },
            ({
                let ms = out@.map_values(|x: JsonValue| x@);
                {
                    &&& json_cbor_items(ms, i as int) is Some
                    &&& prefix_at(bytes@, start as int, json_cbor_items(ms, i as int).unwrap())
                    &&& p == start + json_cbor_items(ms, i as int).unwrap().len()
                    &&& forall|j: int| 0 <= j < i ==> json_sorted(#[trigger] ms[j])
                }
            }),
        decreases n - i,
    {
        proof {
            assert forall|items: Seq<JsonModel>| #[trigger] items_at(bytes@, start as int, items, n, depth as nat)
                implies encoded_at(bytes@, p as int, items[i as int], depth as nat) by {
                lemma_items_prefix(items, i as int + 1, n as int);
                let whole = json_cbor_items(items, n as int).unwrap();
                let upto = json_cbor_items(items, i as int + 1).unwrap();
                lemma_prefix_take(bytes@, start as int, whole, upto.len() as int);
                lemma_prefix_split(bytes@, start as int, json_cbor_items(items, i as int).unwrap(), json_cbor(items[i as int]).unwrap());
            }
        }
        let ghost before = out@;
        match read_json(bytes, p, depth) {
            Some((x, q)) => {
                let ghost xv = x@;
                out.push(x);
                proof {
                    let ms0 = before.map_values(|x: JsonValue| x@);
                    let ms = out@.map_values(|x: JsonValue| x@);
                    assert(ms =~= ms0.push(xv));
                    lemma_items_push(ms0, xv, i as int);
                    lemma_prefix_split(bytes@, start as int, json_cbor_items(ms0, i as int).unwrap(), json_cbor(xv).unwrap());
                    assert forall|j: int| 0 <= j < i + 1 implies json_sorted(#[trigger] ms[j]) by {
                        if j < i {
                            assert(ms[j] == ms0[j]);
                        }
                    }
                }
                p = q;
            },
            None => {
                return None;
            },
        }
        i = i + 1;
    }
    proof {
        assert forall|items: Seq<JsonModel>| #[trigger] items_at(bytes@, start as int, items, n, depth as nat)
            implies item_models(out@, 0) == items by {
            lemma_item_models(out@, 0);
            assert(item_models(out@, 0) =~= items);
        }
        lemma_item_models(out@, 0);
        assert(item_models(out@, 0) =~= out@.map_values(|x: JsonValue| x@));
    }
    Some((out, p))
}

/// `members` is the content of `n` object members with readable values, each nested at
/// most `depth` deep, whose encodings follow one another at `start`.
pub open spec fn members_at(bytes: Seq<u8>, start: int, members: Seq<(Seq<char>, JsonModel)>, n: u64, depth: nat) -> bool {
    &&& members.len() == n
    &&& members_sorted(members)
    &&& forall|i: int| 0 <= i < members.len() ==> readable(#[trigger] members[i].1, depth)
    &&& json_cbor_members(members, n as int) is Some
    &&& prefix_at(bytes, start, json_cbor_members(members, n as int).unwrap())
}

/// Reads `n` object members, each key followed by its value, from `start`.
fn read_json_members(bytes: &[u8], start: usize, n: u64, depth: u32) -> (res: Option<(Vec<(String, JsonValue)>, usize)>)
    ensures
        forall|members: Seq<(Seq<char>, JsonModel)>| #[trigger] members_at(bytes@, start as int, members, n, depth as nat)
            ==> (res matches Some((out, p)) && member_models(out@, 0) == members
                && p == start + json_cbor_members(members, n as int).unwrap().len()),
        res matches Some((out, p)) ==> start <= p <= bytes.len() && member_models(out@, 0).len() == n
            && json_cbor_members(member_models(out@, 0), n as int) is Some
            && prefix_at(bytes@, start as int, json_cbor_members(member_models(out@, 0), n as int).unwrap())
            && p == start + json_cbor_members(member_models(out@, 0), n as int).unwrap().len()
            && members_sorted(member_models(out@, 0))
            && forall|j: int| 0 <= j < n ==> json_sorted(#[trigger] member_models(out@, 0)[j].1),
    decreases depth, 1nat,
{
    let mut out: Vec<(String, JsonValue)> = Vec::new();
    let mut prev: Vec<char> = Vec::new();
    let mut p = start;
    let mut i: u64 = 0;
    if start > bytes.len() {
        proof {
            assert forall|members: Seq<(Seq<char>, JsonModel)>| #[trigger] members_at(bytes@, start as int, members, n, depth as nat)
                implies false by {}
        }
        return None;
    }
    proof {
        assert(bytes@.subrange(start as int, start as int) =~= Seq::<u8>::empty());
        assert(out@.map_values(|e: (String, JsonValue)| (e.0@, e.1@)) =~= Seq::<(Seq<char>, JsonModel)>::empty());
    }
    while i < n
        invariant
            i <= n,
            start <= p <= bytes.len(),
            out@.len() == i,
            forall|members: Seq<(Seq<char>, JsonModel)>| #[trigger] members_at(bytes@, start as int, members, n, depth as nat) ==> {
                &&& json_cbor_members(members, i as int) is Some
                &&& p == start + json_cbor_members(members, i as int).unwrap().len()
                &&& forall|j: int| 0 <= j < i ==> (#[trigger] out@[j]).0@ == members[j].0 && json_model(out@[j].1) == members[j].1
            },
            ({
                let ms = out@.map_values(|e: (String, JsonValue)| (e.0@, e.1@));
                {
                    &&& json_cbor_members(ms, i as int) is Some
                    &&& prefix_at(bytes@, start as int, json_cbor_members(ms, i as int).unwrap())
                    &&& p == start + json_cbor_members(ms, i as int).unwrap().len()
                    &&& members_sorted(ms)
                    &&& forall|j: int| 0 <= j < i ==> json_sorted(#[trigger] ms[j].1)
                    &&& i > 0 ==> prev@ == ms[i - 1].0
                }
            }),
        decreases n - i,
    {
        proof {
            assert forall|members: Seq<(Seq<char>, JsonModel)>| #[trigger] members_at(bytes@, start as int, members, n, depth as nat)
                implies prefix_at(bytes@, p as int, cbor_text(members[i as int].0))
                && encoded_at(bytes@, p + cbor_text(members[i as int].0).len(), members[i as int].1, depth as nat) by {
                lemma_members_prefix(members, i as int + 1, n as int);
                let whole = json_cbor_members(members, n as int).unwrap();
                let upto = json_cbor_members(members, i as int + 1).unwrap();
                let before = json_cbor_members(members, i as int).unwrap();
                let key = cbor_text(members[i as int].0);
                lemma_prefix_take(bytes@, start as int, whole, upto.len() as int);
                lemma_prefix_split(bytes@, start as int, before + key, json_cbor(members[i as int].1).unwrap());
                lemma_prefix_split(bytes@, start as int, before, key);
            }
        }
        let (k, q) = match read_text(bytes, p) {
            Some(r) => r,
            None => {
                return None;
            },
        };
        // keys come strictly increasing, as a JSON object's map holds them
        let name = chars_of(k.as_str());
        proof {
            assert forall|members: Seq<(Seq<char>, JsonModel)>| #[trigger] members_at(bytes@, start as int, members, n, depth as nat)
                implies i > 0 ==> chars_lt(prev@, name@) by {
                if i > 0 {
                    assert(out@[i - 1].0@ == members[i - 1].0);
                    assert(out@.map_values(|e: (String, JsonValue)| (e.0@, e.1@))[i - 1] == (out@[i - 1].0@, out@[i - 1].1@));
                }
            }
        }
        if i > 0 && compare_chars(&prev, &name) != KeyOrder::Before {
            return None;
        }
        let ghost before = out@;
        let ghost key = k@;
        match read_json(bytes, q, depth) {
            Some((x, r)) => {
                let ghost xv = x@;
                out.push((k, x));
                proof {
                    let ms0 = before.map_values(|e: (String, JsonValue)| (e.0@, e.1@));
                    let ms = out@.map_values(|e: (String, JsonValue)| (e.0@, e.1@));
                    assert(ms =~= ms0.push((key, xv)));
                    lemma_members_push(ms0, (key, xv), i as int);
                    lemma_prefix_split(bytes@, start as int, json_cbor_members(ms0, i as int).unwrap(), cbor_text(key));
                    lemma_prefix_split(bytes@, start as int, json_cbor_members(ms0, i as int).unwrap() + cbor_text(key), json_cbor(xv).unwrap());
                    assert forall|a: int, b: int| 0 <= a < b < ms.len() implies chars_lt((#[trigger] ms[a]).0, (#[trigger] ms[b]).0) by {
                        if b == i {
                            if a < i - 1 {
                                lemma_chars_lt_transitive(ms0[a].0, ms0[i - 1].0, key);
                            }
                        } else {
                            assert(ms[a] == ms0[a] && ms[b] == ms0[b]);
                        }
                    }
                    assert forall|j: int| 0 <= j < i + 1 implies json_sorted(#[trigger] ms[j].1) by {
                        if j < i {
                            assert(ms[j] == ms0[j]);
                        }
                    }
                }
                prev = name;
                p = r;
            },
            None => {
                return None;
            },
        }
        i = i + 1;
    }
    proof {
        assert forall|members: Seq<(Seq<char>, JsonModel)>| #[trigger] members_at(bytes@, start as int, members, n, depth as nat)
            implies member_models(out@, 0) == members by {
            lemma_member_models(out@, 0);
            assert(member_models(out@, 0) =~= members);
        }
        lemma_member_models(out@, 0);
        assert(member_models(out@, 0) =~= out@.map_values(|e: (String, JsonValue)| (e.0@, e.1@)));
    }
    Some((out, p))
}

/// The operation mapping `m`, with schemas readable at nesting `depth`, is encoded at `pos`.
pub open spec fn operation_at(bytes: Seq<u8>, pos: int, m: (Seq<char>, JsonModel, JsonModel), depth: nat) -> bool {
    &&& readable(m.1, depth)
    &&& readable(m.2, depth)
    &&& op_cbor(m) is Some
    &&& prefix_at(bytes, pos, op_cbor(m).unwrap())
}

/// Reads one operation mapping at `pos`, and where the next item starts.
pub fn read_operation(bytes: &[u8], pos: usize, depth: u32) -> (res: Option<(ExecutableOperationV1, usize)>)
    ensures
        forall|m: (Seq<char>, JsonModel, JsonModel)| #[trigger] operation_at(bytes@, pos as int, m, depth as nat)
            ==> (res matches Some((op, p)) && op.model() == m && p == pos + op_cbor(m).unwrap().len()),
        res matches Some((op, p)) ==> pos < p <= bytes.len() && op_cbor(op.model()) is Some
            && prefix_at(bytes@, pos as int, op_cbor(op.model()).unwrap()) && p == pos + op_cbor(op.model()).unwrap().len()
            && json_sorted(op.model().1) && json_sorted(op.model().2),
{
    let ghost h = cbor_head(5, 3);
    let ghost k1 = cbor_text("component_operation"@);
    let ghost k2 = cbor_text("input_schema"@);
    let ghost k3 = cbor_text("output_schema"@);
    proof {
        assert forall|m: (Seq<char>, JsonModel, JsonModel)| #[trigger] operation_at(bytes@, pos as int, m, depth as nat) implies {
            let a = json_cbor(m.1).unwrap();
            let b = json_cbor(m.2).unwrap();
            let t = cbor_text(m.0);
            &&& prefix_at(bytes@, pos as int, h)
            &&& prefix_at(bytes@, pos + h.len(), k1)
            &&& prefix_at(bytes@, pos + h.len() + k1.len(), t)
            &&& prefix_at(bytes@, pos + h.len() + k1.len() + t.len(), k2)
            &&& encoded_at(bytes@, pos + h.len() + k1.len() + t.len() + k2.len(), m.1, depth as nat)
            &&& prefix_at(bytes@, pos + h.len() + k1.len() + t.len() + k2.len() + a.len(), k3)
            &&& encoded_at(bytes@, pos + h.len() + k1.len() + t.len() + k2.len() + a.len() + k3.len(), m.2, depth as nat)
        } by {
            let a = json_cbor(m.1).unwrap();
            let b = json_cbor(m.2).unwrap();
            let t = cbor_text(m.0);
            lemma_prefix_split(bytes@, pos as int, h + k1 + t + k2 + a + k3, b);
            lemma_prefix_split(bytes@, pos as int, h + k1 + t + k2 + a, k3);
            lemma_prefix_split(bytes@, pos as int, h + k1 + t + k2, a);
            lemma_prefix_split(bytes@, pos as int, h + k1 + t, k2);
            lemma_prefix_split(bytes@, pos as int, h + k1, t);
            lemma_prefix_split(bytes@, pos as int, h, k1);
        }
    }
    let p = match read_head(bytes, pos) {
        Some((5, 3, p)) => p,
        _ => {
            return None;
        },
    };
    proof {
        lemma_head_len(5, 3);
    }
    let p = match expect_key(bytes, p, "component_operation") {
        Some(p) => p,
        None => {
            return None;
        },
    };
    let (component_operation, p) = match read_text(bytes, p) {
        Some(r) => r,
        None => {
            return None;
        },
    };
    let p = match expect_key(bytes, p, "input_schema") {
        Some(p) => p,
        None => {
            return None;
        },
    };
    let (input_schema, p) = match read_json(bytes, p, depth) {
        Some(r) => r,
        None => {
            return None;
        },
    };
    let p = match expect_key(bytes, p, "output_schema") {
        Some(p) => p,
        None => {
            return None;
        },
    };
    let (output_schema, p) = match read_json(bytes, p, depth) {
        Some(r) => r,
        None => {
            return None;
        },
    };
    let op = ExecutableOperationV1 { component_operation, input_schema, output_schema };
    proof {
        let m = op.model();
        {
            let a = json_cbor(m.1).unwrap();
            let b = json_cbor(m.2).unwrap();
            let t = cbor_text(m.0);
            lemma_prefix_split(bytes@, pos as int, h, k1);
            lemma_prefix_split(bytes@, pos as int, h + k1, t);
            lemma_prefix_split(bytes@, pos as int, h + k1 + t, k2);
            lemma_prefix_split(bytes@, pos as int, h + k1 + t + k2, a);
            lemma_prefix_split(bytes@, pos as int, h + k1 + t + k2 + a, k3);
            lemma_prefix_split(bytes@, pos as int, h + k1 + t + k2 + a + k3, b);
        }
    }
    Some((op, p))
}

/// The encoding of `ops[..i]` begins the encoding of `ops[..n]`.
proof fn lemma_ops_prefix(ops: Seq<(Seq<char>, (Seq<char>, JsonModel, JsonModel))>, i: int, n: int)
    requires
        0 <= i <= n <= ops.len(),
        ops_cbor_prefix(ops, n) is Some,
    ensures
        ops_cbor_prefix(ops, i) is Some,
        ops_cbor_prefix(ops, i).unwrap().len() <= ops_cbor_prefix(ops, n).unwrap().len(),
        ops_cbor_prefix(ops, n).unwrap().subrange(0, ops_cbor_prefix(ops, i).unwrap().len() as int)
            == ops_cbor_prefix(ops, i).unwrap(),
    decreases n - i,
{
    let big = ops_cbor_prefix(ops, n).unwrap();
    if i < n {
        lemma_ops_prefix(ops, i, n - 1);
        let a = ops_cbor_prefix(ops, n - 1).unwrap();
        let small = ops_cbor_prefix(ops, i).unwrap();
        assert(big.subrange(0, small.len() as int) =~= a.subrange(0, small.len() as int));
    } else {
        assert(big.subrange(0, big.len() as int) =~= big);
    }
}

/// The encoding of the first `k` entries does not change when an entry is appended.
proof fn lemma_ops_push(
    ops: Seq<(Seq<char>, (Seq<char>, JsonModel, JsonModel))>,
    x: (Seq<char>, (Seq<char>, JsonModel, JsonModel)),
    k: int,
)
    requires
        0 <= k <= ops.len(),
    ensures
        ops_cbor_prefix(ops.push(x), k) == ops_cbor_prefix(ops, k),
        k == ops.len() ==> ops_cbor_prefix(ops.push(x), k + 1) == (match (ops_cbor_prefix(ops, k), op_cbor(x.1)) {
            (Some(a), Some(b)) => Some(a + cbor_text(x.0) + b),
            _ => None,
        }),
    decreases k,
{
    if k > 0 {
        lemma_ops_push(ops, x, k - 1);
        assert(ops.push(x)[k - 1] == ops[k - 1]);
    }
    if k == ops.len() {
        assert(ops.push(x)[k] == x);
    }
}

/// Each of the first `n` entries takes at least one byte.
proof fn lemma_ops_len(ops: Seq<(Seq<char>, (Seq<char>, JsonModel, JsonModel))>, n: int)
    requires
        0 <= n <= ops.len(),
        ops_cbor_prefix(ops, n) is Some,
    ensures
        ops_cbor_prefix(ops, n).unwrap().len() >= n,
    decreases n,
{
    if n > 0 {
        reveal(cbor_head);
        lemma_ops_len(ops, n - 1);
    }
}

/// The sorted operation map `ops`, with schemas readable at nesting `depth`, is encoded
/// at `pos`.
pub open spec fn operations_at(
    bytes: Seq<u8>,
    pos: int,
    ops: Seq<(Seq<char>, (Seq<char>, JsonModel, JsonModel))>,
    depth: nat,
) -> bool {
    &&& model_sorted(ops)
    &&& forall|i: int| 0 <= i < ops.len() ==> readable((#[trigger] ops[i]).1.1, depth) && readable(ops[i].1.2, depth)
    &&& operations_cbor(ops) is Some
    &&& prefix_at(bytes, pos, operations_cbor(ops).unwrap())
}

/// Reads an operation map at `pos`, and where the next item starts. Names must come in
/// strictly increasing order, as they are written.
#[verifier::rlimit(60)]
#[verifier::spinoff_prover]
pub fn read_operations(bytes: &[u8], pos: usize, depth: u32) -> (res: Option<(OperationMap, usize)>)
    ensures
        forall|ops: Seq<(Seq<char>, (Seq<char>, JsonModel, JsonModel))>| #[trigger] operations_at(bytes@, pos as int, ops, depth as nat)
            ==> (res matches Some((m, p)) && m.model() == ops && p == pos + operations_cbor(ops).unwrap().len()),
        res matches Some((m, p)) ==> pos < p <= bytes.len() && model_sorted(m.model())
            && operations_cbor(m.model()) is Some && prefix_at(bytes@, pos as int, operations_cbor(m.model()).unwrap())
            && p == pos + operations_cbor(m.model()).unwrap().len() && schemas_sorted(m.model()),
{
    let blen = bytes.len();
    proof {
        assert forall|ops: Seq<(Seq<char>, (Seq<char>, JsonModel, JsonModel))>| #[trigger] operations_at(bytes@, pos as int, ops, depth as nat)
            implies ops.len() <= u64::MAX && prefix_at(bytes@, pos as int, cbor_head(5, ops.len() as u64))
            && prefix_at(bytes@, pos + head_len(ops.len() as u64), ops_cbor_prefix(ops, ops.len() as int).unwrap()) by {
            let l = ops.len() as u64;
            let body = ops_cbor_prefix(ops, ops.len() as int).unwrap();
            lemma_prefix_split(bytes@, pos as int, cbor_head(5, l), body);
            lemma_head_len(5, l);
            lemma_ops_len(ops, ops.len() as int);
            assert(bytes@.len() == blen);
        }
    }
    let (n, start) = match read_head(bytes, pos) {
        Some((5, n, start)) => (n, start),
        _ => {
            return None;
        },
    };
    let mut map = OperationMap::new();
    let mut p = start;
    let mut i: u64 = 0;
    proof {
        assert(bytes@.subrange(start as int, start as int) =~= Seq::<u8>::empty());
        assert(map.model() =~= Seq::<(Seq<char>, (Seq<char>, JsonModel, JsonModel))>::empty());
    }
    while i < n
        invariant
            i <= n,
            pos < start <= p <= bytes.len(),
            map.entries().len() == i,
            keys_sorted(map.entries()),
            forall|ops: Seq<(Seq<char>, (Seq<char>, JsonModel, JsonModel))>| #[trigger] operations_at(bytes@, pos as int, ops, depth as nat) ==> {
                &&& ops.len() == n
                &&& start == pos + head_len(n)
                &&& prefix_at(bytes@, start as int, ops_cbor_prefix(ops, n as int).unwrap())
                &&& ops_cbor_prefix(ops, i as int) is Some
                &&& p == start + ops_cbor_prefix(ops, i as int).unwrap().len()
                &&& map.model() == ops.take(i as int)
            },
            ({
                let ms = map.model();
                {
                    &&& schemas_sorted(ms)
                    &&& ops_cbor_prefix(ms, i as int) is Some
                    &&& prefix_at(bytes@, start as int, ops_cbor_prefix(ms, i as int).unwrap())
                    &&& p == start + ops_cbor_prefix(ms, i as int).unwrap().len()
                }
            }),
        decreases n - i,
    {
        proof {
            assert forall|ops: Seq<(Seq<char>, (Seq<char>, JsonModel, JsonModel))>| #[trigger] operations_at(bytes@, pos as int, ops, depth as nat)
                implies prefix_at(bytes@, p as int, cbor_text(ops[i as int].0))
                && operation_at(bytes@, p + cbor_text(ops[i as int].0).len(), ops[i as int].1, depth as nat) by {
                lemma_ops_prefix(ops, i as int + 1, n as int);
                let whole = ops_cbor_prefix(ops, n as int).unwrap();
                let upto = ops_cbor_prefix(ops, i as int + 1).unwrap();
                let before = ops_cbor_prefix(ops, i as int).unwrap();
                let key = cbor_text(ops[i as int].0);
                lemma_prefix_take(bytes@, start as int, whole, upto.len() as int);
                lemma_prefix_split(bytes@, start as int, before + key, op_cbor(ops[i as int].1).unwrap());
                lemma_prefix_split(bytes@, start as int, before, key);
            }
        }
        let (name, q) = match read_text(bytes, p) {
            Some(r) => r,
            None => {
                return None;
            },
        };
        let (op, r) = match read_operation(bytes, q, depth) {
            Some(x) => x,
            None => {
                return None;
            },
        };
        let ghost prior = map.entries();
        let ghost entry = (name, op);
        proof {
            assert forall|ops: Seq<(Seq<char>, (Seq<char>, JsonModel, JsonModel))>| #[trigger] operations_at(bytes@, pos as int, ops, depth as nat)
                implies prior.len() == 0 || chars_lt(prior.last().0@, name@) by {
                if i > 0 {
                    assert(entries_model(prior)[i - 1] == ops.take(i as int)[i - 1]);
                    assert(chars_lt(ops[i - 1].0, ops[i as int].0));
                }
            }
        }
        if !map.push_last(name, op) {
            return None;
        }
        proof {
            let ms0 = entries_model(prior);
            let ms = map.model();
            let e = (entry.0@, entry.1.model());
            assert(ms =~= ms0.push(e));
            {
                assert(ms[i as int] == e);
                lemma_ops_push(ms0, e, i as int);
                lemma_prefix_split(bytes@, start as int, ops_cbor_prefix(ms0, i as int).unwrap(), cbor_text(e.0));
                lemma_prefix_split(bytes@, start as int, ops_cbor_prefix(ms0, i as int).unwrap() + cbor_text(e.0), op_cbor(e.1).unwrap());
            }
            assert forall|ops: Seq<(Seq<char>, (Seq<char>, JsonModel, JsonModel))>| #[trigger] operations_at(bytes@, pos as int, ops, depth as nat)
                implies map.model() == ops.take(i + 1) by {
                assert(entries_model(prior.push(entry)) =~= entries_model(prior).push((entry.0@, entry.1.model())));
                assert(ops.take(i as int + 1) =~= ops.take(i as int).push(ops[i as int]));
            }
        }
        p = r;
        i = i + 1;
    }
    proof {
        assert forall|ops: Seq<(Seq<char>, (Seq<char>, JsonModel, JsonModel))>| #[trigger] operations_at(bytes@, pos as int, ops, depth as nat)
            implies map.model() == ops && p == pos + operations_cbor(ops).unwrap().len() by {
            assert(ops.take(n as int) =~= ops);
            lemma_head_len(5, n);
        }
        let ms = map.model();
        lemma_head_len(5, n);
        {
            lemma_prefix_split(bytes@, pos as int, cbor_head(5, n), ops_cbor_prefix(ms, n as int).unwrap());
        }
    }
    Some((map, p))
}

/// Whether `k` holds the text `key`.
fn key_is(k: &String, key: &str) -> (b: bool)
    ensures
        b == (k@ == key@),
{
    let wanted = String::from_str(key);
    *k == wanted
}

/// Reads the field `key` whose value is a text string.
pub fn read_text_field(bytes: &[u8], pos: usize, key: &str) -> (res: Option<(String, usize)>)
    ensures
        forall|v: Seq<char>| #[trigger] prefix_at(bytes@, pos as int, cbor_text(key@) + cbor_text(v))
            ==> (res matches Some((t, p)) && t@ == v && p == pos + cbor_text(key@).len() + cbor_text(v).len()),
        res matches Some((t, p)) ==> pos < p <= bytes.len() && prefix_at(bytes@, pos as int, cbor_text(key@) + cbor_text(t@))
            && p == pos + cbor_text(key@).len() + cbor_text(t@).len(),
{
    proof {
        assert forall|v: Seq<char>| #[trigger] prefix_at(bytes@, pos as int, cbor_text(key@) + cbor_text(v)) implies
            prefix_at(bytes@, pos as int, cbor_text(key@)) && prefix_at(bytes@, pos + cbor_text(key@).len(), cbor_text(v)) by {
            lemma_prefix_split(bytes@, pos as int, cbor_text(key@), cbor_text(v));
        }
    }
    match expect_key(bytes, pos, key) {
        Some(p) => {
            let r = read_text(bytes, p);
            proof {
                if let Some((t, q)) = &r {
                    lemma_prefix_split(bytes@, pos as int, cbor_text(key@), cbor_text(t@));
                }
            }
            r
        },
        None => None,
    }
}

/// Reads the field `key` whose value is an unsigned integer.
pub fn read_uint_field(bytes: &[u8], pos: usize, key: &str) -> (res: Option<(u64, usize)>)
    ensures
        forall|v: u64| #[trigger] prefix_at(bytes@, pos as int, uint_field(key@, v))
            ==> res == Some((v, (pos + uint_field(key@, v).len()) as usize)),
        res matches Some((t, p)) ==> pos < p <= bytes.len() && prefix_at(bytes@, pos as int, uint_field(key@, t))
            && p == pos + uint_field(key@, t).len(),
{
    proof {
        assert forall|v: u64| #[trigger] prefix_at(bytes@, pos as int, uint_field(key@, v)) implies
            prefix_at(bytes@, pos as int, cbor_text(key@)) && prefix_at(bytes@, pos + cbor_text(key@).len(), cbor_uint(v)) by {
            lemma_prefix_split(bytes@, pos as int, cbor_text(key@), cbor_uint(v));
        }
    }
    match expect_key(bytes, pos, key) {
        Some(p) => {
            let r = read_uint(bytes, p);
            proof {
                if let Some((t, q)) = &r {
                    lemma_prefix_split(bytes@, pos as int, cbor_text(key@), cbor_uint(*t));
                }
            }
            r
        },
        None => None,
    }
}

/// Reads the field `key` whose value is an unsigned integer of 32 bits.
fn read_u32_field(bytes: &[u8], pos: usize, key: &str) -> (res: Option<(u32, usize)>)
    ensures
        forall|v: u32| #[trigger] prefix_at(bytes@, pos as int, uint_field(key@, v as u64))
            ==> res == Some((v, (pos + uint_field(key@, v as u64).len()) as usize)),
        res matches Some((t, p)) ==> pos < p <= bytes.len() && prefix_at(bytes@, pos as int, uint_field(key@, t as u64))
            && p == pos + uint_field(key@, t as u64).len(),
{
    match read_uint_field(bytes, pos, key) {
        Some((v, p)) => {
            if v <= 0xffff_ffff {
                Some((v as u32, p))
            } else {
                None
            }
        },
        None => None,
    }
}

/// Reads a scope at `pos`: tenant, environment, then team and profile when present.
#[verifier::rlimit(60)]
#[verifier::spinoff_prover]
pub fn read_scope(bytes: &[u8], pos: usize) -> (res: Option<(BindingScopeV1, usize)>)
    ensures
        forall|v: BindingScopeV1| #[trigger] prefix_at(bytes@, pos as int, scope_cbor(v))
            ==> (res matches Some((x, p)) && same_scope(x, v) && p == pos + scope_cbor(v).len()),
        res matches Some((x, p)) ==> pos < p <= bytes.len() && prefix_at(bytes@, pos as int, scope_cbor(x))
            && p == pos + scope_cbor(x).len(),
{
    let ghost kt = cbor_text("tenant"@);
    let ghost ke = cbor_text("environment"@);
    proof {
        reveal_strlit("team");
        reveal_strlit("profile");
        assert forall|v: BindingScopeV1| #[trigger] prefix_at(bytes@, pos as int, scope_cbor(v)) implies {
            let n = (2 + (if v.team is Some { 1int } else { 0int }) + (if v.profile is Some { 1int } else { 0int })) as u64;
            let h = cbor_head(5, n);
            let t = cbor_text(v.tenant@);
            let e = cbor_text(v.environment@);
            let ot = optional_text_field("team"@, v.team);
            let op = optional_text_field("profile"@, v.profile);
            &&& h.len() == head_len(n)
            &&& prefix_at(bytes@, pos as int, h)
            &&& prefix_at(bytes@, pos + h.len(), kt + t)
            &&& prefix_at(bytes@, pos + h.len() + kt.len() + t.len(), ke + e)
            &&& prefix_at(bytes@, pos + h.len() + kt.len() + t.len() + ke.len() + e.len(), ot)
            &&& prefix_at(bytes@, pos + h.len() + kt.len() + t.len() + ke.len() + e.len() + ot.len(), op)
            &&& v.team matches Some(tv) ==> prefix_at(bytes@, pos + h.len() + kt.len() + t.len() + ke.len() + e.len(), cbor_text("team"@))
                && prefix_at(bytes@, pos + h.len() + kt.len() + t.len() + ke.len() + e.len() + cbor_text("team"@).len(), cbor_text(tv@))
            &&& v.team is None ==> (v.profile matches Some(pv) ==> prefix_at(bytes@, pos + h.len() + kt.len() + t.len() + ke.len() + e.len(), cbor_text("profile"@))
                && prefix_at(bytes@, pos + h.len() + kt.len() + t.len() + ke.len() + e.len() + cbor_text("profile"@).len(), cbor_text(pv@)))
        } by {
            let n = (2 + (if v.team is Some { 1int } else { 0int }) + (if v.profile is Some { 1int } else { 0int })) as u64;
            let h = cbor_head(5, n);
            let t = cbor_text(v.tenant@);
            let e = cbor_text(v.environment@);
            let ot = optional_text_field("team"@, v.team);
            let op = optional_text_field("profile"@, v.profile);
            assert(scope_cbor(v) =~= h + (kt + t) + (ke + e) + ot + op);
            lemma_head_len(5, n);
            lemma_prefix_split(bytes@, pos as int, h + (kt + t) + (ke + e) + ot, op);
            lemma_prefix_split(bytes@, pos as int, h + (kt + t) + (ke + e), ot);
            lemma_prefix_split(bytes@, pos as int, h + (kt + t), ke + e);
            lemma_prefix_split(bytes@, pos as int, h, kt + t);
            let at = pos + h.len() + kt.len() + t.len() + ke.len() + e.len();
            if let Some(tv) = v.team {
                lemma_prefix_split(bytes@, at, cbor_text("team"@), cbor_text(tv@));
            }
            if let Some(pv) = v.profile {
                lemma_prefix_split(bytes@, at + ot.len(), cbor_text("profile"@), cbor_text(pv@));
            }
        }
    }
    let (n, p) = match read_head(bytes, pos) {
        Some((5, n, p)) => (n, p),
        _ => {
            return None;
        },
    };
    if n < 2 || n > 4 {
        return None;
    }
    let (tenant, p) = match read_text_field(bytes, p, "tenant") {
        Some(r) => r,
        None => {
            return None;
        },
    };
    let (environment, p) = match read_text_field(bytes, p, "environment") {
        Some(r) => r,
        None => {
            return None;
        },
    };
    let ghost env_end = p;
    let ghost front = cbor_head(5, n) + (kt + cbor_text(tenant@)) + (ke + cbor_text(environment@));
    proof {
        lemma_head_len(5, n);
        lemma_prefix_split(bytes@, pos as int, cbor_head(5, n), kt + cbor_text(tenant@));
        lemma_prefix_split(bytes@, pos as int, cbor_head(5, n) + (kt + cbor_text(tenant@)), ke + cbor_text(environment@));
        assert(bytes@.subrange(env_end as int, env_end as int) =~= Seq::<u8>::empty());
    }
    let mut rest = n - 2;
    let mut p = p;
    let mut team: Option<String> = None;
    let mut profile: Option<String> = None;
    if rest > 0 {
        let (k, q) = match read_text(bytes, p) {
            Some(r) => r,
            None => {
                return None;
            },
        };
        if key_is(&k, "team") {
            let (t, q) = match read_text(bytes, q) {
                Some(r) => r,
                None => {
                    return None;
                },
            };
            proof {
                reveal_strlit("team");
                lemma_prefix_split(bytes@, env_end as int, cbor_text(k@), cbor_text(t@));
            }
            team = Some(t);
            p = q;
            rest = rest - 1;
            if rest > 0 {
                let (f, q) = match read_text_field(bytes, p, "profile") {
                    Some(r) => r,
                    None => {
                        return None;
                    },
                };
                proof {
                    lemma_prefix_split(bytes@, env_end as int, optional_text_field("team"@, team), cbor_text("profile"@) + cbor_text(f@));
                }
                profile = Some(f);
                p = q;
                rest = rest - 1;
            }
            proof {
                assert(optional_text_field("team"@, team) + optional_text_field("profile"@, profile)
                    =~= optional_text_field("team"@, team) + optional_text_field("profile"@, profile));
                if profile is None {
                    assert(optional_text_field("team"@, team) + optional_text_field("profile"@, profile)
                        =~= optional_text_field("team"@, team));
                }
            }
        } else if key_is(&k, "profile") && rest == 1 {
            let (f, q) = match read_text(bytes, q) {
                Some(r) => r,
                None => {
                    return None;
                },
            };
            proof {
                lemma_prefix_split(bytes@, env_end as int, cbor_text(k@), cbor_text(f@));
            }
            profile = Some(f);
            p = q;
            rest = 0;
            proof {
                assert(optional_text_field("team"@, team) + optional_text_field("profile"@, profile)
                    =~= optional_text_field("profile"@, profile));
            }
        } else {
            return None;
        }
    }
    if rest != 0 {
        return None;
    }
    let x = BindingScopeV1 { tenant, environment, team, profile };
    proof {
        let tail = optional_text_field("team"@, x.team) + optional_text_field("profile"@, x.profile);
        if team is None && profile is None {
            assert(tail =~= Seq::<u8>::empty());
        }
        assert(prefix_at(bytes@, env_end as int, tail));
        assert(p == env_end + tail.len());
        lemma_prefix_split(bytes@, pos as int, front, tail);
        assert(scope_cbor(x) =~= front + tail);
    }
    Some((x, p))
}

/// Reads a policy snapshot at `pos`.
pub fn read_policy(bytes: &[u8], pos: usize) -> (res: Option<(BindingPolicyV1, usize)>)
    ensures
        forall|v: BindingPolicyV1| #[trigger] prefix_at(bytes@, pos as int, policy_cbor(v))
            ==> (res matches Some((x, p)) && same_policy(x, v) && p == pos + policy_cbor(v).len()),
        res matches Some((x, p)) ==> pos < p <= bytes.len() && prefix_at(bytes@, pos as int, policy_cbor(x))
            && p == pos + policy_cbor(x).len(),
{
    let ghost kr = cbor_text("reference"@);
    let ghost kv = cbor_text("version"@);
    proof {
        assert forall|v: BindingPolicyV1| #[trigger] prefix_at(bytes@, pos as int, policy_cbor(v)) implies {
            let h = cbor_head(5, 2);
            let r = cbor_text(v.reference@);
            &&& prefix_at(bytes@, pos as int, h)
            &&& prefix_at(bytes@, pos + h.len(), kr + r)
            &&& prefix_at(bytes@, pos + h.len() + kr.len() + r.len(), kv + cbor_text(v.version@))
        } by {
            let h = cbor_head(5, 2);
            let r = cbor_text(v.reference@);
            let w = cbor_text(v.version@);
            assert(policy_cbor(v) =~= h + (kr + r) + (kv + w));
            lemma_prefix_split(bytes@, pos as int, h + (kr + r), kv + w);
            lemma_prefix_split(bytes@, pos as int, h, kr + r);
        }
        lemma_head_len(5, 2);
    }
    let p = match read_head(bytes, pos) {
        Some((5, 2, p)) => p,
        _ => {
            return None;
        },
    };
    let (reference, p) = match read_text_field(bytes, p, "reference") {
        Some(r) => r,
        None => {
            return None;
        },
    };
    let (version, p) = match read_text_field(bytes, p, "version") {
        Some(r) => r,
        None => {
            return None;
        },
    };
    let x = BindingPolicyV1 { reference, version };
    proof {
        let h = cbor_head(5, 2);
        let r = kr + cbor_text(x.reference@);
        let w = kv + cbor_text(x.version@);
        lemma_prefix_split(bytes@, pos as int, h, r);
        lemma_prefix_split(bytes@, pos as int, h + r, w);
        assert(policy_cbor(x) =~= h + r + w);
    }
    Some((x, p))
}

/// Reads the limits at `pos`.
#[verifier::rlimit(80)]
#[verifier::spinoff_prover]
pub fn read_limits(bytes: &[u8], pos: usize) -> (res: Option<(BindingLimitsV1, usize)>)
    ensures
        forall|v: BindingLimitsV1| #[trigger] prefix_at(bytes@, pos as int, limits_cbor(v))
            ==> res == Some((v, (pos + limits_cbor(v).len()) as usize)),
        res matches Some((x, p)) ==> pos < p <= bytes.len() && prefix_at(bytes@, pos as int, limits_cbor(x))
            && p == pos + limits_cbor(x).len(),
{
    proof {
        lemma_head_len(5, 8);
        assert forall|v: BindingLimitsV1| #[trigger] prefix_at(bytes@, pos as int, limits_cbor(v)) implies {
            let h = cbor_head(5, 8);
            let f0 = uint_field("timeout_ms"@, v.timeout_ms);
            let f1 = uint_field("max_request_bytes"@, v.max_request_bytes);
            let f2 = uint_field("max_response_bytes"@, v.max_response_bytes);
            let f3 = uint_field("max_metadata_bytes"@, v.max_metadata_bytes);
            let f4 = uint_field("max_cbor_depth"@, v.max_cbor_depth as u64);
            let f5 = uint_field("max_schema_nodes"@, v.max_schema_nodes as u64);
            let f6 = uint_field("max_concurrency"@, v.max_concurrency as u64);
            let f7 = uint_field("max_dispatch_depth"@, v.max_dispatch_depth as u64);
            &&& prefix_at(bytes@, pos as int, h)
            &&& prefix_at(bytes@, pos + h.len(), f0)
            &&& prefix_at(bytes@, pos + h.len() + f0.len(), f1)
            &&& prefix_at(bytes@, pos + h.len() + f0.len() + f1.len(), f2)
            &&& prefix_at(bytes@, pos + h.len() + f0.len() + f1.len() + f2.len(), f3)
            &&& prefix_at(bytes@, pos + h.len() + f0.len() + f1.len() + f2.len() + f3.len(), f4)
            &&& prefix_at(bytes@, pos + h.len() + f0.len() + f1.len() + f2.len() + f3.len() + f4.len(), f5)
            &&& prefix_at(bytes@, pos + h.len() + f0.len() + f1.len() + f2.len() + f3.len() + f4.len() + f5.len(), f6)
            &&& prefix_at(bytes@, pos + h.len() + f0.len() + f1.len() + f2.len() + f3.len() + f4.len() + f5.len() + f6.len(), f7)
        } by {
            let h = cbor_head(5, 8);
            let f0 = uint_field("timeout_ms"@, v.timeout_ms);
            let f1 = uint_field("max_request_bytes"@, v.max_request_bytes);
            let f2 = uint_field("max_response_bytes"@, v.max_response_bytes);
            let f3 = uint_field("max_metadata_bytes"@, v.max_metadata_bytes);
            let f4 = uint_field("max_cbor_depth"@, v.max_cbor_depth as u64);
            let f5 = uint_field("max_schema_nodes"@, v.max_schema_nodes as u64);
            let f6 = uint_field("max_concurrency"@, v.max_concurrency as u64);
            let f7 = uint_field("max_dispatch_depth"@, v.max_dispatch_depth as u64);
            lemma_prefix_split(bytes@, pos as int, h + f0 + f1 + f2 + f3 + f4 + f5 + f6, f7);
            lemma_prefix_split(bytes@, pos as int, h + f0 + f1 + f2 + f3 + f4 + f5, f6);
            lemma_prefix_split(bytes@, pos as int, h + f0 + f1 + f2 + f3 + f4, f5);
            lemma_prefix_split(bytes@, pos as int, h + f0 + f1 + f2 + f3, f4);
            lemma_prefix_split(bytes@, pos as int, h + f0 + f1 + f2, f3);
            lemma_prefix_split(bytes@, pos as int, h + f0 + f1, f2);
            lemma_prefix_split(bytes@, pos as int, h + f0, f1);
            lemma_prefix_split(bytes@, pos as int, h, f0);
        }
    }
    let p = match read_head(bytes, pos) {
        Some((5, 8, p)) => p,
        _ => {
            return None;
        },
    };
    let (timeout_ms, p) = match read_uint_field(bytes, p, "timeout_ms") {
        Some(r) => r,
        None => {
            return None;
        },
    };
    let (max_request_bytes, p) = match read_uint_field(bytes, p, "max_request_bytes") {
        Some(r) => r,
        None => {
            return None;
        },
    };
    let (max_response_bytes, p) = match read_uint_field(bytes, p, "max_response_bytes") {
        Some(r) => r,
        None => {
            return None;
        },
    };
    let (max_metadata_bytes, p) = match read_uint_field(bytes, p, "max_metadata_bytes") {
        Some(r) => r,
        None => {
            return None;
        },
    };
    let (max_cbor_depth, p) = match read_u32_field(bytes, p, "max_cbor_depth") {
        Some(r) => r,
        None => {
            return None;
        },
    };
    let (max_schema_nodes, p) = match read_u32_field(bytes, p, "max_schema_nodes") {
        Some(r) => r,
        None => {
            return None;
        },
    };
    let (max_concurrency, p) = match read_u32_field(bytes, p, "max_concurrency") {
        Some(r) => r,
        None => {
            return None;
        },
    };
    let (max_dispatch_depth, p) = match read_u32_field(bytes, p, "max_dispatch_depth") {
        Some(r) => r,
        None => {
            return None;
        },
    };
    let x = BindingLimitsV1 {
        timeout_ms,
        max_request_bytes,
        max_response_bytes,
        max_metadata_bytes,
        max_cbor_depth,
        max_schema_nodes,
        max_concurrency,
        max_dispatch_depth,
    };
    proof {
        let h = cbor_head(5, 8);
        let f0 = uint_field("timeout_ms"@, x.timeout_ms);
        let f1 = uint_field("max_request_bytes"@, x.max_request_bytes);
        let f2 = uint_field("max_response_bytes"@, x.max_response_bytes);
        let f3 = uint_field("max_metadata_bytes"@, x.max_metadata_bytes);
        let f4 = uint_field("max_cbor_depth"@, x.max_cbor_depth as u64);
        let f5 = uint_field("max_schema_nodes"@, x.max_schema_nodes as u64);
        let f6 = uint_field("max_concurrency"@, x.max_concurrency as u64);
        let f7 = uint_field("max_dispatch_depth"@, x.max_dispatch_depth as u64);
        lemma_prefix_split(bytes@, pos as int, h, f0);
        lemma_prefix_split(bytes@, pos as int, h + f0, f1);
        lemma_prefix_split(bytes@, pos as int, h + f0 + f1, f2);
        lemma_prefix_split(bytes@, pos as int, h + f0 + f1 + f2, f3);
        lemma_prefix_split(bytes@, pos as int, h + f0 + f1 + f2 + f3, f4);
        lemma_prefix_split(bytes@, pos as int, h + f0 + f1 + f2 + f3 + f4, f5);
        lemma_prefix_split(bytes@, pos as int, h + f0 + f1 + f2 + f3 + f4 + f5, f6);
        lemma_prefix_split(bytes@, pos as int, h + f0 + f1 + f2 + f3 + f4 + f5 + f6, f7);
    }
    Some((
        BindingLimitsV1 {
            timeout_ms,
            max_request_bytes,
            max_response_bytes,
            max_metadata_bytes,
            max_cbor_depth,
            max_schema_nodes,
            max_concurrency,
            max_dispatch_depth,
        },
        p,
    ))
}

/// How deep arrays and objects may nest in an operation schema: the 128 levels that
/// `serde_cbor` reads, less the three that the binding, its operation map and an
/// operation take.
pub const MAX_SCHEMA_NESTING: u32 = 125;

/// `bytes` is the encoding of `b`, whose operation names are sorted and whose schemas
/// are readable at nesting `MAX_SCHEMA_NESTING`.
pub open spec fn binding_at(bytes: Seq<u8>, b: ExecutableBindingV1) -> bool {
    &&& model_sorted(b.operations.model())
    &&& readable_schemas(b.operations.model())
    &&& binding_cbor(b) == Some(bytes)
}

/// Every schema of `ops` is readable: its numbers are integers from `i64::MIN` to
/// `u64::MAX` or floats that `serde_cbor` writes and reads back as the same text, its
/// objects are sorted by key, and it nests at most `MAX_SCHEMA_NESTING` deep.
pub open spec fn readable_schemas(ops: Seq<(Seq<char>, (Seq<char>, JsonModel, JsonModel))>) -> bool {
    forall|i: int| 0 <= i < ops.len() ==> readable((#[trigger] ops[i]).1.1, MAX_SCHEMA_NESTING as nat)
        && readable(ops[i].1.2, MAX_SCHEMA_NESTING as nat)
}

/// The parts of the encoding of `b`, each where it stands.
proof fn lemma_binding_pieces(bytes: Seq<u8>, b: ExecutableBindingV1)
    requires
        binding_at(bytes, b),
    ensures
        ({
            let n = (12 + optional_fields(b)) as u64;
            let h = cbor_head(5, n);
            let ops = operations_cbor(b.operations.model()).unwrap();
            let o = (h.len() + ids_cbor(b).len() + refs_cbor(b).len()) as int;
            let t = o + cbor_text("operations"@).len() + ops.len() + scope_policy_limits_cbor(b).len();
            &&& h.len() == head_len(n)
            &&& operations_cbor(b.operations.model()) is Some
            &&& prefix_at(bytes, 0, h)
            &&& prefix_at(bytes, h.len() as int, ids_cbor(b))
            &&& prefix_at(bytes, (h.len() + ids_cbor(b).len()) as int, refs_cbor(b))
            &&& prefix_at(bytes, o, cbor_text("operations"@))
            &&& operations_at(bytes, o + cbor_text("operations"@).len(), b.operations.model(), MAX_SCHEMA_NESTING as nat)
            &&& prefix_at(bytes, o + cbor_text("operations"@).len() + ops.len(), scope_policy_limits_cbor(b))
            &&& prefix_at(bytes, t, trailer_cbor(b))
            &&& t + trailer_cbor(b).len() == bytes.len()
        }),
{
    reveal(binding_cbor);
    let n = (12 + optional_fields(b)) as u64;
    let h = cbor_head(5, n);
    let ops = operations_cbor(b.operations.model()).unwrap();
    let i = ids_cbor(b);
    let r = refs_cbor(b);
    let k = cbor_text("operations"@);
    let spl = scope_policy_limits_cbor(b);
    let t = trailer_cbor(b);
    lemma_head_len(5, n);
    assert(bytes == h + i + r + k + ops + spl + t);
    assert(prefix_at(bytes, 0, bytes)) by {
        assert(bytes.subrange(0, bytes.len() as int) =~= bytes);
    }
    lemma_prefix_split(bytes, 0int, h + i + r + k + ops + spl, t);
    lemma_prefix_split(bytes, 0int, h + i + r + k + ops, spl);
    lemma_prefix_split(bytes, 0int, h + i + r + k, ops);
    lemma_prefix_split(bytes, 0int, h + i + r, k);
    lemma_prefix_split(bytes, 0int, h + i, r);
    lemma_prefix_split(bytes, 0int, h, i);
}

/// Reads the scope, policy and limits fields, each with its name.
#[verifier::rlimit(80)]
#[verifier::spinoff_prover]
fn read_scope_policy_limits(bytes: &[u8], pos: usize) -> (res: Option<(BindingScopeV1, BindingPolicyV1, BindingLimitsV1, usize)>)
    ensures
        forall|b: ExecutableBindingV1| #[trigger] prefix_at(bytes@, pos as int, scope_policy_limits_cbor(b))
            ==> (res matches Some((sc, po, li, p)) && same_scope(sc, b.scope) && same_policy(po, b.policy) && li == b.limits
                && p == pos + scope_policy_limits_cbor(b).len()),
        res matches Some((sc, po, li, p)) ==> pos < p <= bytes.len() && ({
            let e = cbor_text("scope"@) + scope_cbor(sc) + cbor_text("policy"@) + policy_cbor(po) + cbor_text("limits"@)
                + limits_cbor(li);
            prefix_at(bytes@, pos as int, e) && p == pos + e.len()
        }),
{
    proof {
        assert forall|b: ExecutableBindingV1| #[trigger] prefix_at(bytes@, pos as int, scope_policy_limits_cbor(b)) implies {
            let k1 = cbor_text("scope"@);
            let s1 = scope_cbor(b.scope);
            let k2 = cbor_text("policy"@);
            let s2 = policy_cbor(b.policy);
            let k3 = cbor_text("limits"@);
            let s3 = limits_cbor(b.limits);
            &&& prefix_at(bytes@, pos as int, k1)
            &&& prefix_at(bytes@, pos + k1.len(), s1)
            &&& prefix_at(bytes@, pos + k1.len() + s1.len(), k2)
            &&& prefix_at(bytes@, pos + k1.len() + s1.len() + k2.len(), s2)
            &&& prefix_at(bytes@, pos + k1.len() + s1.len() + k2.len() + s2.len(), k3)
            &&& prefix_at(bytes@, pos + k1.len() + s1.len() + k2.len() + s2.len() + k3.len(), s3)
        } by {
            let k1 = cbor_text("scope"@);
            let s1 = scope_cbor(b.scope);
            let k2 = cbor_text("policy"@);
            let s2 = policy_cbor(b.policy);
            let k3 = cbor_text("limits"@);
            let s3 = limits_cbor(b.limits);
            lemma_prefix_split(bytes@, pos as int, k1 + s1 + k2 + s2 + k3, s3);
            lemma_prefix_split(bytes@, pos as int, k1 + s1 + k2 + s2, k3);
            lemma_prefix_split(bytes@, pos as int, k1 + s1 + k2, s2);
            lemma_prefix_split(bytes@, pos as int, k1 + s1, k2);
            lemma_prefix_split(bytes@, pos as int, k1, s1);
        }
    }
    let p = match expect_key(bytes, pos, "scope") { Some(p) => p, None => { return None; } };
    let (scope, p) = match read_scope(bytes, p) { Some(r) => r, None => { return None; } };
    let p = match expect_key(bytes, p, "policy") { Some(p) => p, None => { return None; } };
    let (policy, p) = match read_policy(bytes, p) { Some(r) => r, None => { return None; } };
    let p = match expect_key(bytes, p, "limits") { Some(p) => p, None => { return None; } };
    let (limits, p) = match read_limits(bytes, p) { Some(r) => r, None => { return None; } };
    proof {
        let k1 = cbor_text("scope"@);
        let s1 = scope_cbor(scope);
        let k2 = cbor_text("policy"@);
        let s2 = policy_cbor(policy);
        let k3 = cbor_text("limits"@);
        let s3 = limits_cbor(limits);
        lemma_prefix_split(bytes@, pos as int, k1, s1);
        lemma_prefix_split(bytes@, pos as int, k1 + s1, k2);
        lemma_prefix_split(bytes@, pos as int, k1 + s1 + k2, s2);
        lemma_prefix_split(bytes@, pos as int, k1 + s1 + k2 + s2, k3);
        lemma_prefix_split(bytes@, pos as int, k1 + s1 + k2 + s2 + k3, s3);
    }
    Some((scope, policy, limits, p))
}

/// Reads the schema version, identifier, digest and capability fields.
#[verifier::rlimit(80)]
#[verifier::spinoff_prover]
fn read_ids(bytes: &[u8], pos: usize) -> (res: Option<(u32, String, String, String, usize)>)
    ensures
        forall|b: ExecutableBindingV1| #[trigger] prefix_at(bytes@, pos as int, ids_cbor(b)) ==> (res matches Some((v, id, dg, cap, p))
            && v == b.schema_version && id@ == b.binding_id@ && dg@ == b.binding_digest@ && cap@ == b.capability@
            && p == pos + ids_cbor(b).len()),
        res matches Some((v, id, dg, cap, p)) ==> pos < p <= bytes.len()
            && prefix_at(bytes@, pos as int, ids_fields_cbor(v, id@, dg@, cap@))
            && p == pos + ids_fields_cbor(v, id@, dg@, cap@).len(),
{
    proof {
        assert forall|b: ExecutableBindingV1| #[trigger] prefix_at(bytes@, pos as int, ids_cbor(b)) implies {
            let a0 = cbor_text("schema_version"@);
            let a1 = cbor_uint(b.schema_version as u64);
            let a2 = cbor_text("binding_id"@);
            let a3 = cbor_text(b.binding_id@);
            let a4 = cbor_text("binding_digest"@);
            let a5 = cbor_text(b.binding_digest@);
            let a6 = cbor_text("capability"@);
            let a7 = cbor_text(b.capability@);
            &&& prefix_at(bytes@, pos as int, a0)
            &&& prefix_at(bytes@, pos + a0.len(), a1)
            &&& prefix_at(bytes@, pos + a0.len() + a1.len(), a2)
            &&& prefix_at(bytes@, pos + a0.len() + a1.len() + a2.len(), a3)
            &&& prefix_at(bytes@, pos + a0.len() + a1.len() + a2.len() + a3.len(), a4)
            &&& prefix_at(bytes@, pos + a0.len() + a1.len() + a2.len() + a3.len() + a4.len(), a5)
            &&& prefix_at(bytes@, pos + a0.len() + a1.len() + a2.len() + a3.len() + a4.len() + a5.len(), a6)
            &&& prefix_at(bytes@, pos + a0.len() + a1.len() + a2.len() + a3.len() + a4.len() + a5.len() + a6.len(), a7)
        } by {
            let a0 = cbor_text("schema_version"@);
            let a1 = cbor_uint(b.schema_version as u64);
            let a2 = cbor_text("binding_id"@);
            let a3 = cbor_text(b.binding_id@);
            let a4 = cbor_text("binding_digest"@);
            let a5 = cbor_text(b.binding_digest@);
            let a6 = cbor_text("capability"@);
            let a7 = cbor_text(b.capability@);
            lemma_prefix_split(bytes@, pos as int, a0 + a1 + a2 + a3 + a4 + a5 + a6, a7);
            lemma_prefix_split(bytes@, pos as int, a0 + a1 + a2 + a3 + a4 + a5, a6);
            lemma_prefix_split(bytes@, pos as int, a0 + a1 + a2 + a3 + a4, a5);
            lemma_prefix_split(bytes@, pos as int, a0 + a1 + a2 + a3, a4);
            lemma_prefix_split(bytes@, pos as int, a0 + a1 + a2, a3);
            lemma_prefix_split(bytes@, pos as int, a0 + a1, a2);
            lemma_prefix_split(bytes@, pos as int, a0, a1);
        }
    }
    let p = match expect_key(bytes, pos, "schema_version") {
        Some(p) => p,
        None => {
            return None;
        },
    };
    let (v, p) = match read_uint(bytes, p) {
        Some(r) => r,
        None => {
            return None;
        },
    };
    if v > 0xffff_ffff {
        return None;
    }
    let p = match expect_key(bytes, p, "binding_id") {
        Some(p) => p,
        None => {
            return None;
        },
    };
    let (id, p) = match read_text(bytes, p) {
        Some(r) => r,
        None => {
            return None;
        },
    };
    let p = match expect_key(bytes, p, "binding_digest") {
        Some(p) => p,
        None => {
            return None;
        },
    };
    let (dg, p) = match read_text(bytes, p) {
        Some(r) => r,
        None => {
            return None;
        },
    };
    let p = match expect_key(bytes, p, "capability") {
        Some(p) => p,
        None => {
            return None;
        },
    };
    let (cap, p) = match read_text(bytes, p) {
        Some(r) => r,
        None => {
            return None;
        },
    };
    proof {
        assert forall|b: ExecutableBindingV1| #[trigger] prefix_at(bytes@, pos as int, ids_cbor(b)) implies p == pos + ids_cbor(b).len() by {}
        let a0 = cbor_text("schema_version"@);
        let a1 = cbor_uint(v);
        let a2 = cbor_text("binding_id"@);
        let a3 = cbor_text(id@);
        let a4 = cbor_text("binding_digest"@);
        let a5 = cbor_text(dg@);
        let a6 = cbor_text("capability"@);
        let a7 = cbor_text(cap@);
        lemma_prefix_split(bytes@, pos as int, a0, a1);
        lemma_prefix_split(bytes@, pos as int, a0 + a1, a2);
        lemma_prefix_split(bytes@, pos as int, a0 + a1 + a2, a3);
        lemma_prefix_split(bytes@, pos as int, a0 + a1 + a2 + a3, a4);
        lemma_prefix_split(bytes@, pos as int, a0 + a1 + a2 + a3 + a4, a5);
        lemma_prefix_split(bytes@, pos as int, a0 + a1 + a2 + a3 + a4 + a5, a6);
        lemma_prefix_split(bytes@, pos as int, a0 + a1 + a2 + a3 + a4 + a5 + a6, a7);
        assert((v as u32) as u64 == v);
    }
    Some((v as u32, id, dg, cap, p))
}

/// Reads the contract version and the provider reference and digest fields.
#[verifier::rlimit(80)]
#[verifier::spinoff_prover]
fn read_refs(bytes: &[u8], pos: usize) -> (res: Option<(String, String, String, usize)>)
    ensures
        forall|b: ExecutableBindingV1| #[trigger] prefix_at(bytes@, pos as int, refs_cbor(b)) ==> (res matches Some((cv, pr, pd, p))
            && cv@ == b.contract_version@ && pr@ == b.provider_component_ref@ && pd@ == b.provider_digest@
            && p == pos + refs_cbor(b).len()),
        res matches Some((cv, pr, pd, p)) ==> pos < p <= bytes.len()
            && prefix_at(bytes@, pos as int, refs_fields_cbor(cv@, pr@, pd@)) && p == pos + refs_fields_cbor(cv@, pr@, pd@).len(),
{
    proof {
        assert forall|b: ExecutableBindingV1| #[trigger] prefix_at(bytes@, pos as int, refs_cbor(b)) implies {
            let a0 = cbor_text("contract_version"@);
            let a1 = cbor_text(b.contract_version@);
            let a2 = cbor_text("provider_component_ref"@);
            let a3 = cbor_text(b.provider_component_ref@);
            let a4 = cbor_text("provider_digest"@);
            let a5 = cbor_text(b.provider_digest@);
            &&& prefix_at(bytes@, pos as int, a0)
            &&& prefix_at(bytes@, pos + a0.len(), a1)
            &&& prefix_at(bytes@, pos + a0.len() + a1.len(), a2)
            &&& prefix_at(bytes@, pos + a0.len() + a1.len() + a2.len(), a3)
            &&& prefix_at(bytes@, pos + a0.len() + a1.len() + a2.len() + a3.len(), a4)
            &&& prefix_at(bytes@, pos + a0.len() + a1.len() + a2.len() + a3.len() + a4.len(), a5)
        } by {
            let a0 = cbor_text("contract_version"@);
            let a1 = cbor_text(b.contract_version@);
            let a2 = cbor_text("provider_component_ref"@);
            let a3 = cbor_text(b.provider_component_ref@);
            let a4 = cbor_text("provider_digest"@);
            let a5 = cbor_text(b.provider_digest@);
            lemma_prefix_split(bytes@, pos as int, a0 + a1 + a2 + a3 + a4, a5);
            lemma_prefix_split(bytes@, pos as int, a0 + a1 + a2 + a3, a4);
            lemma_prefix_split(bytes@, pos as int, a0 + a1 + a2, a3);
            lemma_prefix_split(bytes@, pos as int, a0 + a1, a2);
            lemma_prefix_split(bytes@, pos as int, a0, a1);
        }
    }
    let p = match expect_key(bytes, pos, "contract_version") {
        Some(p) => p,
        None => {
            return None;
        },
    };
    let (cv, p) = match read_text(bytes, p) {
        Some(r) => r,
        None => {
            return None;
        },
    };
    let p = match expect_key(bytes, p, "provider_component_ref") {
        Some(p) => p,
        None => {
            return None;
        },
    };
    let (pr, p) = match read_text(bytes, p) {
        Some(r) => r,
        None => {
            return None;
        },
    };
    let p = match expect_key(bytes, p, "provider_digest") {
        Some(p) => p,
        None => {
            return None;
        },
    };
    let (pd, p) = match read_text(bytes, p) {
        Some(r) => r,
        None => {
            return None;
        },
    };
    proof {
        let a0 = cbor_text("contract_version"@);
        let a1 = cbor_text(cv@);
        let a2 = cbor_text("provider_component_ref"@);
        let a3 = cbor_text(pr@);
        let a4 = cbor_text("provider_digest"@);
        let a5 = cbor_text(pd@);
        lemma_prefix_split(bytes@, pos as int, a0, a1);
        lemma_prefix_split(bytes@, pos as int, a0 + a1, a2);
        lemma_prefix_split(bytes@, pos as int, a0 + a1 + a2, a3);
        lemma_prefix_split(bytes@, pos as int, a0 + a1 + a2 + a3, a4);
        lemma_prefix_split(bytes@, pos as int, a0 + a1 + a2 + a3 + a4, a5);
    }
    Some((cv, pr, pd, p))
}

/// The optional fields of `b` and its resolution identifier stand at `pos` and end `bytes`.
pub open spec fn trailer_at(bytes: Seq<u8>, pos: int, b: ExecutableBindingV1) -> bool {
    prefix_at(bytes, pos, trailer_cbor(b)) && pos + trailer_cbor(b).len() == bytes.len()
}

/// How many of the optional fields of `b` are present.
pub open spec fn optional_fields(b: ExecutableBindingV1) -> int {
    (if b.expires_at_unix_ms is Some { 1int } else { 0int }) + (if b.revocation_id is Some { 1int } else { 0int })
}

/// Reads `rest` optional fields (expiry, then revocation), then the resolution
/// identifier, which must end `bytes`.
#[verifier::rlimit(80)]
#[verifier::spinoff_prover]
fn read_trailer(bytes: &[u8], pos: usize, count: u64) -> (res: Option<(Option<u64>, Option<String>, String)>)
    ensures
        forall|b: ExecutableBindingV1| #[trigger] trailer_at(bytes@, pos as int, b) && count == optional_fields(b)
            ==> (res matches Some((e, r, id)) && e == b.expires_at_unix_ms && opt_text(r) == opt_text(b.revocation_id)
                && id@ == b.resolution_id@),
        res matches Some((e, r, id)) ==> prefix_at(bytes@, pos as int, trailer_fields_cbor(e, r, id@))
            && pos + trailer_fields_cbor(e, r, id@).len() == bytes.len()
            && count == (if e is Some { 1int } else { 0int }) + (if r is Some { 1int } else { 0int }),
{
    proof {
        reveal_strlit("expires_at_unix_ms");
        reveal_strlit("revocation_id");
        assert forall|b: ExecutableBindingV1| #[trigger] trailer_at(bytes@, pos as int, b) implies {
            let x = expires_cbor(b.expires_at_unix_ms);
            let r = optional_text_field("revocation_id"@, b.revocation_id);
            &&& prefix_at(bytes@, pos + x.len() + r.len(), cbor_text("resolution_id"@))
            &&& prefix_at(bytes@, pos + x.len() + r.len() + cbor_text("resolution_id"@).len(), cbor_text(b.resolution_id@))
            &&& pos + x.len() + r.len() + cbor_text("resolution_id"@).len() + cbor_text(b.resolution_id@).len() == bytes@.len()
            &&& b.expires_at_unix_ms matches Some(t) ==> prefix_at(bytes@, pos as int, cbor_text("expires_at_unix_ms"@))
                && prefix_at(bytes@, pos + cbor_text("expires_at_unix_ms"@).len(), cbor_uint(t))
            &&& b.revocation_id matches Some(r) ==> prefix_at(bytes@, pos + x.len(), cbor_text("revocation_id"@))
                && prefix_at(bytes@, pos + x.len() + cbor_text("revocation_id"@).len(), cbor_text(r@))
        } by {
            let x = expires_cbor(b.expires_at_unix_ms);
            let r = optional_text_field("revocation_id"@, b.revocation_id);
            let k = cbor_text("resolution_id"@);
            let v = cbor_text(b.resolution_id@);
            lemma_prefix_split(bytes@, pos as int, x + r + k, v);
            lemma_prefix_split(bytes@, pos as int, x + r, k);
            lemma_prefix_split(bytes@, pos as int, x, r);
            if let Some(t) = b.expires_at_unix_ms {
                lemma_prefix_split(bytes@, pos as int, cbor_text("expires_at_unix_ms"@), cbor_uint(t));
            }
            if let Some(r) = b.revocation_id {
                let x = expires_cbor(b.expires_at_unix_ms);
                lemma_prefix_split(bytes@, pos + x.len(), cbor_text("revocation_id"@), cbor_text(r@));
            }
        }
    }
    let mut rest = count;
    let mut p = pos;
    let mut expires_at_unix_ms: Option<u64> = None;
    let mut revocation_id: Option<String> = None;
    if rest > 2 || pos > bytes.len() {
        return None;
    }
    if rest > 0 {
        let (k, q) = match read_text(bytes, p) {
            Some(r) => r,
            None => {
                return None;
            },
        };
        if key_is(&k, "expires_at_unix_ms") {
            let (t, q) = match read_uint(bytes, q) {
                Some(r) => r,
                None => {
                    return None;
                },
            };
            proof {
                lemma_prefix_split(bytes@, pos as int, cbor_text(k@), cbor_uint(t));
            }
            expires_at_unix_ms = Some(t);
            p = q;
            rest = rest - 1;
            if rest > 0 {
                let q = match expect_key(bytes, p, "revocation_id") {
                    Some(q) => q,
                    None => {
                        return None;
                    },
                };
                let (r, q) = match read_text(bytes, q) {
                    Some(r) => r,
                    None => {
                        return None;
                    },
                };
                proof {
                    lemma_prefix_split(bytes@, p as int, cbor_text("revocation_id"@), cbor_text(r@));
                    lemma_prefix_split(bytes@, pos as int, expires_cbor(expires_at_unix_ms), cbor_text("revocation_id"@) + cbor_text(r@));
                }
                revocation_id = Some(r);
                p = q;
                rest = rest - 1;
            }
            proof {
                if revocation_id is None {
                    assert(expires_cbor(expires_at_unix_ms) + optional_text_field("revocation_id"@, revocation_id)
                        =~= expires_cbor(expires_at_unix_ms));
                }
            }
        } else if key_is(&k, "revocation_id") && rest == 1 {
            let (r, q) = match read_text(bytes, q) {
                Some(r) => r,
                None => {
                    return None;
                },
            };
            proof {
                lemma_prefix_split(bytes@, pos as int, cbor_text(k@), cbor_text(r@));
            }
            revocation_id = Some(r);
            p = q;
            rest = 0;
            proof {
                assert(expires_cbor(expires_at_unix_ms) + optional_text_field("revocation_id"@, revocation_id)
                    =~= optional_text_field("revocation_id"@, revocation_id));
            }
        } else {
            return None;
        }
    }
    let ghost opt_end = p;
    proof {
        let o = expires_cbor(expires_at_unix_ms) + optional_text_field("revocation_id"@, revocation_id);
        if expires_at_unix_ms is None && revocation_id is None {
            assert(o =~= Seq::<u8>::empty());
            assert(bytes@.subrange(pos as int, pos as int) =~= o);
        }
        assert(prefix_at(bytes@, pos as int, o) && p == pos + o.len());
    }
    let p = match expect_key(bytes, p, "resolution_id") {
        Some(p) => p,
        None => {
            return None;
        },
    };
    let (id, p) = match read_text(bytes, p) {
        Some(r) => r,
        None => {
            return None;
        },
    };
    if p != bytes.len() {
        return None;
    }
    proof {
        let o = expires_cbor(expires_at_unix_ms) + optional_text_field("revocation_id"@, revocation_id);
        lemma_prefix_split(bytes@, pos as int, o, cbor_text("resolution_id"@));
        lemma_prefix_split(bytes@, pos as int, o + cbor_text("resolution_id"@), cbor_text(id@));
    }
    Some((expires_at_unix_ms, revocation_id, id))
}

/// Reads an executable binding from the whole of `bytes`: the fields in the order and
/// the form that `encode_binding` writes them, and nothing after them.
#[verifier::rlimit(100)]
#[verifier::spinoff_prover]
pub fn read_binding(bytes: &[u8]) -> (res: Option<ExecutableBindingV1>)
    ensures
        forall|b: ExecutableBindingV1| #[trigger] binding_at(bytes@, b) ==> (res matches Some(d) && same_binding(d, b)),
        res matches Some(d) ==> model_sorted(d.operations.model()) && schemas_sorted(d.operations.model())
            && binding_cbor(d) == Some(bytes@),
{
    proof {
        assert forall|b: ExecutableBindingV1| #[trigger] binding_at(bytes@, b) implies {
            let n = (12 + optional_fields(b)) as u64;
            let h = cbor_head(5, n);
            let ops = operations_cbor(b.operations.model()).unwrap();
            let o = (h.len() + ids_cbor(b).len() + refs_cbor(b).len()) as int;
            let t = o + cbor_text("operations"@).len() + ops.len() + scope_policy_limits_cbor(b).len();
            &&& h.len() == head_len(n)
            &&& operations_cbor(b.operations.model()) is Some
            &&& prefix_at(bytes@, 0, h)
            &&& prefix_at(bytes@, h.len() as int, ids_cbor(b))
            &&& prefix_at(bytes@, (h.len() + ids_cbor(b).len()) as int, refs_cbor(b))
            &&& prefix_at(bytes@, o, cbor_text("operations"@))
            &&& operations_at(bytes@, o + cbor_text("operations"@).len(), b.operations.model(), MAX_SCHEMA_NESTING as nat)
            &&& prefix_at(bytes@, o + cbor_text("operations"@).len() + ops.len(), scope_policy_limits_cbor(b))
            &&& trailer_at(bytes@, t, b)
        } by {
            lemma_binding_pieces(bytes@, b);
        }
    }
    let (n, p0) = match read_head(bytes, 0) {
        Some((5, n, p)) => (n, p),
        _ => {
            return None;
        },
    };
    if n < 12 {
        return None;
    }
    let (schema_version, binding_id, binding_digest, capability, p1) = match read_ids(bytes, p0) {
        Some(r) => r,
        None => {
            return None;
        },
    };
    let (contract_version, provider_component_ref, provider_digest, p2) = match read_refs(bytes, p1) {
        Some(r) => r,
        None => {
            return None;
        },
    };
    let p3 = match expect_key(bytes, p2, "operations") {
        Some(p) => p,
        None => {
            return None;
        },
    };
    let (operations, p4) = match read_operations(bytes, p3, MAX_SCHEMA_NESTING) {
        Some(r) => r,
        None => {
            return None;
        },
    };
    let (scope, policy, limits, p5) = match read_scope_policy_limits(bytes, p4) {
        Some(r) => r,
        None => {
            return None;
        },
    };
    let (expires_at_unix_ms, revocation_id, resolution_id) = match read_trailer(bytes, p5, n - 12) {
        Some(r) => r,
        None => {
            return None;
        },
    };
    let d = ExecutableBindingV1 {
        schema_version,
        binding_id: BindingId::from_raw(binding_id),
        binding_digest,
        capability: CapabilityId(capability),
        contract_version,
        provider_component_ref,
        provider_digest,
        operations,
        scope,
        policy,
        limits,
        expires_at_unix_ms,
        revocation_id,
        resolution_id,
    };
    proof {
        lemma_head_len(5, n);
        lemma_binding_framed(bytes@, d, cbor_head(5, n));
    }
    Some(d)
}

/// The parts of `d`'s encoding, standing one after the other from the start of `bytes`
/// to its end, are its whole encoding.
proof fn lemma_binding_framed(bytes: Seq<u8>, d: ExecutableBindingV1, h: Seq<u8>)
    requires
        h == cbor_head(5, (12 + optional_fields(d)) as u64),
        operations_cbor(d.operations.model()) is Some,
        ({
            let i = ids_cbor(d);
            let r = refs_cbor(d);
            let k = cbor_text("operations"@);
            let ops = operations_cbor(d.operations.model()).unwrap();
            let spl = scope_policy_limits_cbor(d);
            &&& prefix_at(bytes, 0, h)
            &&& prefix_at(bytes, h.len() as int, i)
            &&& prefix_at(bytes, 0int + h.len() + i.len(), r)
            &&& prefix_at(bytes, 0int + h.len() + i.len() + r.len(), k)
            &&& prefix_at(bytes, 0int + h.len() + i.len() + r.len() + k.len(), ops)
            &&& prefix_at(bytes, 0int + h.len() + i.len() + r.len() + k.len() + ops.len(), spl)
            &&& prefix_at(bytes, 0int + h.len() + i.len() + r.len() + k.len() + ops.len() + spl.len(), trailer_cbor(d))
            &&& h.len() + i.len() + r.len() + k.len() + ops.len() + spl.len() + trailer_cbor(d).len() == bytes.len()
        }),
    ensures
        binding_cbor(d) == Some(bytes),
{
    reveal(binding_cbor);
    let i = ids_cbor(d);
    let r = refs_cbor(d);
    let k = cbor_text("operations"@);
    let ops = operations_cbor(d.operations.model()).unwrap();
    let spl = scope_policy_limits_cbor(d);
    let t = trailer_cbor(d);
    lemma_prefix_split(bytes, 0, h, i);
    lemma_prefix_split(bytes, 0, h + i, r);
    lemma_prefix_split(bytes, 0, h + i + r, k);
    lemma_prefix_split(bytes, 0, h + i + r + k, ops);
    lemma_prefix_split(bytes, 0, h + i + r + k + ops, spl);
    lemma_prefix_split(bytes, 0, h + i + r + k + ops + spl, t);
    assert(bytes =~= bytes.subrange(0, bytes.len() as int));
}

} // verus!
