//! SHA-256 digests of binding material, written as `sha256:` and lower-case hex.
use vstd::prelude::*;
use crate::text::is_lower_hex;
use sha2::Digest;

verus! {

/// What `sha2::Sha256::digest` returns for `data`.
pub uninterp spec fn sha256(data: Seq<u8>) -> Seq<u8>;

/// Calls `sha2::Sha256::digest`. Trusted to return `sha256(data)`, which is 32 bytes
/// long (SHA-256's output size).
#[verifier::external_body]
pub fn sha256_digest(data: &[u8]) -> (res: Vec<u8>)
    ensures
        res@ == sha256(data@),
        res@.len() == 32,
{
    sha2::Sha256::digest(data).to_vec()
}

/// The lower-case hexadecimal digit for `n` (0 to 15).
pub open spec fn hex_digit(n: u8) -> char {
    if n < 10 { (('0' as u32) + (n as u32)) as char } else { (('a' as u32) + (n as u32) - 10) as char }
}

/// `bytes` in lower-case hexadecimal, two digits per byte, high nibble first.
pub open spec fn hex_lower(bytes: Seq<u8>) -> Seq<char>
    decreases bytes.len(),
{
    if bytes.len() == 0 {
        Seq::empty()
    } else {
        hex_lower(bytes.drop_last()) + seq![hex_digit(bytes.last() / 16), hex_digit(bytes.last() % 16)]
    }
}

/// The characters every digest starts with.
pub open spec fn sha256_prefix() -> Seq<char> {
    seq!['s', 'h', 'a', '2', '5', '6', ':']
}

/// The digest text of `material`: `sha256:` and the hex of its SHA-256.
pub open spec fn digest_text(material: Seq<u8>) -> Seq<char> {
    sha256_prefix() + hex_lower(sha256(material))
}

/// Hex text is twice as long as its bytes and made of lower-case hex digits.
pub proof fn lemma_hex_lower(bytes: Seq<u8>)
    ensures
        hex_lower(bytes).len() == 2 * bytes.len(),
        forall|i: int| 0 <= i < hex_lower(bytes).len() ==> is_lower_hex(#[trigger] hex_lower(bytes)[i]),
    decreases bytes.len(),
{
    if bytes.len() > 0 {
        lemma_hex_lower(bytes.drop_last());
        let b = bytes.last();
        assert(b / 16 < 16 && b % 16 < 16);
    }
}

/// The digit for the nibble `n`.
fn hex_char(n: u8) -> (c: char)
    requires
        n < 16,
    ensures
        c == hex_digit(n),
{
    if n < 10 { (48u8 + n) as char } else { (97u8 + n - 10) as char }
}

/// The digest text of `material`.
pub fn digest_chars(material: &[u8]) -> (res: Vec<char>)
    ensures
        res@ == digest_text(material@),
        res@.len() == 71,
{
    let hash = sha256_digest(material);
    let mut res: Vec<char> = vec!['s', 'h', 'a', '2', '5', '6', ':'];
    let mut i: usize = 0;
    while i < hash.len()
        invariant
            i <= hash.len(),
            res@ == sha256_prefix() + hex_lower(hash@.take(i as int)),
        decreases hash.len() - i,
    {
        let b = hash[i];
        res.push(hex_char(b / 16));
        res.push(hex_char(b % 16));
        proof {
            assert(hash@.take(i + 1).drop_last() =~= hash@.take(i as int));
        }
        i = i + 1;
    }
    proof {
        assert(hash@.take(hash.len() as int) =~= hash@);
        lemma_hex_lower(hash@);
    }
    res
}

} // verus!
