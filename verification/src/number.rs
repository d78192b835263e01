//! Integers in JSON documents: their decimal text and their CBOR item.
use vstd::prelude::*;
use crate::encode::cbor_head;
use crate::text::push_char;

verus! {

/// The decimal digit `d`.
pub open spec fn digit_char(d: int) -> char {
    if d == 0 { '0' } else if d == 1 { '1' } else if d == 2 { '2' } else if d == 3 { '3' }
    else if d == 4 { '4' } else if d == 5 { '5' } else if d == 6 { '6' } else if d == 7 { '7' }
    else if d == 8 { '8' } else { '9' }
}

/// The decimal text of `n`, without leading zeros.
pub open spec fn decimal(n: nat) -> Seq<char>
    decreases n,
{
    if n < 10 {
        seq![digit_char(n as int)]
    } else {
        decimal(n / 10).push(digit_char((n % 10) as int))
    }
}

/// The text that `serde_json` prints for the integer `i`.
pub open spec fn int_text(i: int) -> Seq<char> {
    if i >= 0 {
        decimal(i as nat)
    } else {
        seq!['-'] + decimal((-i) as nat)
    }
}

/// `i` is held as an integer by `serde_json::Number`: from `i64::MIN` to `u64::MAX`.
pub open spec fn int_range(i: int) -> bool {
    -0x8000_0000_0000_0000 <= i <= u64::MAX
}

/// The CBOR item of the integer `i`: major type 0 for `i >= 0`, major type 1 with
/// argument `-1 - i` below, each head in its shortest form.
pub open spec fn int_cbor(i: int) -> Seq<u8> {
    if i >= 0 {
        cbor_head(0, i as u64)
    } else {
        cbor_head(1, (-1 - i) as u64)
    }
}

/// `t` is the text of an integer that `serde_json::Number` holds as an integer.
pub open spec fn is_int_text(t: Seq<char>) -> bool {
    exists|i: int| int_range(i) && #[trigger] int_text(i) == t
}

/// The integer whose text is `t`, where `is_int_text(t)`.
pub open spec fn text_int(t: Seq<char>) -> int {
    choose|i: int| int_range(i) && #[trigger] int_text(i) == t
}

/// A decimal text is never empty and starts with a digit.
proof fn lemma_decimal_first(n: nat)
    ensures
        decimal(n).len() >= 1,
        decimal(n)[0] != '-',
        n >= 10 ==> decimal(n).len() >= 2,
    decreases n,
{
    if n >= 10 {
        lemma_decimal_first(n / 10);
    }
}

/// Different numbers have different decimal texts.
proof fn lemma_decimal_injective(a: nat, b: nat)
    requires
        decimal(a) == decimal(b),
    ensures
        a == b,
    decreases a,
{
    lemma_decimal_first(a);
    lemma_decimal_first(b);
    if a >= 10 && b >= 10 {
        let da = decimal(a);
        assert(da.last() == digit_char((a % 10) as int));
        assert(decimal(b).last() == digit_char((b % 10) as int));
        assert(da.drop_last() =~= decimal(a / 10));
        assert(decimal(b).drop_last() =~= decimal(b / 10));
        lemma_decimal_injective(a / 10, b / 10);
    }
}

/// Different integers have different texts.
pub proof fn lemma_int_text_injective(i: int, j: int)
    requires
        int_text(i) == int_text(j),
    ensures
        i == j,
{
    if i >= 0 && j >= 0 {
        lemma_decimal_injective(i as nat, j as nat);
    } else if i < 0 && j < 0 {
        assert(int_text(i).subrange(1, int_text(i).len() as int) =~= decimal((-i) as nat));
        assert(int_text(j).subrange(1, int_text(j).len() as int) =~= decimal((-j) as nat));
        lemma_decimal_injective((-i) as nat, (-j) as nat);
    } else if i >= 0 {
        lemma_decimal_first(i as nat);
        assert(int_text(j)[0] == '-');
    } else {
        lemma_decimal_first(j as nat);
        assert(int_text(i)[0] == '-');
    }
}

/// The integer read back from the text of `i` is `i`.
pub proof fn lemma_text_int(i: int)
    requires
        int_range(i),
    ensures
        is_int_text(int_text(i)),
        text_int(int_text(i)) == i,
{
    let t = int_text(i);
    assert(int_range(i) && int_text(i) == t);
    let k = text_int(t);
    lemma_int_text_injective(k, i);
}

/// The digit `d`.
fn digit(d: u64) -> (c: char)
    requires
        d < 10,
    ensures
        c == digit_char(d as int),
{
    if d == 0 { '0' } else if d == 1 { '1' } else if d == 2 { '2' } else if d == 3 { '3' }
    else if d == 4 { '4' } else if d == 5 { '5' } else if d == 6 { '6' } else if d == 7 { '7' }
    else if d == 8 { '8' } else { '9' }
}

/// Appends the decimal text of `n`.
pub fn push_decimal(out: &mut String, n: u64)
    ensures
        final(out)@ == old(out)@ + decimal(n as nat),
    decreases n,
{
    if n >= 10 {
        push_decimal(out, n / 10);
    }
    push_char(out, digit(n % 10));
    proof {
        assert(final(out)@ =~= old(out)@ + decimal(n as nat));
    }
}

/// The text of the integer `n`.
pub fn uint_text(n: u64) -> (res: String)
    ensures
        res@ == int_text(n as int),
{
    let mut res = String::new();
    push_decimal(&mut res, n);
    proof {
        assert(res@ =~= decimal(n as nat));
    }
    res
}

/// The text of the integer `-1 - n`, the value of a CBOR item of major type 1 with argument `n`.
pub fn negative_int_text(n: u64) -> (res: String)
    requires
        n < u64::MAX,
    ensures
        res@ == int_text(-1 - n),
{
    let mut res = String::new();
    push_char(&mut res, '-');
    push_decimal(&mut res, n + 1);
    proof {
        assert(res@ =~= seq!['-'] + decimal((n + 1) as nat));
    }
    res
}

} // verus!
