//! Base58 text: what it means for a text to stand for a byte string, and the
//! encoder that account filters use.
use base58::ToBase58;
use vstd::arithmetic::power::{
    lemma_pow_adds, lemma_pow_increases, lemma_pow_multiplies, lemma_pow_positive, pow,
};
use vstd::prelude::*;

verus! {

/// The digits of base 58 in order: `1` stands for zero, `z` for fifty-seven.
pub open spec fn alphabet() -> Seq<char> {
    "123456789ABCDEFGHJKLMNPQRSTUVWXYZabcdefghijkmnopqrstuvwxyz"@
}

/// Every character of the text is a base58 digit.
pub open spec fn is_base58(text: Seq<char>) -> bool {
    forall|i: int| 0 <= i < text.len() ==> alphabet().contains(#[trigger] text[i])
}

/// The values of the digits of a text, most significant first.
pub open spec fn text_digits(text: Seq<char>) -> Seq<int> {
    text.map_values(|c: char| alphabet().index_of(c))
}

/// The values of the bytes, most significant first.
pub open spec fn byte_digits(bytes: Seq<u8>) -> Seq<int> {
    bytes.map_values(|b: u8| b as int)
}

/// The number that the digits write in a base, most significant first.
pub open spec fn numeral(digits: Seq<int>, base: int) -> int
    decreases digits.len(),
{
    if digits.len() == 0 {
        0
    } else {
        numeral(digits.drop_last(), base) * base + digits.last()
    }
}

/// How many zero digits a digit string starts with.
pub open spec fn leading_zeros(digits: Seq<int>) -> nat
    decreases digits.len(),
{
    if digits.len() == 0 || digits[0] != 0 {
        0
    } else {
        1 + leading_zeros(digits.drop_first())
    }
}

/// `text` is the base58 text of `bytes`: both write the same number, and both
/// start with equally many zero digits.
pub open spec fn base58_encodes(text: Seq<char>, bytes: Seq<u8>) -> bool {
    &&& is_base58(text)
    &&& leading_zeros(text_digits(text)) == leading_zeros(byte_digits(bytes))
    &&& numeral(text_digits(text), 58) == numeral(byte_digits(bytes), 256)
}

/// The base58 text of a byte string.
pub open spec fn base58_text(bytes: Seq<u8>) -> Seq<char> {
    choose|text: Seq<char>| base58_encodes(text, bytes)
}

/// The byte string that a base58 text stands for.
pub open spec fn base58_bytes(text: Seq<char>) -> Seq<u8> {
    choose|bytes: Seq<u8>| base58_encodes(text, bytes)
}

/// Each digit is a digit of the base.
spec fn digits_in_base(digits: Seq<int>, base: int) -> bool {
    forall|i: int| 0 <= i < digits.len() ==> 0 <= #[trigger] digits[i] < base
}

/// Each part of a digit string is a digit string of the same base.
proof fn lemma_part_in_base(digits: Seq<int>, base: int, start: int, end: int)
    requires
        digits_in_base(digits, base),
        0 <= start <= end <= digits.len(),
    ensures
        digits_in_base(digits.subrange(start, end), base),
{
    let part = digits.subrange(start, end);
    assert forall|i: int| 0 <= i < part.len() implies 0 <= #[trigger] part[i] < base by {
        assert(part[i] == digits[start + i]);
    }
}

/// A zero in front of a digit string leaves the number as it is.
proof fn lemma_numeral_drop_zero(digits: Seq<int>, base: int)
    requires
        digits.len() > 0,
        digits[0] == 0,
    ensures
        numeral(digits, base) == numeral(digits.drop_first(), base),
    decreases digits.len(),
{
    if digits.len() == 1 {
        assert(numeral(digits.drop_last(), base) == 0);
        assert(0 * base == 0) by (nonlinear_arith);
    } else {
        lemma_numeral_drop_zero(digits.drop_last(), base);
        assert(digits.drop_last().drop_first() =~= digits.drop_first().drop_last());
        assert(digits.drop_first().last() == digits.last());
    }
}

/// A digit string that starts with a digit other than zero writes a positive number.
proof fn lemma_numeral_positive(digits: Seq<int>, base: int)
    requires
        base > 1,
        digits_in_base(digits, base),
        digits.len() > 0,
        digits[0] != 0,
    ensures
        numeral(digits, base) > 0,
    decreases digits.len(),
{
    let front = digits.drop_last();
    if digits.len() == 1 {
        assert(numeral(front, base) == 0);
        assert(0 * base == 0) by (nonlinear_arith);
    } else {
        lemma_part_in_base(digits, base, 0, digits.len() - 1);
        lemma_numeral_positive(front, base);
        let n = numeral(front, base);
        assert(n * base > 0) by (nonlinear_arith)
            requires
                n > 0,
                base > 1,
        ;
    }
}

/// Digit strings that do not start with zero and write the same number are equal.
proof fn lemma_numeral_unique(a: Seq<int>, b: Seq<int>, base: int)
    requires
        base > 1,
        digits_in_base(a, base),
        digits_in_base(b, base),
        a.len() > 0 ==> a[0] != 0,
        b.len() > 0 ==> b[0] != 0,
        numeral(a, base) == numeral(b, base),
    ensures
        a == b,
    decreases a.len(),
{
    if a.len() == 0 {
        if b.len() > 0 {
            lemma_numeral_positive(b, base);
        }
        assert(a =~= b);
    } else if b.len() == 0 {
        lemma_numeral_positive(a, base);
    } else {
        let (p, q) = (numeral(a.drop_last(), base), numeral(b.drop_last(), base));
        let n = numeral(a, base);
        assert(0 <= a.last() < base && 0 <= b.last() < base);
        vstd::arithmetic::div_mod::lemma_fundamental_div_mod_converse(n, base, p, a.last());
        vstd::arithmetic::div_mod::lemma_fundamental_div_mod_converse(n, base, q, b.last());
        lemma_part_in_base(a, base, 0, a.len() - 1);
        lemma_part_in_base(b, base, 0, b.len() - 1);
        lemma_numeral_unique(a.drop_last(), b.drop_last(), base);
        assert(a =~= a.drop_last().push(a.last()));
        assert(b =~= b.drop_last().push(b.last()));
    }
}

/// Digit strings that write the same number behind equally many zeros are equal.
proof fn lemma_digits_unique(a: Seq<int>, b: Seq<int>, base: int)
    requires
        base > 1,
        digits_in_base(a, base),
        digits_in_base(b, base),
        leading_zeros(a) == leading_zeros(b),
        numeral(a, base) == numeral(b, base),
    ensures
        a == b,
    decreases a.len(),
{
    if leading_zeros(a) == 0 {
        lemma_numeral_unique(a, b, base);
    } else {
        lemma_numeral_drop_zero(a, base);
        lemma_numeral_drop_zero(b, base);
        let (s, t) = (a.drop_first(), b.drop_first());
        lemma_part_in_base(a, base, 1, a.len() as int);
        lemma_part_in_base(b, base, 1, b.len() as int);
        lemma_digits_unique(s, t, base);
        assert(a =~= seq![0int] + s);
        assert(b =~= seq![0int] + t);
    }
}

/// A base58 text stands for one byte string only.
pub proof fn base58_text_fixes_bytes(text: Seq<char>, a: Seq<u8>, b: Seq<u8>)
    requires
        base58_encodes(text, a),
        base58_encodes(text, b),
    ensures
        a == b,
        a == base58_bytes(text),
{
    lemma_one_byte_string(text, a, b);
    lemma_one_byte_string(text, a, base58_bytes(text));
}

proof fn lemma_one_byte_string(text: Seq<char>, a: Seq<u8>, b: Seq<u8>)
    requires
        base58_encodes(text, a),
        base58_encodes(text, b),
    ensures
        a == b,
{
    lemma_digits_unique(byte_digits(a), byte_digits(b), 256);
    assert(a.len() == byte_digits(a).len() && b.len() == byte_digits(b).len());
    assert forall|i: int| 0 <= i < a.len() implies a[i] == b[i] by {
        assert(byte_digits(a)[i] == byte_digits(b)[i]);
    }
    assert(a =~= b);
}

/// A byte string has one base58 text only.
pub proof fn bytes_fix_base58_text(bytes: Seq<u8>, a: Seq<char>, b: Seq<char>)
    requires
        base58_encodes(a, bytes),
        base58_encodes(b, bytes),
    ensures
        a == b,
        a == base58_text(bytes),
{
    lemma_one_text(bytes, a, b);
    lemma_one_text(bytes, a, base58_text(bytes));
}

proof fn lemma_one_text(bytes: Seq<u8>, a: Seq<char>, b: Seq<char>)
    requires
        base58_encodes(a, bytes),
        base58_encodes(b, bytes),
    ensures
        a == b,
{
    lemma_text_digits(a);
    lemma_text_digits(b);
    lemma_digits_unique(text_digits(a), text_digits(b), 58);
    assert(a.len() == text_digits(a).len() && b.len() == text_digits(b).len());
    assert forall|i: int| 0 <= i < a.len() implies a[i] == b[i] by {
        assert(text_digits(a)[i] == text_digits(b)[i]);
        assert(alphabet().contains(a[i]) && alphabet().contains(b[i]));
    }
    assert(a =~= b);
}

/// The digits of a base58 text are below fifty-eight.
proof fn lemma_text_digits(text: Seq<char>)
    requires
        is_base58(text),
    ensures
        digits_in_base(text_digits(text), 58),
{
    reveal_strlit("123456789ABCDEFGHJKLMNPQRSTUVWXYZabcdefghijkmnopqrstuvwxyz");
    assert forall|i: int| 0 <= i < text.len() implies 0 <= #[trigger] text_digits(text)[i] < 58 by {
        assert(alphabet().contains(text[i]));
    }
}

/// The number that digits write is below the base to the power of their count.
proof fn lemma_numeral_upper(digits: Seq<int>, base: int)
    requires
        base > 1,
        digits_in_base(digits, base),
    ensures
        0 <= numeral(digits, base) < pow(base, digits.len()),
    decreases digits.len(),
{
    reveal(pow);
    if digits.len() > 0 {
        let front = digits.drop_last();
        lemma_part_in_base(digits, base, 0, digits.len() - 1);
        lemma_numeral_upper(front, base);
        let (n, p, d) = (numeral(front, base), pow(base, front.len()), digits.last());
        assert(0 <= d < base);
        assert(0 <= n * base + d < base * p) by (nonlinear_arith)
            requires
                0 <= n < p,
                0 <= d < base,
        ;
    }
}

/// Digits that do not start with zero write at least the base to the power of
/// one less than their count.
proof fn lemma_numeral_lower(digits: Seq<int>, base: int)
    requires
        base > 1,
        digits_in_base(digits, base),
        digits.len() > 0,
        digits[0] != 0,
    ensures
        numeral(digits, base) >= pow(base, (digits.len() - 1) as nat),
    decreases digits.len(),
{
    reveal(pow);
    let front = digits.drop_last();
    assert(0 <= digits.last() < base);
    if digits.len() == 1 {
        assert(numeral(front, base) == 0);
        assert(0 * base == 0) by (nonlinear_arith);
    } else {
        lemma_part_in_base(digits, base, 0, digits.len() - 1);
        lemma_numeral_lower(front, base);
        let (n, p, d) = (numeral(front, base), pow(base, (front.len() - 1) as nat), digits.last());
        assert(n * base + d >= base * p) by (nonlinear_arith)
            requires
                n >= p,
                base > 1,
                0 <= d,
        ;
    }
}

/// Digits behind their leading zeros start with another digit and write the
/// same number.
proof fn lemma_strip(digits: Seq<int>, base: int)
    ensures
        leading_zeros(digits) <= digits.len(),
        numeral(digits.skip(leading_zeros(digits) as int), base) == numeral(digits, base),
        leading_zeros(digits) < digits.len() ==> digits[leading_zeros(digits) as int] != 0,
    decreases digits.len(),
{
    if leading_zeros(digits) == 0 {
        assert(digits.skip(0) =~= digits);
    } else {
        let rest = digits.drop_first();
        lemma_strip(rest, base);
        lemma_numeral_drop_zero(digits, base);
        assert(digits.skip(leading_zeros(digits) as int) =~= rest.skip(leading_zeros(rest) as int));
    }
}

/// A power grows with its base.
proof fn lemma_pow_base(a: int, b: int, e: nat)
    requires
        0 < a <= b,
    ensures
        0 < pow(a, e) <= pow(b, e),
    decreases e,
{
    reveal(pow);
    if e > 0 {
        lemma_pow_base(a, b, (e - 1) as nat);
        let (p, q) = (pow(a, (e - 1) as nat), pow(b, (e - 1) as nat));
        assert(0 < a * p <= b * q) by (nonlinear_arith)
            requires
                0 < a <= b,
                0 < p <= q,
        ;
    }
}

/// Eighty-eight base58 digits hold sixty-four bytes.
proof fn lemma_signature_capacity()
    ensures
        pow(256, 64) <= pow(58, 88),
{
    assert(pow(256, 8) <= pow(58, 11)) by {
        reveal_with_fuel(pow, 12);
    }
    assert(pow(256, 8) > 0) by {
        lemma_pow_positive(256, 8);
    }
    lemma_pow_base(pow(256, 8), pow(58, 11), 8);
    lemma_pow_multiplies(256, 8, 8);
    lemma_pow_multiplies(58, 11, 8);
}

/// The base58 text of sixty-four bytes has at most eighty-eight digits.
pub proof fn signature_text_is_short(text: Seq<char>, bytes: Seq<u8>)
    requires
        base58_encodes(text, bytes),
        bytes.len() == 64,
    ensures
        text.len() <= 88,
{
    let (t, b) = (text_digits(text), byte_digits(bytes));
    let z = leading_zeros(t);
    lemma_strip(t, 58);
    lemma_strip(b, 256);
    lemma_text_digits(text);
    if text.len() > 88 {
        let (s, c) = (t.skip(z as int), b.skip(z as int));
        lemma_part_in_base(t, 58, z as int, t.len() as int);
        lemma_part_in_base(b, 256, z as int, b.len() as int);
        lemma_numeral_lower(s, 58);
        lemma_numeral_upper(c, 256);
        let (m, k) = ((88 - z) as nat, (64 - z) as nat);
        lemma_pow_increases(58, m, (s.len() - 1) as nat);
        lemma_signature_capacity();
        lemma_pow_adds(58, m, z);
        lemma_pow_adds(256, k, z);
        lemma_pow_base(58, 256, z);
        let (x, y, u, v) = (pow(58, m), pow(256, k), pow(58, z), pow(256, z));
        assert(x < y);
        assert(x * u < y * v) by (nonlinear_arith)
            requires
                x < y,
                0 < u <= v,
                0 < y,
        ;
    }
}

/// A base58 text takes one byte of UTF-8 for each of its digits.
pub proof fn base58_text_is_ascii(text: Seq<char>)
    requires
        is_base58(text),
    ensures
        vstd::utf8::encode_utf8(text).len() == text.len(),
{
    reveal_strlit("123456789ABCDEFGHJKLMNPQRSTUVWXYZabcdefghijkmnopqrstuvwxyz");
    assert forall|i: int| 0 <= i < text.len() implies '\0' <= #[trigger] text[i] <= '\u{7f}' by {
        assert(alphabet().contains(text[i]));
    }
    vstd::utf8::is_ascii_chars_encode_utf8(text);
}

/// Calls `base58::ToBase58::to_base58` on a byte slice.
///
/// Taken on trust: the text it returns is the base58 text of the bytes. The
/// length bound keeps the buffer size that it computes first, a multiple of
/// the length by 138, within `usize`.
#[verifier::external_body]
pub(crate) fn to_base58(bytes: &[u8]) -> (text: String)
    requires
        bytes@.len() * 138 <= usize::MAX,
    ensures
        base58_encodes(text@, bytes@),
{
    bytes.to_base58()
}

} // verus!
