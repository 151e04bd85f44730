//! Transaction signatures: their bytes, their order, and their base58 text.
use crate::base58::{
    alphabet, base58_encodes, base58_text, base58_text_fixes_bytes, base58_text_is_ascii,
    bytes_fix_base58_text, is_base58, signature_text_is_short,
};
use std::cmp::Ordering;
use vstd::prelude::*;

verus! {

/// The longest text, in bytes of UTF-8, that is read as a signature.
pub const MAX_SIGNATURE_TEXT: usize = 88;

/// The sixty-four bytes of a transaction signature.
#[derive(Debug, Clone, Copy, PartialEq, Eq, Hash)]
pub struct Signature {
    pub bytes: [u8; 64],
}

impl View for Signature {
    type V = Seq<u8>;

    open spec fn view(&self) -> Seq<u8> {
        self.bytes@
    }
}

/// Why a text is not a signature.
#[derive(Debug, Clone, Copy, PartialEq, Eq)]
pub enum ParseSignatureError {
    /// The text is too long, or stands for some other number of bytes.
    WrongSize,
    /// The text is not base58.
    Invalid,
}

/// The text is no longer than a signature's text may be.
pub open spec fn fits_signature(text: Seq<char>) -> bool {
    vstd::utf8::encode_utf8(text).len() <= MAX_SIGNATURE_TEXT
}

/// `result` is what reading `text` as a signature gives: the length is
/// checked first, then the digits, then the number of bytes.
pub open spec fn reads_as(
    text: Seq<char>,
    result: Result<Signature, ParseSignatureError>,
) -> bool {
    match result {
        Ok(signature) => fits_signature(text) && base58_encodes(text, signature@),
        Err(ParseSignatureError::Invalid) => fits_signature(text) && !is_base58(text),
        Err(ParseSignatureError::WrongSize) => {
            ||| !fits_signature(text)
            ||| is_base58(text) && forall|bytes: Seq<u8>|
                bytes.len() == 64 ==> !base58_encodes(text, bytes)
        },
    }
}

/// What reading a text as a signature gives.
pub open spec fn parsed_signature(text: Seq<char>) -> Result<Signature, ParseSignatureError> {
    choose|result: Result<Signature, ParseSignatureError>| reads_as(text, result)
}

/// Reading a text as a signature has one outcome only.
pub proof fn signature_reading_is_unique(
    text: Seq<char>,
    a: Result<Signature, ParseSignatureError>,
    b: Result<Signature, ParseSignatureError>,
)
    requires
        reads_as(text, a),
        reads_as(text, b),
    ensures
        a == b,
{
    if let (Ok(s), Ok(t)) = (a, b) {
        base58_text_fixes_bytes(text, s@, t@);
        assert(s.bytes =~= t.bytes);
    }
}

/// The text of a signature is read as that signature.
pub proof fn signature_text_reads_back(signature: Signature, text: Seq<char>)
    requires
        base58_encodes(text, signature@),
    ensures
        reads_as(text, Ok(signature)),
        parsed_signature(text) == Ok::<Signature, ParseSignatureError>(signature),
{
    signature_text_is_short(text, signature@);
    base58_text_is_ascii(text);
    assert(reads_as(text, Ok(signature)));
    signature_reading_is_unique(text, Ok(signature), parsed_signature(text));
}

/// A text that is read as a signature is the text of that signature.
pub proof fn signature_read_has_that_text(signature: Signature, text: Seq<char>)
    requires
        reads_as(text, Ok(signature)),
    ensures
        text == base58_text(signature@),
{
    bytes_fix_base58_text(signature@, text, text);
}

/// The first byte in which the two differ is smaller on the left.
pub open spec fn bytes_precede(a: Seq<u8>, b: Seq<u8>) -> bool {
    exists|i: int|
        #![trigger a[i], b[i]]
        0 <= i < a.len() && i < b.len() && a[i] < b[i] && (forall|j: int|
            0 <= j < i ==> a[j] == b[j])
}

impl Signature {
    /// The order of signatures: that of their bytes, from the first on.
    pub open spec fn precedes(self, other: Signature) -> bool {
        bytes_precede(self@, other@)
    }

    /// Compares two signatures byte by byte.
    pub fn cmp(&self, other: &Signature) -> (order: Ordering)
        ensures
            match order {
                Ordering::Less => self.precedes(*other),
                Ordering::Equal => *self == *other,
                Ordering::Greater => other.precedes(*self),
            },
            order == Ordering::Equal <==> self.bytes@ == other.bytes@,
            forall|i: int|
                #![trigger self.bytes@[i], other.bytes@[i]]
                0 <= i < 64 && self.bytes@[i] < other.bytes@[i] && (forall|j: int|
                    0 <= j < i ==> #[trigger] self.bytes@[j] == other.bytes@[j]) ==> order
                    == Ordering::Less,
            forall|i: int|
                #![trigger self.bytes@[i], other.bytes@[i]]
                0 <= i < 64 && self.bytes@[i] > other.bytes@[i] && (forall|j: int|
                    0 <= j < i ==> #[trigger] self.bytes@[j] == other.bytes@[j]) ==> order
                    == Ordering::Greater,
    {
        let mut i: usize = 0;
        while i < 64
            invariant
                i <= 64,
                forall|j: int|
                    #![trigger self.bytes@[j]]
                    #![trigger other.bytes@[j]]
                    0 <= j < i ==> self.bytes@[j] == other.bytes@[j],
            decreases 64 - i,
        {
            if self.bytes[i] < other.bytes[i] {
                proof {
                    lemma_one_first_difference(*self, *other, i);
                }
                return Ordering::Less;
            }
            if other.bytes[i] < self.bytes[i] {
                proof {
                    lemma_one_first_difference(*other, *self, i);
                }
                return Ordering::Greater;
            }
            i += 1;
        }
        assert(self@ =~= other@);
        assert(self.bytes =~= other.bytes);
        Ordering::Equal
    }

    /// Reads a signature from its base58 text.
    pub fn parse(text: &str) -> (result: Result<Signature, ParseSignatureError>)
        ensures
            reads_as(text@, result),
            result == parsed_signature(text@),
            forall|signature: Signature|
                result == Ok::<Signature, ParseSignatureError>(signature) <==> #[trigger]
                base58_encodes(text@, signature.bytes@),
            result == Err::<Signature, ParseSignatureError>(ParseSignatureError::Invalid) <==> {
                &&& vstd::utf8::encode_utf8(text@).len() <= 88
                &&& exists|i: int| 0 <= i < text@.len() && !alphabet().contains(#[trigger] text@[i])
            },
    {
        let result = read_signature(text);
        proof {
            assert forall|signature: Signature| #[trigger]
                base58_encodes(text@, signature.bytes@) implies result == Ok::<
                Signature,
                ParseSignatureError,
            >(signature) by {
                signature_text_reads_back(signature, text@);
                signature_reading_is_unique(text@, result, Ok(signature));
            }
            signature_reading_is_unique(text@, result, parsed_signature(text@));
        }
        result
    }

    /// Writes the signature as base58 text.
    pub fn text(&self) -> (text: String)
        ensures
            base58_encodes(text@, self@),
            text@ == base58_text(self@),
    {
        let text = write_signature(self);
        proof {
            bytes_fix_base58_text(self@, text@, text@);
        }
        text
    }
}

/// Where one signature has the smaller byte at the first difference, the other
/// has it nowhere.
proof fn lemma_one_first_difference(a: Signature, b: Signature, i: usize)
    requires
        i < 64,
        a.bytes@[i as int] < b.bytes@[i as int],
        forall|j: int| 0 <= j < i ==> a.bytes@[j] == b.bytes@[j],
    ensures
        forall|k: int|
            #![trigger a.bytes@[k], b.bytes@[k]]
            0 <= k < 64 && b.bytes@[k] < a.bytes@[k] ==> exists|j: int|
                0 <= j < k && #[trigger] a.bytes@[j] != b.bytes@[j],
{
    assert forall|k: int|
        #![trigger a.bytes@[k], b.bytes@[k]]
        0 <= k < 64 && b.bytes@[k] < a.bytes@[k] implies exists|j: int|
        0 <= j < k && #[trigger] a.bytes@[j] != b.bytes@[j] by {
        assert(i < k);
        assert(a.bytes@[i as int] != b.bytes@[i as int]);
    }
}

/// Of two signatures the one with the smaller byte, where they first differ,
/// comes first.
pub proof fn first_difference_decides(a: Signature, b: Signature, i: int)
    requires
        0 <= i < 64,
        a.bytes@[i] < b.bytes@[i],
        forall|j: int| 0 <= j < i ==> #[trigger] a.bytes@[j] == b.bytes@[j],
    ensures
        a.precedes(b),
        !b.precedes(a),
{
    assert(a@[i] < b@[i]);
    signature_order_is_total(a, b);
}

/// Of two signatures, exactly one of three holds: the first comes before the
/// second, they are the same, or the second comes before the first.
pub proof fn signature_order_is_total(a: Signature, b: Signature)
    ensures
        a.precedes(b) || a == b || b.precedes(a),
        !(a.precedes(b) && b.precedes(a)),
        !a.precedes(a),
{
    if a@ == b@ {
        assert(a.bytes =~= b.bytes);
    } else {
        assert(a@.len() == 64 && b@.len() == 64);
        let i = lemma_first_difference(a@, b@, 0);
        if a@[i] < b@[i] {
            assert(a.precedes(b));
        } else {
            assert(b.precedes(a));
        }
    }
}

/// The first position, from `from` on, in which two byte strings differ.
proof fn lemma_first_difference(a: Seq<u8>, b: Seq<u8>, from: int) -> (i: int)
    requires
        a.len() == b.len(),
        a != b,
        0 <= from <= a.len(),
        forall|j: int| 0 <= j < from ==> a[j] == b[j],
    ensures
        0 <= i < a.len(),
        a[i] != b[i],
        forall|j: int| 0 <= j < i ==> a[j] == b[j],
    decreases a.len() - from,
{
    if from == a.len() {
        assert(a =~= b);
        from
    } else if a[from] != b[from] {
        from
    } else {
        lemma_first_difference(a, b, from + 1)
    }
}

/// A signature before a second one is before each that comes after the second.
pub proof fn signature_order_is_transitive(a: Signature, b: Signature, c: Signature)
    requires
        a.precedes(b),
        b.precedes(c),
    ensures
        a.precedes(c),
{
    let i = choose|i: int|
        #![trigger a@[i], b@[i]]
        0 <= i < a@.len() && i < b@.len() && a@[i] < b@[i] && (forall|j: int|
            0 <= j < i ==> a@[j] == b@[j]);
    let k = choose|k: int|
        #![trigger b@[k], c@[k]]
        0 <= k < b@.len() && k < c@.len() && b@[k] < c@[k] && (forall|j: int|
            0 <= j < k ==> b@[j] == c@[j]);
    let m = if i <= k { i } else { k };
    assert(a@[m] < c@[m]);
    assert forall|j: int| 0 <= j < m implies a@[j] == c@[j] by {
        assert(a@[j] == b@[j] && b@[j] == c@[j]);
    }
}

/// Calls `str::parse` for `solana_sdk::signature::Signature`.
///
/// Taken on trust: a text of more than eighty-eight bytes is refused for its
/// size; any other that is not base58 is refused as invalid; what is left is
/// decoded from base58, and refused for its size unless it decodes to
/// sixty-four bytes.
#[verifier::external_body]
fn read_signature(text: &str) -> (result: Result<Signature, ParseSignatureError>)
    ensures
        reads_as(text@, result),
{
    match text.parse::<solana_sdk::signature::Signature>() {
        Ok(signature) => Ok(Signature { bytes: signature.into() }),
        Err(solana_sdk::signature::ParseSignatureError::WrongSize) => {
            Err(ParseSignatureError::WrongSize)
        },
        Err(solana_sdk::signature::ParseSignatureError::Invalid) => {
            Err(ParseSignatureError::Invalid)
        },
    }
}

/// Calls `to_string` of `solana_sdk::signature::Signature`.
///
/// Taken on trust: it displays the base58 text of the sixty-four bytes.
#[verifier::external_body]
fn write_signature(signature: &Signature) -> (text: String)
    ensures
        base58_encodes(text@, signature@),
{
    solana_sdk::signature::Signature::from(signature.bytes).to_string()
}

} // verus!
