use de_solana_client::signature::MAX_SIGNATURE_TEXT;
use de_solana_client::{ParseSignatureError, Signature};
use std::cmp::Ordering;

const ONES: &str =
    "2AXDGYSE4f2sz7tvMMzyHvUfcoJmxudvdhBcmiUSo6ijwfYmfZYsKRxboQMPh3R4kUhXRVdtSXFXMheka4Rc4P2";
const LARGEST: &str =
    "67rpwLCuS5DGA8KGZXKsVQ7dnPb9goRLoKfgGbLfQg9WoLUgNY77E2jT11fem3coV9nAkguBACzrU1iyZM4B8roQ";

fn of(byte: u8) -> Signature {
    Signature { bytes: [byte; 64] }
}

#[test]
fn text_is_base58() {
    assert_eq!(of(1).text(), ONES);
    assert_eq!(of(255).text(), LARGEST);
    assert_eq!(LARGEST.len(), MAX_SIGNATURE_TEXT);
}

#[test]
fn zero_bytes_are_ones() {
    assert_eq!(of(0).text(), "1".repeat(64));
    assert_eq!(Signature::parse(&"1".repeat(64)), Ok(of(0)));
}

#[test]
fn text_reads_back() {
    let mut bytes = [0u8; 64];
    for (i, byte) in bytes.iter_mut().enumerate() {
        *byte = i as u8;
    }
    let signature = Signature { bytes };
    assert_eq!(
        signature.text(),
        "1GMkH3brNXiNNs1tiFZHu4yZSRrzJwxi5wB9bHFtMinfCXNnR1adh8Vo8NTheK4evneedH4qmvjeqcBBNAefgS"
    );
    assert_eq!(Signature::parse(&signature.text()), Ok(signature));
    assert_eq!(Signature::parse(ONES), Ok(of(1)));
    assert_eq!(Signature::parse(LARGEST), Ok(of(255)));
}

#[test]
fn parse_agrees_with_the_sdk() {
    let sdk: solana_sdk::signature::Signature = ONES.parse().unwrap();
    assert_eq!(<[u8; 64]>::from(sdk), Signature::parse(ONES).unwrap().bytes);
}

#[test]
fn too_long_a_text_is_refused_for_its_size() {
    let mut text = LARGEST.to_string();
    text.push('1');
    assert_eq!(Signature::parse(&text), Err(ParseSignatureError::WrongSize));
    // Not base58 either, but the size is looked at first.
    let text = "0".repeat(89);
    assert_eq!(Signature::parse(&text), Err(ParseSignatureError::WrongSize));
    // Forty-five characters of two bytes each.
    let text = "\u{e9}".repeat(45);
    assert_eq!(Signature::parse(&text), Err(ParseSignatureError::WrongSize));
}

#[test]
fn other_digits_are_invalid() {
    assert_eq!(Signature::parse("0"), Err(ParseSignatureError::Invalid));
    assert_eq!(Signature::parse("abcI"), Err(ParseSignatureError::Invalid));
    assert_eq!(
        Signature::parse(&"\u{e9}".repeat(44)),
        Err(ParseSignatureError::Invalid)
    );
}

#[test]
fn another_number_of_bytes_is_refused_for_its_size() {
    assert_eq!(Signature::parse(""), Err(ParseSignatureError::WrongSize));
    assert_eq!(Signature::parse("Ldp"), Err(ParseSignatureError::WrongSize));
    assert_eq!(
        Signature::parse(&"1".repeat(63)),
        Err(ParseSignatureError::WrongSize)
    );
    assert_eq!(
        Signature::parse(&"z".repeat(88)),
        Err(ParseSignatureError::WrongSize)
    );
}

#[test]
fn order_is_that_of_the_bytes() {
    let mut high = of(1);
    high.bytes[63] = 2;
    let mut early = of(1);
    early.bytes[0] = 0;
    early.bytes[1] = 255;
    assert_eq!(of(1).cmp(&of(1)), Ordering::Equal);
    assert_eq!(of(1).cmp(&high), Ordering::Less);
    assert_eq!(high.cmp(&of(1)), Ordering::Greater);
    assert_eq!(early.cmp(&of(1)), Ordering::Less);
    assert_eq!(of(128).cmp(&of(127)), Ordering::Greater);
}
