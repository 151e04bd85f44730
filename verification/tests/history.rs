use de_solana_client::history::{find_border, is_single_slot, read_page, PAGE_LIMIT};
use de_solana_client::{
    Ending, Error, HistoryState, HistoryStep, ParseSignatureError, Signature, SignatureRecord,
    SignatureSet, SignaturesData,
};
use solana_rpc_client_api::client_error::Error as ClientError;
use solana_rpc_client_api::request::RpcError;
use solana_sdk::commitment_config::CommitmentConfig;
use solana_sdk::transaction::TransactionError;
use std::cmp::Ordering;

fn of(n: u16) -> Signature {
    let mut bytes = [7u8; 64];
    bytes[0] = (n / 256) as u8;
    bytes[1] = (n % 256) as u8;
    Signature { bytes }
}

fn entry(n: u16, slot: u64) -> SignaturesData {
    SignaturesData {
        signature: of(n),
        slot,
        block_time: Some(slot as i64),
        err: None,
    }
}

fn record(entry: &SignaturesData) -> SignatureRecord {
    SignatureRecord {
        signature: entry.signature.text(),
        slot: entry.slot,
        block_time: entry.block_time,
        err: entry.err.clone(),
    }
}

fn page(entries: &[SignaturesData]) -> Result<Vec<SignatureRecord>, ClientError> {
    Ok(entries.iter().map(record).collect())
}

fn start() -> HistoryState {
    HistoryState::new(CommitmentConfig::finalized(), None)
}

fn go_on(state: HistoryState, entries: &[SignaturesData]) -> HistoryState {
    match state.receive(page(entries)) {
        HistoryStep::Continue(next) => next,
        _ => panic!("ended early"),
    }
}

fn end(state: HistoryState, entries: &[SignaturesData]) -> (Vec<SignaturesData>, Ending) {
    match state.receive(page(entries)) {
        HistoryStep::Done(signatures, ending) => (signatures.into_vec(), ending),
        _ => panic!("not ended"),
    }
}

#[test]
fn entries_compare_by_slot_then_time_then_signature() {
    let base = entry(5, 10);
    assert_eq!(base.cmp(&entry(5, 10)), Ordering::Equal);
    assert_eq!(base.cmp(&entry(1, 11)), Ordering::Less);
    assert_eq!(base.cmp(&entry(9, 9)), Ordering::Greater);
    let mut other = entry(1, 10);
    other.block_time = Some(11);
    assert_eq!(base.cmp(&other), Ordering::Less);
    other.block_time = Some(9);
    assert_eq!(base.cmp(&other), Ordering::Greater);
    other.block_time = None;
    assert_eq!(base.cmp(&other), Ordering::Greater);
    assert_eq!(other.cmp(&base), Ordering::Less);
    assert_eq!(base.cmp(&entry(6, 10)), Ordering::Less);
    assert_eq!(base.cmp(&entry(4, 10)), Ordering::Greater);
    assert!(base < entry(6, 10));
    assert_eq!(base.partial_cmp(&entry(4, 10)), Some(Ordering::Greater));
}

#[test]
fn the_error_does_not_count_in_the_order() {
    let base = entry(5, 10);
    let mut failed = entry(5, 10);
    failed.err = Some(TransactionError::AccountInUse);
    assert_eq!(base.cmp(&failed), Ordering::Equal);
    assert_ne!(base, failed);
    let mut unknown = entry(5, 10);
    unknown.block_time = None;
    assert_eq!(unknown.cmp(&unknown.clone()), Ordering::Equal);
}

#[test]
fn set_is_sorted_and_keeps_the_first_of_equals() {
    let mut set = SignatureSet::new();
    let mut failed = entry(2, 10);
    failed.err = Some(TransactionError::AccountInUse);
    assert!(set.insert(entry(3, 12)));
    assert!(set.insert(failed.clone()));
    assert!(set.insert(entry(1, 11)));
    assert!(!set.insert(entry(2, 10)));
    assert!(!set.insert(entry(3, 12)));
    assert_eq!(set.len(), 3);
    assert_eq!(set.into_vec(), vec![failed, entry(1, 11), entry(3, 12)]);
}

#[test]
fn batches_merge_alike_at_once_or_in_turn() {
    let all = [entry(4, 4), entry(1, 9), entry(4, 4), entry(2, 1), entry(8, 4)];
    let mut once = SignatureSet::new();
    once.extend(all.to_vec());
    let mut twice = SignatureSet::new();
    twice.extend(all[..2].to_vec());
    twice.extend(all[2..].to_vec());
    twice.extend(all.to_vec());
    let expected = vec![entry(2, 1), entry(4, 4), entry(8, 4), entry(1, 9)];
    assert_eq!(once.into_vec(), expected);
    assert_eq!(twice.into_vec(), expected);
}

#[test]
fn successful_leaves_out_failed_transactions() {
    let mut failed = entry(2, 2);
    failed.err = Some(TransactionError::AccountInUse);
    let mut set = SignatureSet::new();
    set.extend(vec![entry(3, 3), failed, entry(1, 1)]);
    assert_eq!(set.successful(), vec![of(1), of(3)]);
    assert!(SignatureSet::new().successful().is_empty());
}

#[test]
fn records_become_entries() {
    let mut failed = entry(2, 2);
    failed.err = Some(TransactionError::AccountInUse);
    failed.block_time = None;
    let data = read_page(vec![record(&failed), record(&entry(1, 1))]);
    assert_eq!(data.unwrap(), vec![failed, entry(1, 1)]);
}

#[test]
fn first_unreadable_record_decides() {
    let mut short = record(&entry(1, 1));
    short.signature = "Ldp".to_string();
    let mut wrong = record(&entry(2, 2));
    wrong.signature = "0".to_string();
    let records = vec![record(&entry(3, 3)), short, wrong];
    assert_eq!(read_page(records).unwrap_err(), ParseSignatureError::WrongSize);
}

#[test]
fn border_is_the_last_entry_of_another_slot() {
    let batch = vec![entry(1, 9), entry(2, 8), entry(3, 8), entry(4, 7), entry(5, 7)];
    assert_eq!(find_border(&batch), 2);
    assert!(!is_single_slot(&batch));
    let batch = vec![entry(1, 7), entry(2, 8), entry(3, 7)];
    assert_eq!(find_border(&batch), 1);
    let batch = vec![entry(1, 7), entry(2, 7), entry(3, 7)];
    assert_eq!(find_border(&batch), 2);
    assert!(is_single_slot(&batch));
    assert_eq!(find_border(&vec![entry(1, 7)]), 0);
    assert!(is_single_slot(&Vec::new()));
}

#[test]
fn first_request_starts_at_the_newest() {
    let state = HistoryState::new(CommitmentConfig::confirmed(), Some(of(9)));
    let request = state.request();
    assert_eq!(request.before, None);
    assert_eq!(request.until, Some(of(9)));
    assert_eq!(request.limit, Some(1000));
    assert_eq!(request.commitment, Some(CommitmentConfig::confirmed()));
}

#[test]
fn next_request_starts_behind_the_border() {
    let state = HistoryState::new(CommitmentConfig::confirmed(), Some(of(99)));
    let state = go_on(state, &[entry(1, 9), entry(2, 8), entry(3, 7), entry(4, 7)]);
    let request = state.request();
    assert_eq!(request.before, Some(of(2)));
    assert_eq!(request.until, Some(of(99)));
    assert_eq!(request.commitment, Some(CommitmentConfig::confirmed()));
}

#[test]
fn empty_page_ends_reading() {
    let (signatures, ending) = end(start(), &[]);
    assert!(signatures.is_empty());
    assert_eq!(ending, Ending::Exhausted);
    let state = go_on(start(), &[entry(1, 1)]);
    let (signatures, ending) = end(state, &[]);
    assert_eq!(signatures, vec![entry(1, 1)]);
    assert_eq!(ending, Ending::Exhausted);
}

#[test]
fn last_slot_without_news_ends_reading() {
    let state = go_on(start(), &[entry(1, 9), entry(2, 8), entry(3, 8)]);
    let (signatures, ending) = end(state, &[entry(2, 8), entry(3, 8)]);
    assert_eq!(signatures, vec![entry(2, 8), entry(3, 8), entry(1, 9)]);
    assert_eq!(ending, Ending::SlotExhausted);
}

#[test]
fn a_signature_sent_again_is_returned_once() {
    let mut failed = entry(3, 7);
    failed.err = Some(TransactionError::AccountInUse);
    let state = go_on(start(), &[entry(1, 9), entry(2, 8), failed.clone()]);
    let state = go_on(state, &[entry(2, 8), entry(3, 7), entry(4, 6)]);
    let (signatures, ending) = end(state, &[]);
    assert_eq!(ending, Ending::Exhausted);
    assert_eq!(
        signatures,
        vec![entry(4, 6), failed, entry(2, 8), entry(1, 9)]
    );
    let mut set = SignatureSet::new();
    set.extend(signatures);
    assert_eq!(set.successful(), vec![of(4), of(2), of(1)]);
}

#[test]
fn repeated_page_stalls() {
    let batch = [entry(1, 9), entry(2, 8)];
    let state = go_on(start(), &batch);
    let (signatures, ending) = end(state, &batch);
    assert_eq!(signatures, vec![entry(2, 8), entry(1, 9)]);
    assert_eq!(ending, Ending::Stalled(of(1)));
}

#[test]
fn client_error_is_passed_on() {
    let error = RpcError::ForUser("down".to_string()).into();
    match start().receive(Err(error)) {
        HistoryStep::Failed(Error::ClientError(error)) => assert_eq!(error.to_string(), "down"),
        _ => panic!("no client error"),
    }
}

#[test]
fn unreadable_signature_fails_the_reading() {
    let mut wrong = record(&entry(2, 2));
    wrong.signature = "not a signature".to_string();
    let state = go_on(start(), &[entry(1, 9)]);
    match state.receive(Ok(vec![wrong])) {
        HistoryStep::Failed(Error::SignatureParseError(error)) => {
            assert_eq!(error, ParseSignatureError::Invalid)
        }
        _ => panic!("no parse error"),
    }
}

fn serve(
    ledger: &[SignaturesData],
    before: Option<Signature>,
    limit: usize,
) -> Vec<SignaturesData> {
    let from = match before {
        None => 0,
        Some(signature) => {
            1 + ledger
                .iter()
                .position(|entry| entry.signature == signature)
                .unwrap()
        }
    };
    ledger[from..].iter().take(limit).cloned().collect()
}

fn read_all(ledger: &[SignaturesData], limit: usize) -> (Vec<SignaturesData>, usize) {
    let mut state = start();
    let mut requests: usize = 0;
    loop {
        let batch = serve(ledger, state.request().before, limit);
        requests += 1;
        match state.receive(page(&batch)) {
            HistoryStep::Continue(next) => state = next,
            HistoryStep::Done(signatures, _) => return (signatures.into_vec(), requests),
            HistoryStep::Failed(_) => panic!("failed"),
        }
    }
}

#[test]
fn whole_ledger_is_read() {
    // Slots of three entries each, over several pages.
    let ledger: Vec<SignaturesData> = (0..2500u16)
        .map(|n| entry(n, 10_000 - (n / 3) as u64))
        .collect();
    let (mut signatures, requests) = read_all(&ledger, PAGE_LIMIT);
    assert!(requests <= ledger.len() + 1);
    for pair in signatures.windows(2) {
        assert!(pair[0] < pair[1]);
    }
    assert_eq!(signatures.len(), ledger.len());
    signatures.sort_by_key(|entry| entry.signature.bytes);
    assert_eq!(signatures, ledger);
}

#[test]
fn slot_larger_than_a_page_is_read() {
    let ledger: Vec<SignaturesData> = (0..2300u16)
        .map(|n| entry(n, if n < 100 { 9 } else if n < 2200 { 8 } else { 7 }))
        .collect();
    let (signatures, _) = read_all(&ledger, PAGE_LIMIT);
    assert_eq!(signatures.len(), ledger.len());
    assert_eq!(signatures[0], entry(2200, 7));
    assert_eq!(signatures[2299], entry(99, 9));
}

#[test]
fn small_pages_are_read_to_the_end() {
    let ledger: Vec<SignaturesData> = (0..40u16)
        .map(|n| entry(n, 100 - (n / 7) as u64))
        .collect();
    for limit in [1usize, 2, 3, 7, 8, 39, 40, 41] {
        let (mut signatures, requests) = read_all(&ledger, limit);
        assert!(requests <= ledger.len() + 1);
        signatures.sort_by_key(|entry| entry.signature.bytes);
        assert_eq!(signatures, ledger);
    }
}
