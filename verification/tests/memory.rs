use de_solana_client::{
    AccountEncoding, Memcmp, MemcmpEncodedBytes, Memory, ProgramAccountsConfig, RpcFilterType,
};

fn parts(filter: RpcFilterType) -> (usize, String) {
    let RpcFilterType::Memcmp(Memcmp {
        offset,
        bytes: MemcmpEncodedBytes::Base58(text),
        encoding,
    }) = filter;
    assert_eq!(encoding, None);
    (offset, text)
}

fn filter(offset: usize, bytes: &[u8]) -> (usize, String) {
    let mem = Memory {
        offset,
        bytes: bytes.to_vec(),
    };
    assert!(mem.is_encodable());
    parts(RpcFilterType::from(mem))
}

#[test]
fn bytes_become_base58() {
    assert_eq!(filter(0, &[1, 2, 3]).1, "Ldp");
    assert_eq!(filter(0, b"hello world").1, "StV1DL6CwTryKyV");
    assert_eq!(filter(0, &[255, 255, 255]).1, "2UzHL");
}

#[test]
fn offset_is_kept() {
    assert_eq!(filter(8, &[1, 2, 3]).0, 8);
    assert_eq!(filter(usize::MAX, &[]).0, usize::MAX);
}

#[test]
fn leading_zeros_count() {
    assert_eq!(filter(0, &[]).1, "");
    assert_eq!(filter(0, &[0]).1, "1");
    assert_eq!(filter(0, &[0, 0]).1, "11");
    assert_eq!(filter(0, &[0, 0, 1]).1, "112");
}

#[test]
fn long_patterns_are_encoded() {
    assert_eq!(
        filter(0, &[255; 130]).1,
        "9oMLPqgcNmiiH3arNKgbp7LpHMpP6HWiVFrXJ3bynpi9QxSaxrR4xFiLk52toUtxcrj9tNNRGfaE1UvsZoZdDxRniY6W7qu5iwr9tqGBHnqbWu8Au3gKzP7gN4awrG2JqeMh2VbfgyS29zjh5Zzr2AU885bRVWBwnhvPrmL3jgi3zDZe7G"
    );
}

#[test]
fn different_patterns_give_different_filters() {
    assert_ne!(filter(0, &[1]).1, filter(0, &[0, 1]).1);
    assert_ne!(filter(0, &[1, 0]).1, filter(0, &[1]).1);
    assert_eq!(filter(3, &[7, 7]).1, filter(4, &[7, 7]).1);
    assert_ne!(filter(3, &[7, 7]), filter(4, &[7, 7]));
    assert_eq!(filter(3, &[7, 7]), filter(3, &[7, 7]));
}

#[test]
fn query_holds_one_filter_for_each_pattern() {
    let config = ProgramAccountsConfig::with_bytes(vec![
        Memory {
            offset: 0,
            bytes: vec![1, 2, 3],
        },
        Memory {
            offset: 32,
            bytes: vec![0, 0, 1],
        },
    ]);
    assert_eq!(config.encoding, Some(AccountEncoding::Base64));
    assert_eq!(config.data_slice, None);
    assert_eq!(config.commitment, None);
    assert_eq!(config.min_context_slot, None);
    assert_eq!(config.with_context, None);
    let filters: Vec<_> = config.filters.unwrap().into_iter().map(parts).collect();
    assert_eq!(
        filters,
        vec![(0, "Ldp".to_string()), (32, "112".to_string())]
    );
}

#[test]
fn query_without_patterns_has_an_empty_list() {
    let config = ProgramAccountsConfig::with_bytes(Vec::new());
    assert!(config.filters.unwrap().is_empty());
}
