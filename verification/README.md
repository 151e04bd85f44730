# de-solana-client

A Solana client that confirms the transactions it sends, sends them again when
they fail, reads the whole signature history of an address, and filters
program accounts by their bytes. Its decisions are verified with Verus.

## Layout

- `src/` is the verified library. It makes no requests. A state says what is
  due next (`action`, `request`) and takes what came of it (`step`, `receive`).
  - `send`, `send_laws`: one transaction, from the blockhash check to its
    confirmation
  - `resend`: a transaction that is built and sent again on a fresh blockhash
  - `history`, `history_laws`: the signature history of an address, page by page
  - `signature_set`, `signatures_data`: its entries, in order, without repeats
  - `signature`, `base58`: signatures, their order and their text
  - `memory`: filters by account bytes
  - `error`, `duration`, `outside`: the error of a reading, durations in
    nanoseconds, and the Solana types that are only carried along
- `app/` is ordinary Rust: traits on `RpcClient` that make the requests.
- `tests/` runs the library on concrete values, with the Solana crates linked.

`url` is held at an older version to keep the tree of dependencies small.

## What is taken on trust

Each item's doc comment says what is believed of it.

- Thin calls: `base58::to_base58`, `signature::read_signature`,
  `signature::write_signature` and `send::for_user`.
- Specifications of std: `Duration::as_nanos` and `Duration::from_secs`, in
  `duration`.
- Names for what such a call returns: `duration::duration_nanos` for
  `Duration::as_nanos`, and `send::user_error` for `send::for_user`.
- Types of the Solana crates, declared in `outside` and never looked into: the
  client error, `TransactionError` and `CommitmentConfig`.
