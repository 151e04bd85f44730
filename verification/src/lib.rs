//! The decisions of a Solana client: how a transaction is sent, confirmed and
//! sent again, how the signature history of an address is read page by page,
//! and how program accounts are filtered by their bytes.
//!
//! Requests to a node are not made here. Where one is due, a state says which
//! (`action` or `request`), and takes the answer (`step` or `receive`).

pub mod base58;
pub mod duration;
pub mod error;
pub mod history;
pub mod history_laws;
pub mod memory;
pub mod outside;
pub mod resend;
pub mod send;
pub mod send_laws;
pub mod signature;
pub mod signature_set;
pub mod signatures_data;

pub use error::Error;
pub use history::{Ending, HistoryState, HistoryStep, PageRequest, SignatureRecord};
pub use memory::{
    AccountEncoding, DataSlice, Memcmp, MemcmpEncodedBytes, MemcmpEncoding, Memory,
    ProgramAccountsConfig, RpcFilterType,
};
pub use resend::{ResendAction, ResendEvent, ResendState, ResendStep};
pub use send::{
    CommitmentLevel, SendAction, SendContext, SendError, SendEvent, SendState, SendStep,
};
pub use signature::{ParseSignatureError, Signature};
pub use signature_set::SignatureSet;
pub use signatures_data::SignaturesData;
