//! Types of the Solana crates that the library carries but never looks into.
use solana_rpc_client_api::client_error::Error as ClientError;
use vstd::prelude::*;

verus! {

/// The error of a call to a node.
#[verifier::external_type_specification]
#[verifier::external_body]
pub struct ExClientError(ClientError);

/// Why a transaction failed on chain.
#[verifier::external_type_specification]
#[verifier::external_body]
pub struct ExTransactionError(solana_sdk::transaction::TransactionError);

/// How settled the state has to be that a node answers from.
#[verifier::external_type_specification]
#[verifier::external_body]
pub struct ExCommitmentConfig(solana_sdk::commitment_config::CommitmentConfig);

} // verus!
