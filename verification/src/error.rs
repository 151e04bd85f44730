//! The errors of reading a signature history.
use crate::signature::ParseSignatureError;
use solana_rpc_client_api::client_error::Error as ClientError;
use vstd::prelude::*;

verus! {

/// Why a signature history could not be read.
#[derive(Debug)]
pub enum Error {
    /// The node could not be asked, or refused to answer.
    ClientError(ClientError),
    /// The node named a transaction by a text that is not a signature.
    SignatureParseError(ParseSignatureError),
}

} // verus!
