//! The error taxonomy of the transfer pipeline: one kind per stage that can
//! fail, each carrying the collaborator's diagnostic text.

use vstd::prelude::*;
use vstd::string::StringExecFns;

verus! {

/// One distinct error kind per pipeline stage, in stage order. The `String`
/// carried by each variant is the diagnostic text of the failure.
#[derive(Debug)]
pub enum TransferError {
    NetworkError(String),
    InvalidPrivateKey(String),
    GetBalanceError(String),
    InvalidAmountFormat(String),
    InvalidReceiverAddress(String),
    TransactionError(String),
}

impl TransferError {
    /// The human-readable text of the error: a fixed prefix naming the failed
    /// stage, followed by the diagnostic carried in the variant.
    pub open spec fn spec_message(self) -> Seq<char> {
        match self {
            TransferError::NetworkError(d) => "Network connection error: "@ + d@,
            TransferError::InvalidPrivateKey(d) => "Invalid private key: "@ + d@,
            TransferError::GetBalanceError(d) => "Failed to get asset balance: "@ + d@,
            TransferError::InvalidAmountFormat(d) => "Invalid amount format: "@ + d@,
            TransferError::InvalidReceiverAddress(d) => "Invalid receiver address: "@ + d@,
            TransferError::TransactionError(d) => "Transaction failed: "@ + d@,
        }
    }

    /// Renders the error for the failure report handed back to the caller.
    pub fn message(&self) -> (r: String)
        ensures
            r@ == self.spec_message(),
    {
        match self {
            TransferError::NetworkError(d) => String::from_str(
                "Network connection error: ",
            ).concat(d.as_str()),
            TransferError::InvalidPrivateKey(d) => String::from_str(
                "Invalid private key: ",
            ).concat(d.as_str()),
            TransferError::GetBalanceError(d) => String::from_str(
                "Failed to get asset balance: ",
            ).concat(d.as_str()),
            TransferError::InvalidAmountFormat(d) => String::from_str(
                "Invalid amount format: ",
            ).concat(d.as_str()),
            TransferError::InvalidReceiverAddress(d) => String::from_str(
                "Invalid receiver address: ",
            ).concat(d.as_str()),
            TransferError::TransactionError(d) => String::from_str(
                "Transaction failed: ",
            ).concat(d.as_str()),
        }
    }
}

} // verus!
