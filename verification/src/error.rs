use vstd::prelude::*;

verus! {

/// Why an action was rejected. Every failing handler surfaces exactly one of
/// these kinds; the message strings are part of the external contract.
#[derive(Clone, Copy, PartialEq, Eq, Structural, Debug)]
pub enum StateError {
    /// Deposit: txid already in the processed set.
    AlreadyProcessed,
    /// Deposit: no header stored at the requested height.
    HeaderMissing,
    /// Deposit: the merkle proof does not commit to the presented
    /// transaction at the presented index under the stored header root.
    MerkleMismatch,
    /// Deposit: no output matched any signatory-set script.
    NoDepositOutputs,
    /// Deposit: the recipient list was empty while outputs remained.
    RecipientsExhausted,
    /// Deposit: a recipient commitment was not exactly 33 bytes.
    BadRecipient,
    /// Transfer: sender and recipient are the same address.
    SelfTransfer,
    /// Transfer: fee below the minimum.
    FeeTooSmall,
    /// Transfer/Withdrawal: an address was not exactly 33 bytes.
    /// `sender` tells which side was malformed.
    BadAddress { sender: bool },
    /// Transfer/Withdrawal: the sender account does not exist.
    NoAccount,
    /// Transfer/Withdrawal: balance below amount (+ fee).
    InsufficientBalance,
    /// Transfer/Withdrawal: the nonce did not equal the account nonce, or
    /// the account's nonce space is exhausted. `withdrawal` tells which
    /// handler raised it.
    BadNonce { withdrawal: bool },
    /// Transfer/Withdrawal: ECDSA verification failed.
    BadSignature,
    /// WorkProof: the hash's work value is below the minimum.
    InsufficientWork,
    /// WorkProof: the hash was already redeemed.
    WorkReplay,
    /// Signature transactions are not implemented.
    Unimplemented,
    /// BeginBlock: a validator key failed to parse as a compressed point.
    BadValidatorKey,
    /// Header: a submitted header does not extend the stored chain.
    BadHeaderChain,
}

impl StateError {
    /// The stable message for this error kind, pinned by the external tests.
    pub fn message(&self) -> (m: &'static str)
        ensures
            m@ == self.message_spec(),
    {
        match self {
            StateError::AlreadyProcessed => "Transaction was already processed",
            StateError::HeaderMissing => "Merkle root not found for deposit transaction",
            StateError::MerkleMismatch => "Proof merkle root does not match chain",
            StateError::NoDepositOutputs => "Transaction does not contain any deposit outputs",
            StateError::RecipientsExhausted => "Consumed all recipients",
            StateError::BadRecipient => "Recipient must be 33 bytes",
            StateError::SelfTransfer => "Account cannot send to itself",
            StateError::FeeTooSmall => "Transaction fee is too small",
            StateError::BadAddress { sender: true } => "Invalid sender address",
            StateError::BadAddress { sender: false } => "Invalid recipient address",
            StateError::NoAccount => "Account does not exist",
            StateError::InsufficientBalance => "Insufficient balance in sender account",
            StateError::BadNonce { withdrawal: false } => "Invalid account nonce for transaction",
            StateError::BadNonce { withdrawal: true } => (
                "Invalid account nonce for withdrawal transaction"
            ),
            StateError::BadSignature => "Invalid signature",
            StateError::InsufficientWork => "Proof has less than minimum work value",
            StateError::WorkReplay => "Work proof has already been redeemed",
            StateError::Unimplemented => "Unimplemented transaction type",
            StateError::BadValidatorKey => "Invalid validator public key",
            StateError::BadHeaderChain => "Header does not extend the stored chain",
        }
    }

    pub open spec fn message_spec(&self) -> Seq<char> {
        match self {
            StateError::AlreadyProcessed => "Transaction was already processed"@,
            StateError::HeaderMissing => "Merkle root not found for deposit transaction"@,
            StateError::MerkleMismatch => "Proof merkle root does not match chain"@,
            StateError::NoDepositOutputs => "Transaction does not contain any deposit outputs"@,
            StateError::RecipientsExhausted => "Consumed all recipients"@,
            StateError::BadRecipient => "Recipient must be 33 bytes"@,
            StateError::SelfTransfer => "Account cannot send to itself"@,
            StateError::FeeTooSmall => "Transaction fee is too small"@,
            StateError::BadAddress { sender: true } => "Invalid sender address"@,
            StateError::BadAddress { sender: false } => "Invalid recipient address"@,
            StateError::NoAccount => "Account does not exist"@,
            StateError::InsufficientBalance => "Insufficient balance in sender account"@,
            StateError::BadNonce { withdrawal: false } => "Invalid account nonce for transaction"@,
            StateError::BadNonce { withdrawal: true } => (
                "Invalid account nonce for withdrawal transaction"@
            ),
            StateError::BadSignature => "Invalid signature"@,
            StateError::InsufficientWork => "Proof has less than minimum work value"@,
            StateError::WorkReplay => "Work proof has already been redeemed"@,
            StateError::Unimplemented => "Unimplemented transaction type"@,
            StateError::BadValidatorKey => "Invalid validator public key"@,
            StateError::BadHeaderChain => "Header does not extend the stored chain"@,
        }
    }
}

} // verus!
