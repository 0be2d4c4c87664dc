use vstd::prelude::*;

use crate::keys::PublicKey;

verus! {

/// The signed part of a transfer: who receives, and how much.
#[derive(Clone, Copy, Debug)]
pub struct ThinTransaction {
    /// User receiving the amount.
    pub recipient: PublicKey,
    /// How much asset to send.
    pub amount: u64,
}

/// Processing status of a transaction.
#[derive(Clone, Copy, Debug, PartialEq, Eq, Structural)]
pub enum TransactionState {
    /// Waiting for network confirmation.
    Pending,
    /// Processed, committed.
    Success,
    /// Unable to process it.
    Failure,
}

/// A transaction as the node records it.
#[derive(Clone, Copy, Debug)]
pub struct FullTransaction {
    /// When the transaction was stored, in milliseconds since the Unix epoch.
    pub timestamp: i64,
    /// User sending it.
    pub sender: PublicKey,
    /// Sender sequence number.
    pub sender_sequence: u64,
    /// User receiving it.
    pub recipient: PublicKey,
    /// How much asset to send.
    pub amount: u64,
    /// Processing status.
    pub state: TransactionState,
}

impl FullTransaction {
    /// Whether this record is the one of `(sender, sender_sequence)`.
    pub open spec fn has_key(&self, sender: Seq<u8>, sender_sequence: u64) -> bool {
        self.sender@ == sender && self.sender_sequence == sender_sequence
    }

    /// This record with its state replaced.
    pub open spec fn with_state(self, state: TransactionState) -> FullTransaction {
        FullTransaction {
            timestamp: self.timestamp,
            sender: self.sender,
            sender_sequence: self.sender_sequence,
            recipient: self.recipient,
            amount: self.amount,
            state,
        }
    }
}

impl TransactionState {
    /// The number that stands for a state on the wire.
    pub open spec fn spec_wire(self) -> i32 {
        match self {
            TransactionState::Pending => 0,
            TransactionState::Success => 1,
            TransactionState::Failure => 2,
        }
    }

    /// The state that a wire number stands for, if any.
    pub open spec fn spec_from_wire(value: i32) -> Option<TransactionState> {
        if value == 0 {
            Some(TransactionState::Pending)
        } else if value == 1 {
            Some(TransactionState::Success)
        } else if value == 2 {
            Some(TransactionState::Failure)
        } else {
            None
        }
    }

    /// Encode this state for the wire.
    pub fn to_wire(&self) -> (r: i32)
        ensures
            r == self.spec_wire(),
    {
        match self {
            TransactionState::Pending => 0,
            TransactionState::Success => 1,
            TransactionState::Failure => 2,
        }
    }

    /// Decode a state from the wire; `None` for a number that stands for no
    /// state.
    pub fn from_wire(value: i32) -> (r: Option<TransactionState>)
        ensures
            r == Self::spec_from_wire(value),
    {
        if value == 0 {
            Some(TransactionState::Pending)
        } else if value == 1 {
            Some(TransactionState::Success)
        } else if value == 2 {
            Some(TransactionState::Failure)
        } else {
            None
        }
    }
}

/// Decoding the wire number of a state gives that state back, and a number
/// decodes to a state iff it is the number of that state.
pub proof fn lemma_state_wire_round_trip(state: TransactionState, value: i32)
    ensures
        TransactionState::spec_from_wire(state.spec_wire()) == Some(state),
        TransactionState::spec_from_wire(value) matches Some(s) ==> s.spec_wire() == value,
{
}

} // verus!
