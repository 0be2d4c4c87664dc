use std::collections::VecDeque;

use vstd::prelude::*;

use crate::keys::{same_bytes, PublicKey};
use crate::transaction::{FullTransaction, ThinTransaction, TransactionState};

verus! {

/// How many transactions the log keeps.
pub const LATEST_TRANSACTIONS_MAX_SIZE: usize = 10;

/// Why a log operation failed.
#[derive(Clone, Copy, Debug, PartialEq, Eq, Structural)]
pub enum Error {
    /// The agent owning the log is gone (command not delivered).
    GoneOnSend,
    /// The agent owning the log is gone (reply not received).
    GoneOnRecv,
    /// A transaction with this sender and sequence is already in the log.
    PutAlreadyExisting,
}

/// Relies on chrono's `Utc::now`: the current time, in milliseconds since the
/// Unix epoch (via `DateTime::timestamp_millis`). Nothing is promised of the
/// value.
#[verifier::external_body]
fn now_millis() -> (r: i64) {
    chrono::Utc::now().timestamp_millis()
}

/// Whether `log` holds a record of `(sender, sender_sequence)`.
pub open spec fn contains_key(log: Seq<FullTransaction>, sender: Seq<u8>, sender_sequence: u64) -> bool {
    exists|i: int| 0 <= i < log.len() && #[trigger] log[i].has_key(sender, sender_sequence)
}

/// `log` with its oldest record dropped when it is full.
pub open spec fn make_room(log: Seq<FullTransaction>) -> Seq<FullTransaction> {
    if log.len() >= LATEST_TRANSACTIONS_MAX_SIZE {
        log.drop_first()
    } else {
        log
    }
}

/// A new pending record.
pub open spec fn pending_record(
    sender: PublicKey,
    sender_sequence: u64,
    thin: ThinTransaction,
    timestamp: i64,
) -> FullTransaction {
    FullTransaction {
        timestamp,
        sender,
        sender_sequence,
        recipient: thin.recipient,
        amount: thin.amount,
        state: TransactionState::Pending,
    }
}

/// The recently submitted transactions, oldest first, at most
/// `LATEST_TRANSACTIONS_MAX_SIZE` of them, one per sender and sequence.
pub struct RecentTransactions {
    log: VecDeque<FullTransaction>,
}

impl View for RecentTransactions {
    type V = Seq<FullTransaction>;

    closed spec fn view(&self) -> Seq<FullTransaction> {
        self.log@
    }
}

impl RecentTransactions {
    /// The log is bounded and keyed by sender and sequence.
    pub open spec fn wf(&self) -> bool {
        &&& self@.len() <= LATEST_TRANSACTIONS_MAX_SIZE
        &&& forall|i: int, j: int|
            0 <= i < j < self@.len() ==> !#[trigger] self@[i].has_key(
                #[trigger] self@[j].sender@,
                self@[j].sender_sequence,
            )
    }

    /// How setting the state of `(sender, sender_sequence)` to `state`
    /// relates the log before (`pre`) and after (`post`).
    pub open spec fn updated(
        pre: Seq<FullTransaction>,
        post: Seq<FullTransaction>,
        sender: Seq<u8>,
        sender_sequence: u64,
        state: TransactionState,
    ) -> bool {
        &&& !contains_key(pre, sender, sender_sequence) ==> post == pre
        &&& forall|i: int|
            0 <= i < pre.len() && #[trigger] pre[i].has_key(sender, sender_sequence) ==> post
                == pre.update(i, pre[i].with_state(state))
    }

    /// An empty log.
    pub fn new() -> (r: RecentTransactions)
        ensures
            r.wf(),
            r@ == Seq::<FullTransaction>::empty(),
    {
        RecentTransactions { log: VecDeque::with_capacity(LATEST_TRANSACTIONS_MAX_SIZE) }
    }

    /// Position of the record of `(sender, sender_sequence)`, if any.
    fn position(&self, sender: &PublicKey, sender_sequence: u64) -> (r: Option<usize>)
        ensures
            match r {
                Some(i) => i < self@.len() && self@[i as int].has_key(sender@, sender_sequence),
                None => !contains_key(self@, sender@, sender_sequence),
            },
    {
        let mut i: usize = 0;
        while i < self.log.len()
            invariant
                0 <= i <= self@.len(),
                forall|j: int| 0 <= j < i ==> !#[trigger] self@[j].has_key(sender@, sender_sequence),
            decreases self@.len() - i,
        {
            let tx = &self.log[i];
            if tx.sender_sequence == sender_sequence && same_bytes(&tx.sender.bytes, &sender.bytes) {
                return Some(i);
            }
            i = i + 1;
        }
        None
    }

    /// Add a new pending transaction stamped with `timestamp`, evicting the
    /// oldest one when the log is full. Fails, leaving the log unchanged, if
    /// `(sender, sender_sequence)` is already there.
    pub fn put_at(
        &mut self,
        sender: PublicKey,
        sender_sequence: u64,
        thin: ThinTransaction,
        timestamp: i64,
    ) -> (r: Result<(), Error>)
        requires
            old(self).wf(),
        ensures
            final(self).wf(),
            contains_key(old(self)@, sender@, sender_sequence) ==> {
                &&& r == Err::<(), Error>(Error::PutAlreadyExisting)
                &&& final(self)@ == old(self)@
            },
            !contains_key(old(self)@, sender@, sender_sequence) ==> {
                &&& r is Ok
                &&& final(self)@ == make_room(old(self)@).push(
                    pending_record(sender, sender_sequence, thin, timestamp),
                )
            },
    {
        if self.position(&sender, sender_sequence).is_some() {
            return Err(Error::PutAlreadyExisting);
        }
        let full = FullTransaction {
            timestamp,
            sender,
            sender_sequence,
            recipient: thin.recipient,
            amount: thin.amount,
            state: TransactionState::Pending,
        };
        if self.log.len() == LATEST_TRANSACTIONS_MAX_SIZE {
            self.log.pop_front();
        }
        let ghost kept = self@;
        self.log.push_back(full);
        assert forall|i: int, j: int|
            0 <= i < j < self@.len() implies !#[trigger] self@[i].has_key(
            #[trigger] self@[j].sender@,
            self@[j].sender_sequence,
        ) by {
            if j == self@.len() - 1 {
                assert(kept[i] == old(self)@[i + old(self)@.len() - kept.len()]);
            } else {
                assert(kept[i] == old(self)@[i + old(self)@.len() - kept.len()]);
                assert(kept[j] == old(self)@[j + old(self)@.len() - kept.len()]);
            }
        }
        Ok(())
    }

    /// Add a new pending transaction stamped with the current time, as
    /// `put_at` does.
    pub fn put(&mut self, sender: PublicKey, sender_sequence: u64, thin: ThinTransaction) -> (r:
        Result<(), Error>)
        requires
            old(self).wf(),
        ensures
            final(self).wf(),
            contains_key(old(self)@, sender@, sender_sequence) ==> {
                &&& r == Err::<(), Error>(Error::PutAlreadyExisting)
                &&& final(self)@ == old(self)@
            },
            !contains_key(old(self)@, sender@, sender_sequence) ==> {
                &&& r is Ok
                &&& final(self)@ == make_room(old(self)@).push(
                    pending_record(sender, sender_sequence, thin, final(self)@.last().timestamp),
                )
            },
    {
        let timestamp = now_millis();
        self.put_at(sender, sender_sequence, thin, timestamp)
    }

    /// Set the state of the record of `(sender, sender_sequence)`; nothing
    /// happens when it is not in the log (it may have been evicted).
    pub fn update(&mut self, sender: PublicKey, sender_sequence: u64, state: TransactionState)
        requires
            old(self).wf(),
        ensures
            final(self).wf(),
            Self::updated(old(self)@, final(self)@, sender@, sender_sequence, state),
    {
        match self.position(&sender, sender_sequence) {
            None => {},
            Some(i) => {
                let tx = self.log[i];
                let updated = FullTransaction {
                    timestamp: tx.timestamp,
                    sender: tx.sender,
                    sender_sequence: tx.sender_sequence,
                    recipient: tx.recipient,
                    amount: tx.amount,
                    state,
                };
                self.log.remove(i);
                self.log.insert(i, updated);
                assert(self@ =~= old(self)@.update(i as int, old(self)@[i as int].with_state(state)));
                assert forall|j: int|
                    0 <= j < old(self)@.len() && #[trigger] old(self)@[j].has_key(
                        sender@,
                        sender_sequence,
                    ) implies j == i by {
                    if j < i {
                        assert(!old(self)@[j].has_key(
                            old(self)@[i as int].sender@,
                            old(self)@[i as int].sender_sequence,
                        ));
                    } else if j > i {
                        assert(!old(self)@[i as int].has_key(
                            old(self)@[j].sender@,
                            old(self)@[j].sender_sequence,
                        ));
                    }
                }
                assert forall|a: int, b: int|
                    0 <= a < b < self@.len() implies !#[trigger] self@[a].has_key(
                    #[trigger] self@[b].sender@,
                    self@[b].sender_sequence,
                ) by {
                    assert(!old(self)@[a].has_key(old(self)@[b].sender@, old(self)@[b].sender_sequence));
                }
            },
        }
    }

    /// The recorded transactions, oldest first.
    pub fn get_all(&self) -> (r: Vec<FullTransaction>)
        ensures
            r@ == self@,
    {
        let mut out: Vec<FullTransaction> = Vec::new();
        let mut i: usize = 0;
        while i < self.log.len()
            invariant
                0 <= i <= self@.len(),
                out@ == self@.subrange(0, i as int),
            decreases self@.len() - i,
        {
            out.push(self.log[i]);
            i = i + 1;
            assert(out@ =~= self@.subrange(0, i as int));
        }
        assert(out@ =~= self@);
        out
    }
}

} // verus!
