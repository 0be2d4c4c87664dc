use vstd::prelude::*;

use crate::account::{self, Account, INITIAL_BALANCE};
use crate::keys::{same_bytes, PublicKey};

verus! {

/// Why a ledger operation failed.
#[derive(Clone, Copy, Debug, PartialEq, Eq, Structural)]
pub enum Error {
    /// The account refused the change.
    AccountModification { source: account::Error },
    /// The agent owning the ledger is gone (command not delivered).
    GoneOnSend,
    /// The agent owning the ledger is gone (reply not received).
    GoneOnRecv,
}

/// The ledger: every account that was referenced so far, by owner key.
/// An account that was never referenced reads as a fresh one.
pub struct Accounts {
    entries: Vec<(PublicKey, Account)>,
    model: Ghost<Map<Seq<u8>, Account>>,
}

impl View for Accounts {
    type V = Map<Seq<u8>, Account>;

    closed spec fn view(&self) -> Map<Seq<u8>, Account> {
        self.model@
    }
}

impl Accounts {
    /// Each stored entry is in the model under its key, each key of the
    /// model is stored, and no key is stored twice.
    pub closed spec fn wf(&self) -> bool {
        &&& forall|i: int|
            0 <= i < self.entries@.len() ==> {
                &&& #[trigger] self.model@.contains_key(self.entries@[i].0@)
                &&& self.model@[self.entries@[i].0@] == self.entries@[i].1
            }
        &&& forall|k: Seq<u8>|
            #[trigger] self.model@.contains_key(k) ==> exists|i: int|
                0 <= i < self.entries@.len() && self.entries@[i].0@ == k
        &&& forall|i: int, j: int|
            0 <= i < j < self.entries@.len() ==> self.entries@[i].0@ != self.entries@[j].0@
    }

    /// Balance of `user`, a fresh account's when it was never referenced.
    pub open spec fn balance_of(&self, user: Seq<u8>) -> u64 {
        if self@.contains_key(user) {
            self@[user].spec_balance()
        } else {
            INITIAL_BALANCE
        }
    }

    /// Last sequence consumed by `user`, zero when it was never referenced.
    pub open spec fn sequence_of(&self, user: Seq<u8>) -> u64 {
        if self@.contains_key(user) {
            self@[user].spec_last_sequence()
        } else {
            0
        }
    }

    /// What a transfer returns on this ledger.
    pub open spec fn transfer_result(
        &self,
        sender: Seq<u8>,
        sender_sequence: u64,
        receiver: Seq<u8>,
        amount: u64,
    ) -> Result<(), Error> {
        if sender_sequence as int != self.sequence_of(sender) as int + 1 {
            Err(Error::AccountModification { source: account::Error::InconsecutiveSequence })
        } else if sender == receiver {
            Ok(())
        } else if amount > self.balance_of(sender) {
            Err(Error::AccountModification { source: account::Error::Underflow })
        } else if self.balance_of(receiver) + amount > u64::MAX {
            Err(Error::AccountModification { source: account::Error::Overflow })
        } else {
            Ok(())
        }
    }

    /// How a transfer of `amount` from `sender` to `receiver` with
    /// `sender_sequence` relates the ledger before (`pre`) and after (`post`)
    /// it, and what it returns (`r`).
    pub open spec fn transferred(
        pre: Accounts,
        post: Accounts,
        sender: Seq<u8>,
        sender_sequence: u64,
        receiver: Seq<u8>,
        amount: u64,
        r: Result<(), Error>,
    ) -> bool {
        let next = sender_sequence as int == pre.sequence_of(sender) as int + 1;
        let moved = r is Ok && sender != receiver;
        &&& r == pre.transfer_result(sender, sender_sequence, receiver, amount)
        // the sender's sequence is consumed iff it is the next one
        &&& next ==> post.sequence_of(sender) == sender_sequence
        &&& !next ==> post.sequence_of(sender) == pre.sequence_of(sender)
        // no other account's sequence moves, the receiver's included
        &&& forall|k: Seq<u8>| k != sender ==> #[trigger] post.sequence_of(k) == pre.sequence_of(k)
        // balances move only on success between distinct accounts
        &&& moved ==> post.balance_of(sender) == pre.balance_of(sender) - amount
        &&& moved ==> post.balance_of(receiver) == pre.balance_of(receiver) + amount
        &&& !moved ==> forall|k: Seq<u8>| #[trigger] post.balance_of(k) == pre.balance_of(k)
        &&& forall|k: Seq<u8>|
            k != sender && k != receiver ==> #[trigger] post.balance_of(k) == pre.balance_of(k)
        // the ledger only grows
        &&& forall|k: Seq<u8>| pre@.contains_key(k) ==> #[trigger] post@.contains_key(k)
    }

    /// An empty ledger.
    pub fn new() -> (r: Accounts)
        ensures
            r.wf(),
            r@ == Map::<Seq<u8>, Account>::empty(),
    {
        Accounts { entries: Vec::new(), model: Ghost(Map::empty()) }
    }

    /// Position of `user` among the stored entries.
    fn find(&self, user: &PublicKey) -> (r: Option<usize>)
        requires
            self.wf(),
        ensures
            match r {
                Some(i) => {
                    &&& i < self.entries@.len()
                    &&& self.entries@[i as int].0@ == user@
                    &&& self@.contains_key(user@)
                    &&& self@[user@] == self.entries@[i as int].1
                },
                None => !self@.contains_key(user@),
            },
    {
        let mut i: usize = 0;
        while i < self.entries.len()
            invariant
                self.wf(),
                0 <= i <= self.entries@.len(),
                forall|j: int| 0 <= j < i ==> self.entries@[j].0@ != user@,
            decreases self.entries@.len() - i,
        {
            if same_bytes(&self.entries[i].0.bytes, &user.bytes) {
                assert(self.model@.contains_key(self.entries@[i as int].0@));
                return Some(i);
            }
            i = i + 1;
        }
        None
    }

    /// The stored account of `user`, or a fresh one.
    fn account_of(&self, user: &PublicKey) -> (r: Account)
        requires
            self.wf(),
        ensures
            r.spec_balance() == self.balance_of(user@),
            r.spec_last_sequence() == self.sequence_of(user@),
    {
        match self.find(user) {
            Some(i) => self.entries[i].1,
            None => Account::new(),
        }
    }

    /// Store `account` under `user`.
    fn store(&mut self, user: PublicKey, account: Account)
        requires
            old(self).wf(),
        ensures
            final(self).wf(),
            final(self)@ == old(self)@.insert(user@, account),
    {
        let ghost old_model = self.model@;
        match self.find(&user) {
            Some(i) => {
                self.entries.set(i, (user, account));
                self.model = Ghost(old_model.insert(user@, account));
                assert forall|k: Seq<u8>| #[trigger] self.model@.contains_key(k) implies exists|
                    j: int,
                | 0 <= j < self.entries@.len() && self.entries@[j].0@ == k by {
                    if k != user@ {
                        let j = choose|j: int|
                            0 <= j < old(self).entries@.len() && old(self).entries@[j].0@ == k;
                        assert(self.entries@[j].0@ == k);
                    } else {
                        assert(self.entries@[i as int].0@ == k);
                    }
                }
                assert forall|j: int| 0 <= j < self.entries@.len() implies {
                    &&& #[trigger] self.model@.contains_key(self.entries@[j].0@)
                    &&& self.model@[self.entries@[j].0@] == self.entries@[j].1
                } by {
                    if j != i {
                        assert(old(self).entries@[j].0@ != old(self).entries@[i as int].0@);
                    }
                }
            },
            None => {
                self.entries.push((user, account));
                self.model = Ghost(old_model.insert(user@, account));
                assert forall|k: Seq<u8>| #[trigger] self.model@.contains_key(k) implies exists|
                    j: int,
                | 0 <= j < self.entries@.len() && self.entries@[j].0@ == k by {
                    if k != user@ {
                        let j = choose|j: int|
                            0 <= j < old(self).entries@.len() && old(self).entries@[j].0@ == k;
                        assert(self.entries@[j].0@ == k);
                    } else {
                        assert(self.entries@[old(self).entries@.len() as int].0@ == k);
                    }
                }
                assert forall|j: int| 0 <= j < old(self).entries@.len() implies
                    self.entries@[j].0@ != user@ by {
                    assert(old(self).model@.contains_key(old(self).entries@[j].0@));
                }
            },
        }
    }

    /// Transfer `amount` from `sender` to `receiver`, both materialised on
    /// first reference. It fails without any effect when `sender_sequence`
    /// does not follow the sender's last one. Otherwise the sequence is
    /// consumed, whatever comes of the balances: an underflow at the sender
    /// or an overflow at the receiver leaves both balances unchanged. A
    /// transfer to oneself moves nothing.
    pub fn transfer(
        &mut self,
        sender: PublicKey,
        sender_sequence: u64,
        receiver: PublicKey,
        amount: u64,
    ) -> (r: Result<(), Error>)
        requires
            old(self).wf(),
        ensures
            final(self).wf(),
            Self::transferred(*old(self), *final(self), sender@, sender_sequence, receiver@, amount, r),
    {
        if same_bytes(&sender.bytes, &receiver.bytes) {
            let mut account = self.account_of(&sender);
            let res = account.debit(sender_sequence, 0);
            self.store(sender, account);
            match res {
                Ok(()) => Ok(()),
                Err(e) => Err(Error::AccountModification { source: e }),
            }
        } else {
            let mut sender_account = self.account_of(&sender);
            let receiver_account = self.account_of(&receiver);
            let unchanged_sender = sender_account;
            match sender_account.debit(sender_sequence, amount) {
                Ok(()) => {},
                Err(e) => {
                    self.store(sender, sender_account);
                    return Err(Error::AccountModification { source: e });
                },
            }
            let mut credited = receiver_account;
            match credited.credit(amount) {
                Ok(()) => {
                    self.store(sender, sender_account);
                    self.store(receiver, credited);
                    Ok(())
                },
                Err(e) => {
                    let mut consumed = unchanged_sender;
                    let _ = consumed.debit(sender_sequence, 0);
                    self.store(sender, consumed);
                    Err(Error::AccountModification { source: e })
                },
            }
        }
    }

    /// Return the balance of the given user.
    pub fn get_balance(&self, user: &PublicKey) -> (r: u64)
        requires
            self.wf(),
        ensures
            r == self.balance_of(user@),
    {
        self.account_of(user).balance()
    }

    /// Return the last sequence used by this user.
    pub fn get_last_sequence(&self, user: &PublicKey) -> (r: u64)
        requires
            self.wf(),
        ensures
            r == self.sequence_of(user@),
    {
        self.account_of(user).last_sequence()
    }
}

/// Whether a transfer's result shows that its sequence was consumed: every
/// result but the refusal of an inconsecutive sequence.
pub open spec fn consumed(r: Result<(), Error>) -> bool {
    r != Err::<(), Error>(Error::AccountModification { source: account::Error::InconsecutiveSequence })
}

/// No account's last sequence ever decreases across a transfer.
pub proof fn lemma_sequence_monotone(
    pre: Accounts,
    post: Accounts,
    sender: Seq<u8>,
    sender_sequence: u64,
    receiver: Seq<u8>,
    amount: u64,
    r: Result<(), Error>,
)
    requires
        Accounts::transferred(pre, post, sender, sender_sequence, receiver, amount, r),
    ensures
        forall|k: Seq<u8>| #[trigger] post.sequence_of(k) >= pre.sequence_of(k),
{
}

/// A successful debit advances the sender's last sequence by exactly one.
pub proof fn lemma_consecutive_debit(
    pre: Accounts,
    post: Accounts,
    sender: Seq<u8>,
    sender_sequence: u64,
    receiver: Seq<u8>,
    amount: u64,
    r: Result<(), Error>,
)
    requires
        Accounts::transferred(pre, post, sender, sender_sequence, receiver, amount, r),
        r is Ok,
    ensures
        post.sequence_of(sender) == pre.sequence_of(sender) + 1,
        post.sequence_of(sender) == sender_sequence,
{
}

/// A successful transfer between two distinct accounts takes `amount` from
/// the sender and gives it to the receiver.
pub proof fn lemma_conservation(
    pre: Accounts,
    post: Accounts,
    sender: Seq<u8>,
    sender_sequence: u64,
    receiver: Seq<u8>,
    amount: u64,
    r: Result<(), Error>,
)
    requires
        Accounts::transferred(pre, post, sender, sender_sequence, receiver, amount, r),
        r is Ok,
        sender != receiver,
    ensures
        post.balance_of(sender) == pre.balance_of(sender) - amount,
        post.balance_of(receiver) == pre.balance_of(receiver) + amount,
        post.balance_of(sender) + post.balance_of(receiver) == pre.balance_of(sender)
            + pre.balance_of(receiver),
{
}

/// A transfer to oneself keeps every balance, and advances the sender's last
/// sequence by one when it succeeds.
pub proof fn lemma_self_transfer_neutral(
    pre: Accounts,
    post: Accounts,
    sender: Seq<u8>,
    sender_sequence: u64,
    amount: u64,
    r: Result<(), Error>,
)
    requires
        Accounts::transferred(pre, post, sender, sender_sequence, sender, amount, r),
    ensures
        forall|k: Seq<u8>| #[trigger] post.balance_of(k) == pre.balance_of(k),
        r is Ok <==> sender_sequence as int == pre.sequence_of(sender) as int + 1,
        r is Ok ==> post.sequence_of(sender) == pre.sequence_of(sender) + 1,
{
}

/// Whether `states` is a run of the ledger through the transfers `ops`
/// (sender, sequence, receiver, amount), which returned `results`.
pub open spec fn is_run(
    states: Seq<Accounts>,
    ops: Seq<(Seq<u8>, u64, Seq<u8>, u64)>,
    results: Seq<Result<(), Error>>,
) -> bool {
    &&& states.len() == ops.len() + 1
    &&& results.len() == ops.len()
    &&& forall|i: int|
        0 <= i < ops.len() ==> #[trigger] Accounts::transferred(
            states[i],
            states[i + 1],
            ops[i].0,
            ops[i].1,
            ops[i].2,
            ops[i].3,
            results[i],
        )
}

proof fn lemma_run_monotone(
    states: Seq<Accounts>,
    ops: Seq<(Seq<u8>, u64, Seq<u8>, u64)>,
    results: Seq<Result<(), Error>>,
    user: Seq<u8>,
    i: int,
    j: int,
)
    requires
        is_run(states, ops, results),
        0 <= i <= j < states.len(),
    ensures
        states[i].sequence_of(user) <= states[j].sequence_of(user),
    decreases j - i,
{
    if i < j {
        let k = j - 1;
        lemma_run_monotone(states, ops, results, user, i, k);
        assert(Accounts::transferred(
            states[k],
            states[k + 1],
            ops[k].0,
            ops[k].1,
            ops[k].2,
            ops[k].3,
            results[k],
        ));
    }
}

/// Along any run of the ledger, the transfers of one sender that consume
/// their sequence do so in strictly increasing sequence order, each one
/// directly after the sender's previous last sequence.
pub proof fn lemma_source_fifo(
    states: Seq<Accounts>,
    ops: Seq<(Seq<u8>, u64, Seq<u8>, u64)>,
    results: Seq<Result<(), Error>>,
)
    requires
        is_run(states, ops, results),
    ensures
        forall|i: int|
            0 <= i < ops.len() && consumed(#[trigger] results[i]) ==> ops[i].1 as int
                == states[i].sequence_of(ops[i].0) as int + 1,
        forall|i: int, j: int|
            0 <= i < j < ops.len() && ops[i].0 == ops[j].0 && consumed(#[trigger] results[i])
                && consumed(#[trigger] results[j]) ==> ops[i].1 < ops[j].1,
{
    assert forall|i: int|
        0 <= i < ops.len() && consumed(#[trigger] results[i]) implies ops[i].1 as int
            == states[i].sequence_of(ops[i].0) as int + 1 by {
        assert(Accounts::transferred(
            states[i],
            states[i + 1],
            ops[i].0,
            ops[i].1,
            ops[i].2,
            ops[i].3,
            results[i],
        ));
    }
    assert forall|i: int, j: int|
        0 <= i < j < ops.len() && ops[i].0 == ops[j].0 && consumed(#[trigger] results[i])
            && consumed(#[trigger] results[j]) implies ops[i].1 < ops[j].1 by {
        assert(Accounts::transferred(
            states[i],
            states[i + 1],
            ops[i].0,
            ops[i].1,
            ops[i].2,
            ops[i].3,
            results[i],
        ));
        assert(Accounts::transferred(
            states[j],
            states[j + 1],
            ops[j].0,
            ops[j].1,
            ops[j].2,
            ops[j].3,
            results[j],
        ));
        lemma_run_monotone(states, ops, results, ops[i].0, i + 1, j);
    }
}

} // verus!
