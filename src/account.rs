use vstd::prelude::*;

verus! {

/// Balance that an account holds when it is first referenced.
pub const INITIAL_BALANCE: u64 = 100000;

/// Why a change to an account was refused.
#[derive(Clone, Copy, Debug, PartialEq, Eq, Structural)]
pub enum Error {
    /// The debited sequence does not follow the last one used.
    InconsecutiveSequence,
    /// The credit would exceed the largest representable balance.
    Overflow,
    /// The debit exceeds the balance.
    Underflow,
}

/// The balance and the latest processed sequence of one user.
#[derive(Clone, Copy, Debug)]
pub struct Account {
    last_sequence: u64,
    balance: u64,
}

impl Account {
    /// Last sequence consumed by a debit of this account.
    pub closed spec fn spec_last_sequence(&self) -> u64 {
        self.last_sequence
    }

    /// Amount owned by this account.
    pub closed spec fn spec_balance(&self) -> u64 {
        self.balance
    }

    /// Whether `sequence` is the one a debit must carry next.
    pub open spec fn is_next_sequence(&self, sequence: u64) -> bool {
        sequence as int == self.spec_last_sequence() as int + 1
    }

    /// A fresh account: no sequence used yet, and the initial balance.
    pub fn new() -> (r: Account)
        ensures
            r.spec_last_sequence() == 0,
            r.spec_balance() == INITIAL_BALANCE,
    {
        Account { last_sequence: 0, balance: INITIAL_BALANCE }
    }

    /// Add `amount` to the balance; the sequence is left as it is.
    pub fn credit(&mut self, amount: u64) -> (r: Result<(), Error>)
        ensures
            final(self).spec_last_sequence() == old(self).spec_last_sequence(),
            old(self).spec_balance() + amount <= u64::MAX ==> {
                &&& r is Ok
                &&& final(self).spec_balance() == old(self).spec_balance() + amount
            },
            old(self).spec_balance() + amount > u64::MAX ==> {
                &&& r == Err::<(), Error>(Error::Overflow)
                &&& final(self).spec_balance() == old(self).spec_balance()
            },
    {
        match self.balance.checked_add(amount) {
            Some(b) => {
                self.balance = b;
                Ok(())
            },
            None => Err(Error::Overflow),
        }
    }

    /// Remove `amount` from the balance, iff `sequence` follows the last one
    /// used. A consecutive sequence is consumed even when the balance is
    /// too small.
    pub fn debit(&mut self, sequence: u64, amount: u64) -> (r: Result<(), Error>)
        ensures
            !old(self).is_next_sequence(sequence) ==> {
                &&& r == Err::<(), Error>(Error::InconsecutiveSequence)
                &&& *final(self) == *old(self)
            },
            old(self).is_next_sequence(sequence) ==> final(self).spec_last_sequence() == sequence,
            old(self).is_next_sequence(sequence) && amount <= old(self).spec_balance() ==> {
                &&& r is Ok
                &&& final(self).spec_balance() == old(self).spec_balance() - amount
            },
            old(self).is_next_sequence(sequence) && amount > old(self).spec_balance() ==> {
                &&& r == Err::<(), Error>(Error::Underflow)
                &&& final(self).spec_balance() == old(self).spec_balance()
            },
    {
        if self.last_sequence == u64::MAX || self.last_sequence + 1 != sequence {
            return Err(Error::InconsecutiveSequence);
        }
        self.last_sequence = sequence;
        match self.balance.checked_sub(amount) {
            Some(b) => {
                self.balance = b;
                Ok(())
            },
            None => Err(Error::Underflow),
        }
    }

    /// Return the last used sequence.
    pub fn last_sequence(&self) -> (r: u64)
        ensures
            r == self.spec_last_sequence(),
    {
        self.last_sequence
    }

    /// Return the owned amount.
    pub fn balance(&self) -> (r: u64)
        ensures
            r == self.spec_balance(),
    {
        self.balance
    }
}

} // verus!
