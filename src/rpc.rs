use vstd::prelude::*;

use crate::account;
use crate::accounts::{self, Accounts};
use crate::keys::{bytes_less, lex_lt, lemma_lex_irreflexive, lemma_lex_total, lemma_lex_transitive, same_bytes, PublicKey};
use crate::payload::Payload;
use crate::recent_transactions::{self, RecentTransactions};
use crate::transaction::{FullTransaction, ThinTransaction, TransactionState};

verus! {

/// How long a delivered transaction may wait for its predecessors, in
/// milliseconds.
pub const TRANSACTION_TTL_MILLIS: u64 = 60000;

/// Why a delivered transaction could not be processed.
#[derive(Clone, Copy, Debug, PartialEq, Eq, Structural)]
pub enum ProcessTransactionError {
    /// The ledger refused it.
    ProcessTxForAccounts { source: accounts::Error },
    /// The recent transactions log refused it.
    ProcessTxForRecent { source: recent_transactions::Error },
}

/// A delivered transaction waiting to be applied to the ledger.
#[derive(Clone, Copy, Debug)]
pub struct Delivery {
    pub sequence: u64,
    pub sender: PublicKey,
    pub transaction: ThinTransaction,
    /// When it was delivered, in milliseconds on the node's clock.
    pub received_at: u64,
}

/// What became of a delivered transaction that left the queue.
#[derive(Clone, Copy, Debug)]
pub struct Outcome {
    pub delivery: Delivery,
    pub state: TransactionState,
}

/// Whether `d` waited longer than the time to live, at time `now`.
pub open spec fn is_expired(d: Delivery, now: u64) -> bool {
    now as int - d.received_at as int > TRANSACTION_TTL_MILLIS as int
}

/// Whether `a` comes before `b` in queue order: by sequence, then sender
/// key, then recipient key, then amount.
pub open spec fn key_lt(a: Delivery, b: Delivery) -> bool {
    ||| a.sequence < b.sequence
    ||| a.sequence == b.sequence && lex_lt(a.sender@, b.sender@)
    ||| a.sequence == b.sequence && a.sender@ == b.sender@ && lex_lt(
        a.transaction.recipient@,
        b.transaction.recipient@,
    )
    ||| a.sequence == b.sequence && a.sender@ == b.sender@ && a.transaction.recipient@
        == b.transaction.recipient@ && a.transaction.amount < b.transaction.amount
}

/// Whether `a` and `b` have the same place in queue order.
pub open spec fn key_eq(a: Delivery, b: Delivery) -> bool {
    &&& a.sequence == b.sequence
    &&& a.sender@ == b.sender@
    &&& a.transaction.recipient@ == b.transaction.recipient@
    &&& a.transaction.amount == b.transaction.amount
}

pub open spec fn key_le(a: Delivery, b: Delivery) -> bool {
    key_lt(a, b) || key_eq(a, b)
}

/// Whether the deliveries are in queue order.
pub open spec fn sorted_by_key(s: Seq<Delivery>) -> bool {
    forall|i: int, j: int| 0 <= i < j < s.len() ==> key_le(s[i], s[j])
}

proof fn lemma_key_total(a: Delivery, b: Delivery)
    requires
        !key_lt(a, b),
    ensures
        key_le(b, a),
{
    lemma_lex_irreflexive(a.sender@);
    lemma_lex_irreflexive(a.transaction.recipient@);
    if a.sequence == b.sequence {
        if a.sender@ != b.sender@ {
            lemma_lex_total(a.sender@, b.sender@);
        } else if a.transaction.recipient@ != b.transaction.recipient@ {
            lemma_lex_total(a.transaction.recipient@, b.transaction.recipient@);
        }
    }
}

proof fn lemma_key_lt_le(a: Delivery, b: Delivery, c: Delivery)
    requires
        key_lt(a, b),
        key_le(b, c),
    ensures
        key_lt(a, c),
{
    if key_lt(b, c) && a.sequence == b.sequence && b.sequence == c.sequence {
        if lex_lt(a.sender@, b.sender@) && lex_lt(b.sender@, c.sender@) {
            lemma_lex_transitive(a.sender@, b.sender@, c.sender@);
        }
        if a.sender@ == b.sender@ && b.sender@ == c.sender@ && lex_lt(
            a.transaction.recipient@,
            b.transaction.recipient@,
        ) && lex_lt(b.transaction.recipient@, c.transaction.recipient@) {
            lemma_lex_transitive(
                a.transaction.recipient@,
                b.transaction.recipient@,
                c.transaction.recipient@,
            );
        }
    }
}

/// What handling `d` once against `ledger` at time `now` ends in: `None`
/// when the ledger wants an earlier sequence of the sender first, so that
/// `d` stays queued; otherwise the state the delivery ends in. An expired
/// delivery fails without reaching the ledger; any other one succeeds iff
/// its transfer does.
pub open spec fn step_state(ledger: Accounts, d: Delivery, now: u64) -> Option<TransactionState> {
    if is_expired(d, now) {
        Some(TransactionState::Failure)
    } else {
        match ledger.transfer_result(
            d.sender@,
            d.sequence,
            d.transaction.recipient@,
            d.transaction.amount,
        ) {
            Ok(()) => Some(TransactionState::Success),
            Err(
                accounts::Error::AccountModification {
                    source: account::Error::InconsecutiveSequence,
                },
            ) => None,
            Err(_) => Some(TransactionState::Failure),
        }
    }
}

/// How handling `d` once relates the ledger (`l0` to `l1`) and the log
/// (`g0` to `g1`): an expired delivery leaves the ledger as it is, any other
/// one is transferred by the ledger; the log records the state it ends in,
/// and is left as it is when it stays queued.
pub open spec fn handled(
    l0: Accounts,
    l1: Accounts,
    g0: Seq<FullTransaction>,
    g1: Seq<FullTransaction>,
    d: Delivery,
    now: u64,
) -> bool {
    &&& is_expired(d, now) ==> l1 == l0
    &&& !is_expired(d, now) ==> Accounts::transferred(
        l0,
        l1,
        d.sender@,
        d.sequence,
        d.transaction.recipient@,
        d.transaction.amount,
        l0.transfer_result(d.sender@, d.sequence, d.transaction.recipient@, d.transaction.amount),
    )
    &&& match step_state(l0, d, now) {
        Some(state) => RecentTransactions::updated(g0, g1, d.sender@, d.sequence, state),
        None => g1 == g0,
    }
}

/// Whether `ledgers` and `logs` are the states that handling `items` one
/// after the other, in this order, goes through.
pub open spec fn is_trace(
    items: Seq<Delivery>,
    ledgers: Seq<Accounts>,
    logs: Seq<Seq<FullTransaction>>,
    now: u64,
) -> bool {
    &&& ledgers.len() == items.len() + 1
    &&& logs.len() == items.len() + 1
    &&& forall|i: int|
        0 <= i < items.len() ==> #[trigger] handled(
            ledgers[i],
            ledgers[i + 1],
            logs[i],
            logs[i + 1],
            items[i],
            now,
        )
}

/// The outcomes of handling `items` from the ledgers `ledgers`, in order:
/// one for each delivery that left the queue.
pub open spec fn outcomes_of(items: Seq<Delivery>, ledgers: Seq<Accounts>, now: u64) -> Seq<Outcome>
    decreases items.len(),
{
    if items.len() == 0 {
        Seq::empty()
    } else {
        let n = items.len() - 1;
        let earlier = outcomes_of(items.drop_last(), ledgers, now);
        match step_state(ledgers[n], items[n], now) {
            Some(state) => earlier.push(Outcome { delivery: items[n], state }),
            None => earlier,
        }
    }
}

/// Whether `d` reaches the ledger from `ledger` at time `now` and consumes
/// its sequence there.
pub open spec fn reaches_ledger(ledger: Accounts, d: Delivery, now: u64) -> bool {
    !is_expired(d, now) && accounts::consumed(
        ledger.transfer_result(d.sender@, d.sequence, d.transaction.recipient@, d.transaction.amount),
    )
}

proof fn lemma_outcomes_of_prefix(
    items: Seq<Delivery>,
    ledgers: Seq<Accounts>,
    other: Seq<Accounts>,
    now: u64,
)
    requires
        ledgers.len() >= items.len(),
        other.len() >= items.len(),
        forall|i: int| 0 <= i < items.len() ==> other[i] == ledgers[i],
    ensures
        outcomes_of(items, other, now) == outcomes_of(items, ledgers, now),
    decreases items.len(),
{
    if items.len() > 0 {
        lemma_outcomes_of_prefix(items.drop_last(), ledgers, other, now);
    }
}

proof fn lemma_trace_push(
    items: Seq<Delivery>,
    ledgers: Seq<Accounts>,
    logs: Seq<Seq<FullTransaction>>,
    now: u64,
    d: Delivery,
    ledger: Accounts,
    log: Seq<FullTransaction>,
)
    requires
        is_trace(items, ledgers, logs, now),
        handled(ledgers.last(), ledger, logs.last(), log, d, now),
    ensures
        is_trace(items.push(d), ledgers.push(ledger), logs.push(log), now),
        outcomes_of(items.push(d), ledgers.push(ledger), now) == match step_state(
            ledgers.last(),
            d,
            now,
        ) {
            Some(state) => outcomes_of(items, ledgers, now).push(Outcome { delivery: d, state }),
            None => outcomes_of(items, ledgers, now),
        },
{
    let items2 = items.push(d);
    let ledgers2 = ledgers.push(ledger);
    let logs2 = logs.push(log);
    assert forall|i: int| 0 <= i < items2.len() implies #[trigger] handled(
        ledgers2[i],
        ledgers2[i + 1],
        logs2[i],
        logs2[i + 1],
        items2[i],
        now,
    ) by {
        if i < items.len() {
            assert(handled(ledgers[i], ledgers[i + 1], logs[i], logs[i + 1], items[i], now));
            assert(ledgers2[i] == ledgers[i] && ledgers2[i + 1] == ledgers[i + 1]);
            assert(logs2[i] == logs[i] && logs2[i + 1] == logs[i + 1]);
            assert(items2[i] == items[i]);
        } else {
            assert(ledgers2[i] == ledgers.last() && logs2[i] == logs.last());
        }
    }
    assert(items2.drop_last() =~= items);
    lemma_outcomes_of_prefix(items, ledgers, ledgers2, now);
}

proof fn lemma_trace_monotone(
    items: Seq<Delivery>,
    ledgers: Seq<Accounts>,
    logs: Seq<Seq<FullTransaction>>,
    now: u64,
    user: Seq<u8>,
    i: int,
    j: int,
)
    requires
        is_trace(items, ledgers, logs, now),
        0 <= i <= j < ledgers.len(),
    ensures
        ledgers[i].sequence_of(user) <= ledgers[j].sequence_of(user),
    decreases j - i,
{
    if i < j {
        let k = j - 1;
        lemma_trace_monotone(items, ledgers, logs, now, user, i, k);
        assert(handled(ledgers[k], ledgers[k + 1], logs[k], logs[k + 1], items[k], now));
        if !is_expired(items[k], now) {
            accounts::lemma_sequence_monotone(
                ledgers[k],
                ledgers[k + 1],
                items[k].sender@,
                items[k].sequence,
                items[k].transaction.recipient@,
                items[k].transaction.amount,
                ledgers[k].transfer_result(
                    items[k].sender@,
                    items[k].sequence,
                    items[k].transaction.recipient@,
                    items[k].transaction.amount,
                ),
            );
        }
    }
}

/// Along any trace of the scheduler, a delivery only reaches the ledger
/// directly after its sender's last sequence, so the deliveries of one
/// sender that reach the ledger do so in strictly increasing sequence order.
pub proof fn lemma_trace_source_fifo(
    items: Seq<Delivery>,
    ledgers: Seq<Accounts>,
    logs: Seq<Seq<FullTransaction>>,
    now: u64,
)
    requires
        is_trace(items, ledgers, logs, now),
    ensures
        forall|i: int|
            0 <= i < items.len() && #[trigger] reaches_ledger(ledgers[i], items[i], now)
                ==> items[i].sequence as int == ledgers[i].sequence_of(items[i].sender@) as int + 1
                && ledgers[i + 1].sequence_of(items[i].sender@) == items[i].sequence,
        forall|i: int, j: int|
            0 <= i < j < items.len() && items[i].sender@ == items[j].sender@
                && #[trigger] reaches_ledger(ledgers[i], items[i], now) && #[trigger] reaches_ledger(
                ledgers[j],
                items[j],
                now,
            ) ==> items[i].sequence < items[j].sequence,
{
    assert forall|i: int|
        0 <= i < items.len() && #[trigger] reaches_ledger(ledgers[i], items[i], now) implies items[i].sequence
            as int == ledgers[i].sequence_of(items[i].sender@) as int + 1 && ledgers[i + 1].sequence_of(
            items[i].sender@,
        ) == items[i].sequence by {
        assert(handled(ledgers[i], ledgers[i + 1], logs[i], logs[i + 1], items[i], now));
    }
    assert forall|i: int, j: int|
        0 <= i < j < items.len() && items[i].sender@ == items[j].sender@
            && #[trigger] reaches_ledger(ledgers[i], items[i], now) && #[trigger] reaches_ledger(
            ledgers[j],
            items[j],
            now,
        ) implies items[i].sequence < items[j].sequence by {
        assert(handled(ledgers[i], ledgers[i + 1], logs[i], logs[i + 1], items[i], now));
        assert(handled(ledgers[j], ledgers[j + 1], logs[j], logs[j + 1], items[j], now));
        lemma_trace_monotone(items, ledgers, logs, now, items[i].sender@, i + 1, j);
    }
}

/// Whether `d` is one of `s`.
pub open spec fn is_among(s: Seq<Delivery>, d: Delivery) -> bool {
    exists|j: int| 0 <= j < s.len() && #[trigger] s[j] == d
}

/// The deliveries that `batch` adds at time `now`.
pub open spec fn deliveries_of(batch: Seq<Payload>, now: u64) -> Seq<Delivery> {
    batch.map_values(
        |p: Payload|
            Delivery {
                sequence: p.sequence,
                sender: p.sender,
                transaction: p.transaction,
                received_at: now,
            },
    )
}

/// The processing pipeline of a node: the ledger, the recent transactions
/// log, and the queue of delivered transactions whose predecessors have not
/// been applied yet.
pub struct Service {
    accounts: Accounts,
    recent_transactions: RecentTransactions,
    to_process: Vec<Delivery>,
}

impl Service {
    /// The ledger.
    pub closed spec fn ledger(&self) -> Accounts {
        self.accounts
    }

    /// The recent transactions log.
    pub closed spec fn log(&self) -> RecentTransactions {
        self.recent_transactions
    }

    /// The waiting deliveries, in the order they will be tried.
    pub closed spec fn pending(&self) -> Seq<Delivery> {
        self.to_process@
    }

    /// The ledger and the log are well formed, and the waiting deliveries
    /// are in queue order.
    pub open spec fn wf(&self) -> bool {
        &&& self.ledger().wf()
        &&& self.log().wf()
        &&& sorted_by_key(self.pending())
    }

    /// A node that has seen nothing yet.
    pub fn new() -> (r: Service)
        ensures
            r.wf(),
            r.ledger()@ == Map::<Seq<u8>, account::Account>::empty(),
            r.log()@ == Seq::<FullTransaction>::empty(),
            r.pending() == Seq::<Delivery>::empty(),
    {
        Service {
            accounts: Accounts::new(),
            recent_transactions: RecentTransactions::new(),
            to_process: Vec::new(),
        }
    }

    /// Admit a transaction submitted by a client: record it as pending. On
    /// success the caller broadcasts the payload; a transaction already in
    /// the log is refused and must not be broadcast.
    pub fn send_asset(&mut self, payload: &Payload) -> (r: Result<(), recent_transactions::Error>)
        requires
            old(self).wf(),
        ensures
            final(self).wf(),
            final(self).ledger() == old(self).ledger(),
            final(self).pending() == old(self).pending(),
            recent_transactions::contains_key(old(self).log()@, payload.sender@, payload.sequence)
                ==> {
                &&& r == Err::<(), recent_transactions::Error>(
                    recent_transactions::Error::PutAlreadyExisting,
                )
                &&& final(self).log()@ == old(self).log()@
            },
            !recent_transactions::contains_key(old(self).log()@, payload.sender@, payload.sequence)
                ==> {
                &&& r is Ok
                &&& final(self).log()@ == recent_transactions::make_room(old(self).log()@).push(
                    recent_transactions::pending_record(
                        payload.sender,
                        payload.sequence,
                        payload.transaction,
                        final(self).log()@.last().timestamp,
                    ),
                )
            },
    {
        self.recent_transactions.put(payload.sender, payload.sequence, payload.transaction)
    }

    /// Return the balance of `user`.
    pub fn get_balance(&self, user: &PublicKey) -> (r: u64)
        requires
            self.wf(),
        ensures
            r == self.ledger().balance_of(user@),
    {
        self.accounts.get_balance(user)
    }

    /// Return the last sequence used by `user`.
    pub fn get_last_sequence(&self, user: &PublicKey) -> (r: u64)
        requires
            self.wf(),
        ensures
            r == self.ledger().sequence_of(user@),
    {
        self.accounts.get_last_sequence(user)
    }

    /// Return the recent transactions, oldest first.
    pub fn get_latest_transactions(&self) -> (r: Vec<FullTransaction>)
        ensures
            r@ == self.log()@,
    {
        self.recent_transactions.get_all()
    }

    /// Apply one delivered transaction to the ledger and, when it succeeds,
    /// mark it as a success in the log.
    pub fn process_payload(&mut self, sequence: u64, sender: PublicKey, payload: ThinTransaction) -> (r:
        Result<(), ProcessTransactionError>)
        requires
            old(self).wf(),
        ensures
            final(self).wf(),
            final(self).pending() == old(self).pending(),
            Accounts::transferred(
                old(self).ledger(),
                final(self).ledger(),
                sender@,
                sequence,
                payload.recipient@,
                payload.amount,
                old(self).ledger().transfer_result(sender@, sequence, payload.recipient@, payload.amount),
            ),
            r == match old(self).ledger().transfer_result(
                sender@,
                sequence,
                payload.recipient@,
                payload.amount,
            ) {
                Ok(()) => Ok::<(), ProcessTransactionError>(()),
                Err(e) => Err(ProcessTransactionError::ProcessTxForAccounts { source: e }),
            },
            r is Ok ==> RecentTransactions::updated(
                old(self).log()@,
                final(self).log()@,
                sender@,
                sequence,
                TransactionState::Success,
            ),
            r is Err ==> final(self).log()@ == old(self).log()@,
    {
        match self.accounts.transfer(sender, sequence, payload.recipient, payload.amount) {
            Ok(()) => {},
            Err(e) => return Err(ProcessTransactionError::ProcessTxForAccounts { source: e }),
        }
        self.recent_transactions.update(sender, sequence, TransactionState::Success);
        Ok(())
    }
    /// How a call of `deliver` with the deliveries `input` at time `now`
    /// relates the node before (`pre`) and after (`post`), through the trace
    /// (`items`, `ledgers`, `logs`) of the deliveries it handled in order:
    /// - the ledger and the log change only by handling those deliveries;
    /// - `outcomes` are the outcomes of the trace, in order;
    /// - every input delivery was handled, and only input deliveries were;
    /// - the queue left is the last pass, in which every delivery was
    ///   refused for its sequence, and every delivery refused earlier was
    ///   handled again later.
    pub open spec fn delivered(
        pre: Service,
        post: Service,
        input: Seq<Delivery>,
        now: u64,
        outcomes: Seq<Outcome>,
        items: Seq<Delivery>,
        ledgers: Seq<Accounts>,
        logs: Seq<Seq<FullTransaction>>,
    ) -> bool {
        let last = items.len() - post.pending().len();
        &&& is_trace(items, ledgers, logs, now)
        &&& ledgers[0] == pre.ledger()
        &&& ledgers.last() == post.ledger()
        &&& logs[0] == pre.log()@
        &&& logs.last() == post.log()@
        &&& outcomes == outcomes_of(items, ledgers, now)
        &&& forall|j: int| 0 <= j < input.len() ==> is_among(items, #[trigger] input[j])
        &&& forall|i: int| 0 <= i < items.len() ==> is_among(input, #[trigger] items[i])
        &&& 0 <= last
        &&& post.pending() == items.subrange(last, items.len() as int)
        &&& forall|i: int|
            last <= i < items.len() ==> #[trigger] step_state(ledgers[i], items[i], now) is None
        &&& forall|i: int|
            0 <= i < last && #[trigger] step_state(ledgers[i], items[i], now) is None ==> is_among(
                items.subrange(i + 1, items.len() as int),
                items[i],
            )
    }

    /// One pass over the waiting deliveries, in order, each handled once:
    /// the trace grows by them, and the deliveries refused for their
    /// sequence are kept, in order.
    fn run_pass(
        &mut self,
        pending: Vec<Delivery>,
        now: u64,
        outcomes: &mut Vec<Outcome>,
        Ghost(items): Ghost<Seq<Delivery>>,
        Ghost(ledgers): Ghost<Seq<Accounts>>,
        Ghost(logs): Ghost<Seq<Seq<FullTransaction>>>,
    ) -> (res: (Vec<Delivery>, Ghost<(Seq<Delivery>, Seq<Accounts>, Seq<Seq<FullTransaction>>)>))
        requires
            old(self).wf(),
            sorted_by_key(pending@),
            is_trace(items, ledgers, logs, now),
            ledgers.last() == old(self).ledger(),
            logs.last() == old(self).log()@,
            old(outcomes)@ == outcomes_of(items, ledgers, now),
        ensures
            final(self).wf(),
            final(self).pending() == old(self).pending(),
            is_trace(res.1@.0, res.1@.1, res.1@.2, now),
            res.1@.0 == items + pending@,
            res.1@.1[0] == ledgers[0],
            forall|k: int| 0 <= k < ledgers.len() ==> #[trigger] res.1@.1[k] == ledgers[k],
            res.1@.2[0] == logs[0],
            res.1@.1.last() == final(self).ledger(),
            res.1@.2.last() == final(self).log()@,
            final(outcomes)@ == outcomes_of(res.1@.0, res.1@.1, now),
            sorted_by_key(res.0@),
            res.0@.len() <= pending@.len(),
            forall|m: int| 0 <= m < res.0@.len() ==> is_among(pending@, #[trigger] res.0@[m]),
            forall|i: int|
                items.len() <= i < res.1@.0.len() && #[trigger] step_state(
                    res.1@.1[i],
                    res.1@.0[i],
                    now,
                ) is None ==> is_among(res.0@, res.1@.0[i]),
            res.0@.len() == pending@.len() ==> res.0@ == pending@,
            res.0@.len() == pending@.len() ==> forall|i: int|
                items.len() <= i < res.1@.0.len() ==> #[trigger] step_state(
                    res.1@.1[i],
                    res.1@.0[i],
                    now,
                ) is None,
    {
        let mut kept: Vec<Delivery> = Vec::new();
        let ghost mut cur_items = items;
        let ghost mut cur_ledgers = ledgers;
        let ghost mut cur_logs = logs;
        let mut i: usize = 0;
        assert(cur_items =~= items + pending@.subrange(0, 0));
        while i < pending.len()
            invariant
                self.wf(),
                self.pending() == old(self).pending(),
                sorted_by_key(pending@),
                0 <= i <= pending@.len(),
                kept@.len() <= i,
                sorted_by_key(kept@),
                forall|m: int, j: int|
                    0 <= m < kept@.len() && i <= j < pending@.len() ==> key_le(
                        kept@[m],
                        pending@[j],
                    ),
                forall|m: int| 0 <= m < kept@.len() ==> is_among(pending@, #[trigger] kept@[m]),
                is_trace(cur_items, cur_ledgers, cur_logs, now),
                cur_items == items + pending@.subrange(0, i as int),
                ledgers.len() == items.len() + 1,
                cur_ledgers[0] == ledgers[0],
                forall|k: int| 0 <= k < ledgers.len() ==> #[trigger] cur_ledgers[k] == ledgers[k],
                cur_logs[0] == logs[0],
                cur_ledgers.last() == self.ledger(),
                cur_logs.last() == self.log()@,
                outcomes@ == outcomes_of(cur_items, cur_ledgers, now),
                forall|k: int|
                    items.len() <= k < cur_items.len() && #[trigger] step_state(
                        cur_ledgers[k],
                        cur_items[k],
                        now,
                    ) is None ==> is_among(kept@, cur_items[k]),
                kept@.len() == i ==> kept@ == pending@.subrange(0, i as int),
                kept@.len() == i ==> forall|k: int|
                    items.len() <= k < cur_items.len() ==> #[trigger] step_state(
                        cur_ledgers[k],
                        cur_items[k],
                        now,
                    ) is None,
            decreases pending@.len() - i,
        {
            let d = pending[i];
            let ghost kept_before = kept@;
            let ghost l0 = self.ledger();
            let ghost g0 = self.log()@;
            if now >= d.received_at && now - d.received_at > TRANSACTION_TTL_MILLIS {
                self.recent_transactions.update(d.sender, d.sequence, TransactionState::Failure);
                outcomes.push(Outcome { delivery: d, state: TransactionState::Failure });
            } else {
                match self.process_payload(d.sequence, d.sender, d.transaction) {
                    Ok(()) => {
                        outcomes.push(Outcome { delivery: d, state: TransactionState::Success });
                    },
                    Err(
                        ProcessTransactionError::ProcessTxForAccounts {
                            source: accounts::Error::AccountModification {
                                source: account::Error::InconsecutiveSequence,
                            },
                        },
                    ) => {
                        kept.push(d);
                    },
                    Err(_) => {
                        self.recent_transactions.update(
                            d.sender,
                            d.sequence,
                            TransactionState::Failure,
                        );
                        outcomes.push(Outcome { delivery: d, state: TransactionState::Failure });
                    },
                }
            }
            proof {
                assert(handled(l0, self.ledger(), g0, self.log()@, d, now));
                let prev_items = cur_items;
                let prev_ledgers = cur_ledgers;
                lemma_trace_push(cur_items, cur_ledgers, cur_logs, now, d, self.ledger(), self.log()@);
                cur_items = cur_items.push(d);
                cur_ledgers = cur_ledgers.push(self.ledger());
                cur_logs = cur_logs.push(self.log()@);
                assert(cur_items =~= items + pending@.subrange(0, i + 1));
                assert(cur_ledgers[prev_items.len() as int] == l0);
                assert forall|k: int| 0 <= k < ledgers.len() implies #[trigger] cur_ledgers[k]
                    == ledgers[k] by {
                    assert(prev_items.len() >= items.len());
                    assert(prev_ledgers.len() == prev_items.len() + 1);
                    assert(prev_ledgers[k] == ledgers[k]);
                    assert(cur_ledgers[k] == prev_ledgers[k]);
                }
                assert(cur_items[prev_items.len() as int] == d);
                assert forall|k: int|
                    items.len() <= k < cur_items.len() && #[trigger] step_state(
                        cur_ledgers[k],
                        cur_items[k],
                        now,
                    ) is None implies is_among(kept@, cur_items[k]) by {
                    if k < prev_items.len() {
                        assert(cur_items[k] == prev_items[k]);
                        assert(cur_ledgers[k] == prev_ledgers[k]);
                        assert(step_state(prev_ledgers[k], prev_items[k], now) is None);
                        let w = choose|w: int| 0 <= w < kept_before.len() && kept_before[w] == prev_items[k];
                        assert(kept@[w] == prev_items[k]);
                    } else {
                        assert(kept@[kept@.len() - 1] == d);
                    }
                }
                if kept@.len() == i + 1 {
                    assert(kept@ =~= pending@.subrange(0, i + 1));
                    assert forall|k: int| items.len() <= k < cur_items.len() implies #[trigger] step_state(
                        cur_ledgers[k],
                        cur_items[k],
                        now,
                    ) is None by {
                        if k < prev_items.len() {
                            assert(cur_items[k] == prev_items[k]);
                            assert(cur_ledgers[k] == prev_ledgers[k]);
                            assert(step_state(prev_ledgers[k], prev_items[k], now) is None);
                        }
                    }
                }
                if kept@.len() > kept_before.len() {
                    assert(kept@[kept@.len() - 1] == d);
                    assert(forall|m: int| 0 <= m < kept_before.len() ==> kept@[m] == kept_before[m]);
                    assert(pending@[i as int] == d);
                }
            }
            i = i + 1;
        }
        (kept, Ghost((cur_items, cur_ledgers, cur_logs)))
    }

    /// Queue the delivered `batch`, then handle the waiting deliveries pass
    /// after pass, each pass in queue order, until a pass applies nothing.
    /// Returns what became of each delivery that left the queue.
    pub fn deliver(&mut self, batch: &Vec<Payload>, now: u64) -> (outcomes: Vec<Outcome>)
        requires
            old(self).wf(),
        ensures
            final(self).wf(),
            exists|items: Seq<Delivery>, ledgers: Seq<Accounts>, logs: Seq<Seq<FullTransaction>>|
                #[trigger] Self::delivered(
                    *old(self),
                    *final(self),
                    old(self).pending() + deliveries_of(batch@, now),
                    now,
                    outcomes@,
                    items,
                    ledgers,
                    logs,
                ),
    {
        let ghost input = old(self).pending() + deliveries_of(batch@, now);
        let mut pending: Vec<Delivery> = Vec::new();
        std::mem::swap(&mut pending, &mut self.to_process);
        assert forall|m: int| 0 <= m < pending@.len() implies is_among(input, #[trigger] pending@[m]) by {
            assert(input[m] == pending@[m]);
        }
        let mut i: usize = 0;
        while i < batch.len()
            invariant
                self.wf(),
                self.pending() == Seq::<Delivery>::empty(),
                self.ledger() == old(self).ledger(),
                self.log() == old(self).log(),
                input == old(self).pending() + deliveries_of(batch@, now),
                0 <= i <= batch@.len(),
                sorted_by_key(pending@),
                forall|m: int| 0 <= m < pending@.len() ==> is_among(input, #[trigger] pending@[m]),
                forall|j: int|
                    0 <= j < old(self).pending().len() + i ==> is_among(pending@, #[trigger] input[j]),
            decreases batch@.len() - i,
        {
            let p = batch[i];
            let d = Delivery {
                sequence: p.sequence,
                sender: p.sender,
                transaction: p.transaction,
                received_at: now,
            };
            let ghost before = pending@;
            assert(input[old(self).pending().len() + i] == d);
            insert_sorted(&mut pending, d);
            assert forall|m: int| 0 <= m < pending@.len() implies is_among(
                input,
                #[trigger] pending@[m],
            ) by {
                if pending@[m] != d {
                    let w = choose|w: int| 0 <= w < before.len() && before[w] == pending@[m];
                    assert(is_among(input, before[w]));
                }
            }
            assert forall|j: int| 0 <= j < old(self).pending().len() + i + 1 implies is_among(
                pending@,
                #[trigger] input[j],
            ) by {
                if j < old(self).pending().len() + i {
                    assert(is_among(before, input[j]));
                }
            }
            i = i + 1;
        }
        let mut outcomes: Vec<Outcome> = Vec::new();
        let ghost mut items: Seq<Delivery> = Seq::empty();
        let ghost mut ledgers: Seq<Accounts> = seq![old(self).ledger()];
        let ghost mut logs: Seq<Seq<FullTransaction>> = seq![old(self).log()@];
        assert(outcomes@ =~= outcomes_of(items, ledgers, now));
        loop
            invariant
                self.wf(),
                self.pending() == Seq::<Delivery>::empty(),
                input == old(self).pending() + deliveries_of(batch@, now),
                input.len() == old(self).pending().len() + batch@.len(),
                sorted_by_key(pending@),
                forall|m: int| 0 <= m < pending@.len() ==> is_among(input, #[trigger] pending@[m]),
                is_trace(items, ledgers, logs, now),
                ledgers[0] == old(self).ledger(),
                logs[0] == old(self).log()@,
                ledgers.last() == self.ledger(),
                logs.last() == self.log()@,
                outcomes@ == outcomes_of(items, ledgers, now),
                forall|j: int|
                    0 <= j < input.len() ==> is_among(items, #[trigger] input[j]) || is_among(
                        pending@,
                        input[j],
                    ),
                forall|k: int| 0 <= k < items.len() ==> is_among(input, #[trigger] items[k]),
                forall|k: int|
                    0 <= k < items.len() && #[trigger] step_state(ledgers[k], items[k], now) is None
                        ==> is_among(items.subrange(k + 1, items.len() as int), items[k]) || is_among(
                        pending@,
                        items[k],
                    ),
            ensures
                pending@.len() <= items.len(),
                pending@ == items.subrange(items.len() - pending@.len(), items.len() as int),
                forall|k: int|
                    items.len() - pending@.len() <= k < items.len() ==> #[trigger] step_state(
                        ledgers[k],
                        items[k],
                        now,
                    ) is None,
            decreases pending@.len(),
        {
            let before = pending.len();
            let ghost previous = pending@;
            let ghost prev_items = items;
            let ghost prev_ledgers = ledgers;
            let res = self.run_pass(
                pending,
                now,
                &mut outcomes,
                Ghost(items),
                Ghost(ledgers),
                Ghost(logs),
            );
            let (kept, trace) = res;
            proof {
                items = trace@.0;
                ledgers = trace@.1;
                logs = trace@.2;
            }
            pending = kept;
            proof {
                let n = prev_items.len();
                assert forall|m: int| 0 <= m < pending@.len() implies is_among(
                    input,
                    #[trigger] pending@[m],
                ) by {
                    let w = choose|w: int| 0 <= w < previous.len() && previous[w] == pending@[m];
                    assert(is_among(input, previous[w]));
                }
                assert forall|k: int| 0 <= k < items.len() implies is_among(
                    input,
                    #[trigger] items[k],
                ) by {
                    if k < n {
                        assert(items[k] == prev_items[k]);
                    } else {
                        assert(items[k] == previous[k - n]);
                    }
                }
                assert forall|j: int| 0 <= j < input.len() implies is_among(
                    items,
                    #[trigger] input[j],
                ) || is_among(pending@, input[j]) by {
                    if is_among(prev_items, input[j]) {
                        let w = choose|w: int| 0 <= w < prev_items.len() && prev_items[w] == input[j];
                        assert(items[w] == input[j]);
                    } else {
                        let w = choose|w: int| 0 <= w < previous.len() && previous[w] == input[j];
                        assert(items[n + w] == input[j]);
                    }
                }
                assert forall|k: int|
                    0 <= k < items.len() && #[trigger] step_state(ledgers[k], items[k], now) is None
                        implies is_among(items.subrange(k + 1, items.len() as int), items[k])
                    || is_among(pending@, items[k]) by {
                    if k < n {
                        assert(items[k] == prev_items[k]);
                        assert(ledgers[k] == prev_ledgers[k]);
                        assert(step_state(prev_ledgers[k], prev_items[k], now) is None);
                        if is_among(previous, prev_items[k]) {
                            let w = choose|w: int| 0 <= w < previous.len() && previous[w] == prev_items[k];
                            assert(items[n + w] == prev_items[k]);
                            assert(items.subrange(k + 1, items.len() as int)[n + w - k - 1] == items[k]);
                        } else {
                            let tail = prev_items.subrange(k + 1, n as int);
                            let w = choose|w: int| 0 <= w < tail.len() && tail[w] == prev_items[k];
                            assert(items[k + 1 + w] == prev_items[k]);
                            assert(items.subrange(k + 1, items.len() as int)[w] == items[k]);
                        }
                    }
                }
            }
            if pending.len() == before {
                proof {
                    assert(pending@ == previous);
                    assert(items.subrange(items.len() - pending@.len(), items.len() as int) =~= pending@);
                }
                break;
            }
        }
        self.to_process = pending;
        proof {
            let last = items.len() - pending@.len();
            assert forall|k: int|
                0 <= k < last && #[trigger] step_state(ledgers[k], items[k], now) is None implies is_among(
                items.subrange(k + 1, items.len() as int),
                items[k],
            ) by {
                if !is_among(items.subrange(k + 1, items.len() as int), items[k]) {
                    let w = choose|w: int| 0 <= w < pending@.len() && pending@[w] == items[k];
                    assert(items.subrange(k + 1, items.len() as int)[last + w - k - 1] == items[k]);
                }
            }
            assert(Self::delivered(*old(self), *self, input, now, outcomes@, items, ledgers, logs));
        }
        outcomes
    }
}

/// Insert `d` after every delivery that does not come after it in queue
/// order.
fn insert_sorted(v: &mut Vec<Delivery>, d: Delivery)
    requires
        sorted_by_key(old(v)@),
    ensures
        sorted_by_key(final(v)@),
        final(v)@.len() == old(v)@.len() + 1,
        is_among(final(v)@, d),
        forall|j: int| 0 <= j < old(v)@.len() ==> is_among(final(v)@, #[trigger] old(v)@[j]),
        forall|m: int| 0 <= m < final(v)@.len() ==> #[trigger] final(v)@[m] == d || is_among(old(v)@, final(v)@[m]),
{
    let mut pos: usize = 0;
    while pos < v.len() && !delivery_less(&d, &v[pos])
        invariant
            0 <= pos <= v@.len(),
            forall|j: int| 0 <= j < pos ==> key_le(v@[j], d),
        decreases v@.len() - pos,
    {
        proof {
            lemma_key_total(d, v@[pos as int]);
        }
        pos = pos + 1;
    }
    let ghost old_v = v@;
    proof {
        if pos < old_v.len() {
            assert forall|k: int| pos <= k < old_v.len() implies key_le(d, old_v[k]) by {
                if k > pos {
                    lemma_key_lt_le(d, old_v[pos as int], old_v[k]);
                }
            }
        }
    }
    v.insert(pos, d);
    proof {
        old_v.insert_ensures(pos as int, d);
        assert(v@[pos as int] == d);
        assert forall|i: int, j: int| 0 <= i < j < v@.len() implies key_le(v@[i], v@[j]) by {
            if i < pos && j < pos {
                assert(v@[i] == old_v[i] && v@[j] == old_v[j]);
            } else if i < pos && j == pos {
                assert(v@[i] == old_v[i]);
            } else if i < pos {
                assert(v@[i] == old_v[i] && v@[j] == old_v[j - 1]);
            } else if i == pos {
                assert(v@[j] == old_v[j - 1]);
            } else {
                assert(v@[i] == old_v[i - 1] && v@[j] == old_v[j - 1]);
            }
        }
        assert forall|j: int| 0 <= j < old_v.len() implies is_among(v@, #[trigger] old_v[j]) by {
            if j < pos {
                assert(v@[j] == old_v[j]);
            } else {
                assert(v@[j + 1] == old_v[j]);
            }
        }
        assert forall|m: int| 0 <= m < v@.len() implies #[trigger] v@[m] == d || is_among(old_v, v@[m]) by {
            if m < pos {
                assert(v@[m] == old_v[m]);
            } else if m > pos {
                assert(v@[m] == old_v[m - 1]);
            }
        }
    }
}

/// Whether `a` comes before `b` in queue order.
fn delivery_less(a: &Delivery, b: &Delivery) -> (r: bool)
    ensures
        r == key_lt(*a, *b),
{
    proof {
        lemma_lex_irreflexive(a.sender@);
        lemma_lex_irreflexive(a.transaction.recipient@);
    }
    if a.sequence != b.sequence {
        return a.sequence < b.sequence;
    }
    if !same_bytes(&a.sender.bytes, &b.sender.bytes) {
        return bytes_less(&a.sender.bytes, &b.sender.bytes);
    }
    if !same_bytes(&a.transaction.recipient.bytes, &b.transaction.recipient.bytes) {
        return bytes_less(&a.transaction.recipient.bytes, &b.transaction.recipient.bytes);
    }
    a.transaction.amount < b.transaction.amount
}

} // verus!
