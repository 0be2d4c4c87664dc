use at2_node::recent_transactions::{Error, RecentTransactions, LATEST_TRANSACTIONS_MAX_SIZE};
use at2_node::{PublicKey, ThinTransaction, TransactionState};

fn key(b: u8) -> PublicKey {
    PublicKey::new([b; 32])
}

#[test]
fn put_transactions_show_in_get_all() {
    let mut recent_transactions = RecentTransactions::new();

    let sender = key(1);
    let recipient = key(2);

    let txs = [
        ThinTransaction {
            amount: 10,
            recipient,
        },
        ThinTransaction {
            amount: 3,
            recipient: sender,
        },
    ];

    for (tx, seq) in txs.iter().zip(1..) {
        recent_transactions
            .put(sender, seq, *tx)
            .expect("to put transaction");
    }

    let recent_txs = recent_transactions.get_all();

    assert_eq!(txs.len(), recent_txs.len());
    txs.iter()
        .zip(recent_txs.iter())
        .zip(1..)
        .for_each(|((thin, full), seq)| {
            assert_eq!(sender, full.sender);
            assert_eq!(seq, full.sender_sequence);
            assert_eq!(thin.amount, full.amount);
            assert_eq!(thin.recipient, full.recipient);
            assert_eq!(TransactionState::Pending, full.state);
        });
}

#[test]
fn put_stamps_the_current_time() {
    let mut log = RecentTransactions::new();
    log.put(key(1), 1, ThinTransaction { recipient: key(2), amount: 1 })
        .expect("to put transaction");
    // 2020-09-13 in milliseconds since the epoch
    assert!(log.get_all()[0].timestamp > 1_600_000_000_000);
}

#[test]
fn duplicate_put_is_rejected() {
    let mut log = RecentTransactions::new();
    let thin = ThinTransaction { recipient: key(2), amount: 5 };
    assert_eq!(log.put_at(key(1), 1, thin, 100), Ok(()));
    assert_eq!(log.put_at(key(1), 1, thin, 200), Err(Error::PutAlreadyExisting));
    assert_eq!(log.put_at(key(1), 2, thin, 300), Ok(()));
    assert_eq!(log.put_at(key(3), 1, thin, 400), Ok(()));
    let all = log.get_all();
    assert_eq!(all.len(), 3);
    assert_eq!(all[0].timestamp, 100);
}

#[test]
fn log_keeps_the_latest_ten() {
    let mut log = RecentTransactions::new();
    let thin = ThinTransaction { recipient: key(2), amount: 5 };
    for seq in 1..=12u64 {
        assert_eq!(log.put_at(key(1), seq, thin, seq as i64), Ok(()));
        assert!(log.get_all().len() <= LATEST_TRANSACTIONS_MAX_SIZE);
    }
    let all = log.get_all();
    assert_eq!(all.len(), 10);
    assert_eq!(all[0].sender_sequence, 3);
    assert_eq!(all[9].sender_sequence, 12);
    // an evicted key can be put again
    assert_eq!(log.put_at(key(1), 1, thin, 13), Ok(()));
    assert_eq!(log.get_all()[0].sender_sequence, 4);
}

#[test]
fn update_changes_only_the_matching_record() {
    let mut log = RecentTransactions::new();
    let thin = ThinTransaction { recipient: key(2), amount: 5 };
    log.put_at(key(1), 1, thin, 1).unwrap();
    log.put_at(key(1), 2, thin, 2).unwrap();
    log.update(key(1), 2, TransactionState::Failure);
    log.update(key(9), 1, TransactionState::Success);
    let all = log.get_all();
    assert_eq!(all[0].state, TransactionState::Pending);
    assert_eq!(all[1].state, TransactionState::Failure);
    assert_eq!(all[1].timestamp, 2);
}
