use at2_node::account::Error as AccountError;
use at2_node::accounts::Error as LedgerError;
use at2_node::payload::{Payload, Signature};
use at2_node::recent_transactions::Error as RecentError;
use at2_node::rpc::{ProcessTransactionError, Service, TRANSACTION_TTL_MILLIS};
use at2_node::{PublicKey, ThinTransaction, TransactionState};

fn key(b: u8) -> PublicKey {
    PublicKey::new([b; 32])
}

fn payload(sender: PublicKey, sequence: u64, recipient: PublicKey, amount: u64) -> Payload {
    Payload {
        sender,
        sequence,
        transaction: ThinTransaction { recipient, amount },
        signature: Signature { bytes: [0; 64] },
    }
}

#[test]
fn fresh_key_has_initial_balance() {
    let service = Service::new();
    assert_eq!(service.get_balance(&key(42)), 100000);
    assert_eq!(service.get_last_sequence(&key(42)), 0);
}

#[test]
fn simple_transfer() {
    let mut service = Service::new();
    let (a, b) = (key(1), key(2));
    let p = payload(a, 1, b, 10);
    assert_eq!(service.send_asset(&p), Ok(()));
    let outcomes = service.deliver(&vec![p], 0);
    assert_eq!(outcomes.len(), 1);
    assert_eq!(outcomes[0].state, TransactionState::Success);
    assert_eq!(service.get_balance(&a), 99990);
    assert_eq!(service.get_balance(&b), 100010);
    assert_eq!(service.get_last_sequence(&a), 1);
    assert_eq!(service.get_last_sequence(&b), 0);
    let latest = service.get_latest_transactions();
    assert_eq!(latest.len(), 1);
    assert_eq!(latest[0].state, TransactionState::Success);
}

fn out_of_order() -> Service {
    let mut service = Service::new();
    let (a, b) = (key(1), key(2));
    service.send_asset(&payload(a, 1, b, 5)).unwrap();
    service.send_asset(&payload(a, 2, b, 7)).unwrap();
    let first = service.deliver(&vec![payload(a, 2, b, 7)], 0);
    assert!(first.is_empty());
    assert_eq!(service.get_balance(&a), 100000);
    assert_eq!(service.get_last_sequence(&a), 0);
    let second = service.deliver(&vec![payload(a, 1, b, 5)], 10);
    assert_eq!(second.len(), 2);
    assert_eq!(second[0].delivery.sequence, 1);
    assert_eq!(second[1].delivery.sequence, 2);
    assert!(second.iter().all(|o| o.state == TransactionState::Success));
    service
}

#[test]
fn out_of_order_delivery_is_applied_in_sequence_order() {
    let service = out_of_order();
    assert_eq!(service.get_balance(&key(1)), 99988);
    assert_eq!(service.get_balance(&key(2)), 100012);
    assert_eq!(service.get_last_sequence(&key(1)), 2);
}

#[test]
fn duplicate_is_rejected() {
    let mut service = out_of_order();
    let dup = payload(key(1), 1, key(2), 5);
    assert_eq!(service.send_asset(&dup), Err(RecentError::PutAlreadyExisting));
    // delivered again anyway: never applied, dropped once expired
    assert!(service.deliver(&vec![dup], 100).is_empty());
    assert_eq!(service.get_balance(&key(1)), 99988);
    let expired = service.deliver(&vec![], 100 + TRANSACTION_TTL_MILLIS + 1);
    assert_eq!(expired.len(), 1);
    assert_eq!(expired[0].state, TransactionState::Failure);
    assert_eq!(service.get_balance(&key(1)), 99988);
    assert_eq!(service.get_last_sequence(&key(1)), 2);
}

#[test]
fn inconsecutive_waits_for_its_predecessor() {
    let mut service = Service::new();
    let (a, b) = (key(1), key(2));
    assert!(service.deliver(&vec![payload(a, 2, b, 1)], 0).is_empty());
    assert_eq!(service.get_balance(&a), 100000);
    assert_eq!(service.get_last_sequence(&a), 0);
    let outcomes = service.deliver(&vec![payload(a, 1, b, 1)], 5);
    assert_eq!(outcomes.len(), 2);
    assert_eq!(outcomes[0].delivery.sequence, 1);
    assert_eq!(outcomes[0].state, TransactionState::Success);
    assert_eq!(service.get_last_sequence(&a), 2);
    assert_eq!(service.get_balance(&a), 99998);
}

#[test]
fn overdraft_fails_and_consumes_sequence() {
    let mut service = Service::new();
    let (a, b) = (key(1), key(2));
    let p = payload(a, 1, b, 100001);
    service.send_asset(&p).unwrap();
    let outcomes = service.deliver(&vec![p], 0);
    assert_eq!(outcomes.len(), 1);
    assert_eq!(outcomes[0].state, TransactionState::Failure);
    assert_eq!(service.get_balance(&a), 100000);
    assert_eq!(service.get_last_sequence(&a), 1);
    assert_eq!(service.get_balance(&b), 100000);
    assert_eq!(service.get_latest_transactions()[0].state, TransactionState::Failure);
}

#[test]
fn waiting_delivery_expires_after_ttl() {
    let mut service = Service::new();
    let (a, b) = (key(1), key(2));
    assert!(service.deliver(&vec![payload(a, 2, b, 1)], 1000).is_empty());
    assert!(service.deliver(&vec![], 1000 + TRANSACTION_TTL_MILLIS).is_empty());
    let outcomes = service.deliver(&vec![payload(a, 1, b, 1)], 1001 + TRANSACTION_TTL_MILLIS);
    // the first one expired in this pass; the new one applies
    assert_eq!(outcomes.len(), 2);
    assert_eq!(outcomes[0].delivery.sequence, 1);
    assert_eq!(outcomes[0].state, TransactionState::Success);
    assert_eq!(outcomes[1].delivery.sequence, 2);
    assert_eq!(outcomes[1].state, TransactionState::Failure);
    assert_eq!(service.get_last_sequence(&a), 1);
}

#[test]
fn batch_from_several_senders_is_linearised_per_sender() {
    let mut service = Service::new();
    let (a, b, c) = (key(1), key(2), key(3));
    let batch = vec![
        payload(a, 3, c, 1),
        payload(b, 2, c, 2),
        payload(a, 1, c, 3),
        payload(b, 1, c, 4),
        payload(a, 2, c, 5),
    ];
    let outcomes = service.deliver(&batch, 0);
    assert_eq!(outcomes.len(), 5);
    assert!(outcomes.iter().all(|o| o.state == TransactionState::Success));
    for sender in [a, b] {
        let seqs: Vec<u64> = outcomes
            .iter()
            .filter(|o| o.delivery.sender == sender)
            .map(|o| o.delivery.sequence)
            .collect();
        assert!(seqs.windows(2).all(|w| w[0] < w[1]));
    }
    assert_eq!(service.get_balance(&c), 100015);
    assert_eq!(service.get_last_sequence(&a), 3);
    assert_eq!(service.get_last_sequence(&b), 2);
}

#[test]
fn process_payload_reports_ledger_errors() {
    let mut service = Service::new();
    let (a, b) = (key(1), key(2));
    let thin = ThinTransaction { recipient: b, amount: 1 };
    assert_eq!(
        service.process_payload(2, a, thin),
        Err(ProcessTransactionError::ProcessTxForAccounts {
            source: LedgerError::AccountModification {
                source: AccountError::InconsecutiveSequence
            }
        })
    );
    service.send_asset(&payload(a, 1, b, 1)).unwrap();
    assert_eq!(service.process_payload(1, a, thin), Ok(()));
    assert_eq!(service.get_latest_transactions()[0].state, TransactionState::Success);
    assert_eq!(
        service.process_payload(2, a, ThinTransaction { recipient: b, amount: 200000 }),
        Err(ProcessTransactionError::ProcessTxForAccounts {
            source: LedgerError::AccountModification {
                source: AccountError::Underflow
            }
        })
    );
    assert_eq!(service.get_last_sequence(&a), 2);
    assert_eq!(service.get_balance(&a), 99999);
}

#[test]
fn self_transfer_through_the_pipeline_keeps_balance() {
    let mut service = Service::new();
    let a = key(1);
    let outcomes = service.deliver(&vec![payload(a, 1, a, 500)], 0);
    assert_eq!(outcomes.len(), 1);
    assert_eq!(outcomes[0].state, TransactionState::Success);
    assert_eq!(service.get_balance(&a), 100000);
    assert_eq!(service.get_last_sequence(&a), 1);
}

#[test]
fn equal_sequences_are_tried_in_sender_then_recipient_order() {
    let mut service = Service::new();
    let (a, b, c, d) = (key(1), key(2), key(3), key(4));
    let batch = vec![
        payload(b, 1, c, 1),
        payload(a, 1, d, 2),
        payload(b, 2, c, 3),
        payload(a, 2, c, 4),
    ];
    let outcomes = service.deliver(&batch, 0);
    let order: Vec<(u8, u64)> = outcomes
        .iter()
        .map(|o| (o.delivery.sender.bytes[0], o.delivery.sequence))
        .collect();
    assert_eq!(order, vec![(1, 1), (2, 1), (1, 2), (2, 2)]);
    assert!(outcomes.iter().all(|o| o.state == TransactionState::Success));
    assert_eq!(service.get_balance(&c), 100008);
    assert_eq!(service.get_balance(&d), 100002);
}

#[test]
fn refused_amounts_are_recorded_as_failure_and_not_retried() {
    let mut service = Service::new();
    let (a, b) = (key(1), key(2));
    service.send_asset(&payload(a, 1, b, 100001)).unwrap();
    service.send_asset(&payload(a, 2, b, 1)).unwrap();
    let outcomes = service.deliver(&vec![payload(a, 2, b, 1), payload(a, 1, b, 100001)], 0);
    assert_eq!(outcomes.len(), 2);
    assert_eq!(outcomes[0].state, TransactionState::Failure);
    assert_eq!(outcomes[1].state, TransactionState::Success);
    let log = service.get_latest_transactions();
    assert_eq!(log[0].state, TransactionState::Failure);
    assert_eq!(log[1].state, TransactionState::Success);
    assert_eq!(service.get_balance(&a), 99999);
    assert!(service.deliver(&vec![], 1).is_empty());
}
