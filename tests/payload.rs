use at2_node::payload::{DecodeError, Payload, Signature, PAYLOAD_LENGTH};
use at2_node::{PublicKey, ThinTransaction, TransactionState};

fn sample() -> Payload {
    Payload {
        sender: PublicKey::new([1; 32]),
        sequence: 0x0102_0304_0506_0708,
        transaction: ThinTransaction {
            recipient: PublicKey::new([2; 32]),
            amount: 10,
        },
        signature: Signature { bytes: [3; 64] },
    }
}

#[test]
fn encode_lays_out_fields_little_endian() {
    let bytes = sample().encode();
    assert_eq!(bytes.len(), PAYLOAD_LENGTH);
    assert_eq!(&bytes[0..32], &[1u8; 32][..]);
    assert_eq!(&bytes[32..40], &[8u8, 7, 6, 5, 4, 3, 2, 1][..]);
    assert_eq!(&bytes[40..72], &[2u8; 32][..]);
    assert_eq!(&bytes[72..80], &[10u8, 0, 0, 0, 0, 0, 0, 0][..]);
    assert_eq!(&bytes[80..144], &[3u8; 64][..]);
}

#[test]
fn decode_of_encode_is_identity() {
    let p = sample();
    assert_eq!(Payload::decode(&p.encode()), Ok(p));
    let q = Payload {
        sequence: u64::MAX,
        transaction: ThinTransaction {
            recipient: PublicKey::new([0xff; 32]),
            amount: 0,
        },
        ..p
    };
    assert_eq!(Payload::decode(&q.encode()), Ok(q));
    assert_ne!(Payload::decode(&q.encode()), Ok(p));
}

#[test]
fn decode_reads_integers_little_endian() {
    let mut bytes = vec![0u8; PAYLOAD_LENGTH];
    bytes[32] = 1;
    bytes[79] = 0x80;
    let p = Payload::decode(&bytes).expect("to decode");
    assert_eq!(p.sequence, 1);
    assert_eq!(p.transaction.amount, 0x8000_0000_0000_0000);
}

#[test]
fn decode_rejects_wrong_length() {
    let bytes = sample().encode();
    assert_eq!(Payload::decode(&bytes[..143]), Err(DecodeError::Length));
    let mut longer = bytes.clone();
    longer.push(0);
    assert_eq!(Payload::decode(&longer), Err(DecodeError::Length));
    assert_eq!(Payload::decode(&[]), Err(DecodeError::Length));
}

#[test]
fn state_wire_numbers() {
    assert_eq!(TransactionState::Pending.to_wire(), 0);
    assert_eq!(TransactionState::Success.to_wire(), 1);
    assert_eq!(TransactionState::Failure.to_wire(), 2);
    for s in [
        TransactionState::Pending,
        TransactionState::Success,
        TransactionState::Failure,
    ] {
        assert_eq!(TransactionState::from_wire(s.to_wire()), Some(s));
    }
    assert_eq!(TransactionState::from_wire(3), None);
    assert_eq!(TransactionState::from_wire(-1), None);
}
