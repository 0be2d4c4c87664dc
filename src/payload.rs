use vstd::prelude::*;

use crate::keys::{same_bytes, PublicKey};
use crate::transaction::ThinTransaction;

verus! {

/// Length in bytes of a signature.
pub const SIGNATURE_LENGTH: usize = 64;

/// Length in bytes of an encoded payload: sender, sequence, recipient,
/// amount and signature.
pub const PAYLOAD_LENGTH: usize = 144;

#[verifier::external_type_specification]
#[verifier::external_body]
pub struct ExBincodeErrorKind(bincode::ErrorKind);

/// A signature over `(sequence, transaction)`, checked against the sender's key.
#[derive(Clone, Copy, Debug)]
pub struct Signature {
    pub bytes: [u8; 64],
}

/// What the broadcast layer carries: a signed transaction of a sender at a
/// given sequence.
#[derive(Clone, Copy, Debug)]
pub struct Payload {
    pub sender: PublicKey,
    pub sequence: u64,
    pub transaction: ThinTransaction,
    pub signature: Signature,
}

/// Why bytes could not be read back as a payload.
#[derive(Clone, Copy, Debug, PartialEq, Eq, Structural)]
pub enum DecodeError {
    /// The input does not have the length of an encoded payload.
    Length,
    /// An integer field could not be read.
    Integer,
}

impl View for Payload {
    type V = (Seq<u8>, u64, Seq<u8>, u64, Seq<u8>);

    open spec fn view(&self) -> (Seq<u8>, u64, Seq<u8>, u64, Seq<u8>) {
        (
            self.sender@,
            self.sequence,
            self.transaction.recipient@,
            self.transaction.amount,
            self.signature.bytes@,
        )
    }
}

impl PartialEq for Payload {
    fn eq(&self, other: &Payload) -> (r: bool) {
        self.sequence == other.sequence && self.transaction.amount == other.transaction.amount
            && same_bytes(&self.sender.bytes, &other.sender.bytes) && same_bytes(
            &self.transaction.recipient.bytes,
            &other.transaction.recipient.bytes,
        ) && same_signature(&self.signature.bytes, &other.signature.bytes)
    }
}

impl vstd::std_specs::cmp::PartialEqSpecImpl for Payload {
    open spec fn obeys_eq_spec() -> bool {
        true
    }

    open spec fn eq_spec(&self, other: &Payload) -> bool {
        self@ == other@
    }
}

/// Compare two signatures byte by byte.
fn same_signature(a: &[u8; 64], b: &[u8; 64]) -> (r: bool)
    ensures
        r == (a@ == b@),
{
    let mut i: usize = 0;
    while i < SIGNATURE_LENGTH
        invariant
            0 <= i <= 64,
            a@.len() == 64,
            b@.len() == 64,
            forall|j: int| 0 <= j < i ==> a@[j] == b@[j],
        decreases 64 - i,
    {
        if a[i] != b[i] {
            return false;
        }
        i = i + 1;
    }
    assert(a@ =~= b@);
    true
}

/// The eight little-endian bytes of `x`.
pub open spec fn le_bytes(x: u64) -> Seq<u8> {
    seq![
        (x & 0xff) as u8,
        ((x >> 8u64) & 0xff) as u8,
        ((x >> 16u64) & 0xff) as u8,
        ((x >> 24u64) & 0xff) as u8,
        ((x >> 32u64) & 0xff) as u8,
        ((x >> 40u64) & 0xff) as u8,
        ((x >> 48u64) & 0xff) as u8,
        ((x >> 56u64) & 0xff) as u8,
    ]
}

/// The encoding of a payload: sender key, sequence, recipient key, amount,
/// signature; integers little-endian.
pub open spec fn payload_bytes(p: Payload) -> Seq<u8> {
    p.sender@ + le_bytes(p.sequence) + p.transaction.recipient@ + le_bytes(p.transaction.amount)
        + p.signature.bytes@
}

/// Relies on `bincode::serialize` with its default options (fixed-width
/// integers, little-endian, no size limit): a `u64` is written as its eight
/// little-endian bytes, into a `Vec`, which cannot fail.
#[verifier::external_body]
fn serialize_u64(x: u64) -> (r: Result<Vec<u8>, Box<bincode::ErrorKind>>)
    ensures
        r is Ok,
        r is Ok ==> r->Ok_0@ == le_bytes(x),
{
    bincode::serialize(&x)
}

/// Relies on `bincode::deserialize` with its default options: a `u64` is read
/// from the first eight bytes, little-endian, trailing bytes allowed; fewer
/// than eight bytes is an error.
#[verifier::external_body]
fn deserialize_u64(b: &[u8]) -> (r: Result<u64, Box<bincode::ErrorKind>>)
    ensures
        r is Ok <==> b@.len() >= 8,
        r is Ok ==> le_bytes(r->Ok_0) == b@.subrange(0, 8),
{
    bincode::deserialize(b)
}

proof fn lemma_le_bytes_injective(x: u64, y: u64)
    requires
        le_bytes(x) == le_bytes(y),
    ensures
        x == y,
{
    assert(le_bytes(x)[0] == le_bytes(y)[0]);
    assert(le_bytes(x)[1] == le_bytes(y)[1]);
    assert(le_bytes(x)[2] == le_bytes(y)[2]);
    assert(le_bytes(x)[3] == le_bytes(y)[3]);
    assert(le_bytes(x)[4] == le_bytes(y)[4]);
    assert(le_bytes(x)[5] == le_bytes(y)[5]);
    assert(le_bytes(x)[6] == le_bytes(y)[6]);
    assert(le_bytes(x)[7] == le_bytes(y)[7]);
    assert(x == y) by (bit_vector)
        requires
            (x & 0xff) as u8 == (y & 0xff) as u8,
            ((x >> 8u64) & 0xff) as u8 == ((y >> 8u64) & 0xff) as u8,
            ((x >> 16u64) & 0xff) as u8 == ((y >> 16u64) & 0xff) as u8,
            ((x >> 24u64) & 0xff) as u8 == ((y >> 24u64) & 0xff) as u8,
            ((x >> 32u64) & 0xff) as u8 == ((y >> 32u64) & 0xff) as u8,
            ((x >> 40u64) & 0xff) as u8 == ((y >> 40u64) & 0xff) as u8,
            ((x >> 48u64) & 0xff) as u8 == ((y >> 48u64) & 0xff) as u8,
            ((x >> 56u64) & 0xff) as u8 == ((y >> 56u64) & 0xff) as u8,
    ;
}

/// Two payloads with the same encoding are the same payload.
pub proof fn lemma_payload_bytes_injective(p: Payload, q: Payload)
    requires
        payload_bytes(p) == payload_bytes(q),
    ensures
        p@ == q@,
{
    let a = payload_bytes(p);
    let b = payload_bytes(q);
    assert(p.sender@ =~= a.subrange(0, 32));
    assert(q.sender@ =~= b.subrange(0, 32));
    assert(le_bytes(p.sequence) =~= a.subrange(32, 40));
    assert(le_bytes(q.sequence) =~= b.subrange(32, 40));
    assert(p.transaction.recipient@ =~= a.subrange(40, 72));
    assert(q.transaction.recipient@ =~= b.subrange(40, 72));
    assert(le_bytes(p.transaction.amount) =~= a.subrange(72, 80));
    assert(le_bytes(q.transaction.amount) =~= b.subrange(72, 80));
    assert(p.signature.bytes@ =~= a.subrange(80, 144));
    assert(q.signature.bytes@ =~= b.subrange(80, 144));
    lemma_le_bytes_injective(p.sequence, q.sequence);
    lemma_le_bytes_injective(p.transaction.amount, q.transaction.amount);
}

/// Append `bytes` to `out`.
fn push_all(out: &mut Vec<u8>, bytes: &[u8])
    ensures
        final(out)@ == old(out)@ + bytes@,
{
    let mut i: usize = 0;
    while i < bytes.len()
        invariant
            0 <= i <= bytes@.len(),
            out@ == old(out)@ + bytes@.subrange(0, i as int),
        decreases bytes@.len() - i,
    {
        out.push(bytes[i]);
        i = i + 1;
        assert(out@ =~= old(out)@ + bytes@.subrange(0, i as int));
    }
    assert(bytes@.subrange(0, i as int) =~= bytes@);
}

/// The eight little-endian bytes of `x`, as bincode writes them.
fn u64_bytes(x: u64) -> (r: Vec<u8>)
    ensures
        r@ == le_bytes(x),
{
    match serialize_u64(x) {
        Ok(v) => v,
        Err(_) => {
            proof {
                assert(false);
            }
            Vec::new()
        },
    }
}

/// The bytes of `src` from `start`, `len` of them.
fn copy_range(src: &[u8], start: usize, len: usize) -> (r: Vec<u8>)
    requires
        start + len <= src@.len(),
    ensures
        r@ == src@.subrange(start as int, start + len),
{
    let mut out: Vec<u8> = Vec::new();
    let mut i: usize = 0;
    while i < len
        invariant
            0 <= i <= len,
            start + len <= src.len(),
            out@ == src@.subrange(start as int, start + i),
        decreases len - i,
    {
        out.push(src[start + i]);
        i = i + 1;
        assert(out@ =~= src@.subrange(start as int, start + i));
    }
    out
}

/// The 32 bytes of `src` from `start`, as a key.
fn read_key(src: &[u8], start: usize) -> (r: PublicKey)
    requires
        start + 32 <= src@.len(),
    ensures
        r@ == src@.subrange(start as int, start + 32),
{
    let mut bytes = [0u8; 32];
    let mut i: usize = 0;
    while i < 32
        invariant
            0 <= i <= 32,
            start + 32 <= src.len(),
            bytes@.len() == 32,
            forall|j: int| 0 <= j < i ==> bytes@[j] == src@[start + j],
        decreases 32 - i,
    {
        bytes[i] = src[start + i];
        i = i + 1;
    }
    assert(bytes@ =~= src@.subrange(start as int, start + 32));
    PublicKey { bytes }
}

/// The 64 bytes of `src` from `start`, as a signature.
fn read_signature(src: &[u8], start: usize) -> (r: Signature)
    requires
        start + 64 <= src@.len(),
    ensures
        r.bytes@ == src@.subrange(start as int, start + 64),
{
    let mut bytes = [0u8; 64];
    let mut i: usize = 0;
    while i < SIGNATURE_LENGTH
        invariant
            0 <= i <= 64,
            start + 64 <= src.len(),
            bytes@.len() == 64,
            forall|j: int| 0 <= j < i ==> bytes@[j] == src@[start + j],
        decreases 64 - i,
    {
        bytes[i] = src[start + i];
        i = i + 1;
    }
    assert(bytes@ =~= src@.subrange(start as int, start + 64));
    Signature { bytes }
}

/// Read a little-endian `u64` from the 8 bytes of `src` at `start`.
fn read_u64(src: &[u8], start: usize) -> (r: Result<u64, DecodeError>)
    requires
        start + 8 <= src@.len(),
    ensures
        r matches Ok(x) && le_bytes(x) == src@.subrange(start as int, start + 8),
{
    let field = copy_range(src, start, 8);
    match deserialize_u64(field.as_slice()) {
        Ok(x) => {
            assert(field@.subrange(0, 8) =~= field@);
            Ok(x)
        },
        Err(_) => Err(DecodeError::Integer),
    }
}

impl Payload {
    /// The encoding of this payload.
    pub fn encode(&self) -> (r: Vec<u8>)
        ensures
            r@ == payload_bytes(*self),
            r@.len() == PAYLOAD_LENGTH,
    {
        let mut out: Vec<u8> = Vec::new();
        push_all(&mut out, self.sender.bytes.as_slice());
        let sequence = u64_bytes(self.sequence);
        push_all(&mut out, sequence.as_slice());
        push_all(&mut out, self.transaction.recipient.bytes.as_slice());
        let amount = u64_bytes(self.transaction.amount);
        push_all(&mut out, amount.as_slice());
        push_all(&mut out, self.signature.bytes.as_slice());
        assert(out@ =~= payload_bytes(*self));
        out
    }

    /// Read back a payload from its encoding. Succeeds iff `bytes` has the
    /// length of an encoded payload; the payload read then encodes to
    /// `bytes`.
    pub fn decode(bytes: &[u8]) -> (r: Result<Payload, DecodeError>)
        ensures
            r is Ok <==> bytes@.len() == PAYLOAD_LENGTH,
            bytes@.len() != PAYLOAD_LENGTH ==> r == Err::<Payload, DecodeError>(DecodeError::Length),
            r matches Ok(p) ==> payload_bytes(p) == bytes@,
    {
        if bytes.len() != PAYLOAD_LENGTH {
            return Err(DecodeError::Length);
        }
        let sender = read_key(bytes, 0);
        let sequence = match read_u64(bytes, 32) {
            Ok(x) => x,
            Err(e) => return Err(e),
        };
        let recipient = read_key(bytes, 40);
        let amount = match read_u64(bytes, 72) {
            Ok(x) => x,
            Err(e) => return Err(e),
        };
        let signature = read_signature(bytes, 80);
        let p = Payload { sender, sequence, transaction: ThinTransaction { recipient, amount }, signature };
        assert(payload_bytes(p) =~= bytes@);
        Ok(p)
    }
}

/// Reading back the encoding of a payload gives that payload: the encoding
/// has the length that `decode` accepts, and the only payload with that
/// encoding is the one encoded.
pub proof fn lemma_round_trip(p: Payload)
    ensures
        payload_bytes(p).len() == PAYLOAD_LENGTH,
        forall|q: Payload| #[trigger] payload_bytes(q) == payload_bytes(p) ==> q@ == p@,
{
    assert forall|q: Payload| #[trigger] payload_bytes(q) == payload_bytes(p) implies q@ == p@ by {
        lemma_payload_bytes_injective(p, q);
    }
}

} // verus!
