use vstd::prelude::*;
use byteorder::{BigEndian, ByteOrder};

verus! {

/// A stored snapshot that does not hold one record per parameter.
#[derive(Debug, Clone, Copy, PartialEq, Eq, Structural)]
pub enum PersistenceError {
    /// The snapshot holds `found` whole records (and `trailing` bytes more),
    /// where `expected` were asked for.
    CountMismatch { expected: usize, found: usize, trailing: usize },
}

/// The eight bytes of `n`, most significant first.
pub open spec fn be_bytes_of(n: u64) -> Seq<u8> {
    seq![
        (n >> 56u64) as u8, (n >> 48u64) as u8, (n >> 40u64) as u8, (n >> 32u64) as u8,
        (n >> 24u64) as u8, (n >> 16u64) as u8, (n >> 8u64) as u8, n as u8,
    ]
}

/// The number whose bytes, most significant first, are `b[0..8]`.
pub open spec fn be_value(b: Seq<u8>) -> u64 {
    ((b[0] as u64) << 56u64) | ((b[1] as u64) << 48u64) | ((b[2] as u64) << 40u64) | ((b[3] as u64) << 32u64)
        | ((b[4] as u64) << 24u64) | ((b[5] as u64) << 16u64) | ((b[6] as u64) << 8u64) | (b[7] as u64)
}

/// The records of `ws`, eight bytes each, in order.
pub open spec fn encoded(ws: Seq<u64>) -> Seq<u8> {
    Seq::new(8 * ws.len(), |i: int| be_bytes_of(ws[i / 8])[i % 8])
}

/// The whole records of `b`, in order.
pub open spec fn decoded(b: Seq<u8>) -> Seq<u64> {
    Seq::new(b.len() / 8, |k: int| be_value(b.subrange(8 * k, 8 * k + 8)))
}

/// What loading `count` records from `b` gives.
pub open spec fn decode_result(b: Seq<u8>, count: usize) -> Result<Seq<u64>, PersistenceError> {
    if b.len() % 8 == 0 && b.len() / 8 == count {
        Ok(decoded(b))
    } else {
        Err(PersistenceError::CountMismatch {
            expected: count,
            found: (b.len() / 8) as usize,
            trailing: (b.len() % 8) as usize,
        })
    }
}

/// Relies on byteorder's `BigEndian::write_u64`: it stores the eight bytes
/// of `n`, most significant first.
#[verifier::external_body]
fn record_of(n: u64) -> (r: Vec<u8>)
    ensures
        r@ == be_bytes_of(n),
{
    let mut b = [0u8; 8];
    BigEndian::write_u64(&mut b, n);
    b.to_vec()
}

/// Relies on byteorder's `BigEndian::read_u64`: it reads the first eight
/// bytes of its argument as a number, most significant first.
#[verifier::external_body]
fn record_at(b: &Vec<u8>, at: usize) -> (r: u64)
    requires
        at + 8 <= b@.len(),
    ensures
        r == be_value(b@.subrange(at as int, at + 8)),
{
    BigEndian::read_u64(&b[at..at + 8])
}

proof fn lemma_div8(k: int, j: int)
    requires
        0 <= k,
        0 <= j < 8,
    ensures
        (8 * k + j) / 8 == k,
        (8 * k + j) % 8 == j,
{
    assert((8 * k + j) / 8 == k) by (nonlinear_arith)
        requires 0 <= k, 0 <= j < 8;
    assert((8 * k + j) % 8 == j) by (nonlinear_arith)
        requires 0 <= k, 0 <= j < 8;
}

/// A number survives being written as bytes and read back.
proof fn lemma_be_round_trip(n: u64)
    ensures
        be_value(be_bytes_of(n)) == n,
{
    let b = be_bytes_of(n);
    assert(b[0] == (n >> 56u64) as u8);
    assert(b[7] == n as u8);
    assert(((((n >> 56u64) as u8) as u64) << 56u64) | ((((n >> 48u64) as u8) as u64) << 48u64)
        | ((((n >> 40u64) as u8) as u64) << 40u64) | ((((n >> 32u64) as u8) as u64) << 32u64)
        | ((((n >> 24u64) as u8) as u64) << 24u64) | ((((n >> 16u64) as u8) as u64) << 16u64)
        | ((((n >> 8u64) as u8) as u64) << 8u64) | ((n as u8) as u64) == n) by (bit_vector);
}

/// Writes one eight-byte big-endian record per weight, in order.
pub fn encode_weights(ws: &Vec<u64>) -> (r: Vec<u8>)
    requires
        8 * ws@.len() <= usize::MAX,
    ensures
        r@ == encoded(ws@),
{
    let mut out: Vec<u8> = Vec::new();
    let mut k: usize = 0;
    while k < ws.len()
        invariant
            k <= ws@.len(),
            8 * ws@.len() <= usize::MAX,
            out@.len() == 8 * k,
            forall|i: int| 0 <= i < out@.len() ==> #[trigger] out@[i] == be_bytes_of(ws@[i / 8])[i % 8],
        decreases ws@.len() - k,
    {
        let mut rec = record_of(ws[k]);
        let ghost before = out@;
        let ghost bytes = rec@;
        out.append(&mut rec);
        proof {
            assert forall|i: int| 0 <= i < out@.len() implies #[trigger] out@[i] == be_bytes_of(ws@[i / 8])[i % 8] by {
                if i >= 8 * k {
                    lemma_div8(k as int, i - 8 * k);
                    assert(out@[i] == bytes[i - 8 * k]);
                } else {
                    assert(out@[i] == before[i]);
                }
            }
        }
        k = k + 1;
    }
    assert(out@ =~= encoded(ws@));
    out
}

/// Reads `count` eight-byte big-endian records; anything but exactly
/// `8 * count` bytes is a count mismatch.
pub fn decode_weights(bytes: &Vec<u8>, count: usize) -> (r: Result<Vec<u64>, PersistenceError>)
    ensures
        match r {
            Ok(ws) => decode_result(bytes@, count) == Ok::<Seq<u64>, PersistenceError>(ws@),
            Err(e) => decode_result(bytes@, count) == Err::<Seq<u64>, PersistenceError>(e),
        },
{
    let n = bytes.len();
    if n % 8 != 0 || n / 8 != count {
        return Err(PersistenceError::CountMismatch { expected: count, found: n / 8, trailing: n % 8 });
    }
    let mut out: Vec<u64> = Vec::new();
    let mut k: usize = 0;
    while k < count
        invariant
            n == bytes@.len(),
            n % 8 == 0,
            n / 8 == count,
            k <= count,
            out@.len() == k,
            forall|j: int| 0 <= j < k ==> #[trigger] out@[j] == be_value(bytes@.subrange(8 * j, 8 * j + 8)),
        decreases count - k,
    {
        let w = record_at(bytes, 8 * k);
        out.push(w);
        k = k + 1;
    }
    assert(out@ =~= decoded(bytes@));
    Ok(out)
}

/// Saving weights and loading the snapshot back, with as many records as
/// were saved, gives the same weights in the same order.
pub proof fn law_save_load_round_trip(ws: Seq<u64>)
    requires
        8 * ws.len() <= usize::MAX,
    ensures
        decode_result(encoded(ws), ws.len() as usize) == Ok::<Seq<u64>, PersistenceError>(ws),
{
    let b = encoded(ws);
    assert(b.len() == 8 * ws.len());
    lemma_div8(ws.len() as int, 0);
    let d = decoded(b);
    assert forall|k: int| 0 <= k < ws.len() implies d[k] == ws[k] by {
        let r = b.subrange(8 * k, 8 * k + 8);
        assert forall|j: int| 0 <= j < 8 implies r[j] == be_bytes_of(ws[k])[j] by {
            lemma_div8(k, j);
        }
        assert(r =~= be_bytes_of(ws[k]));
        lemma_be_round_trip(ws[k]);
    }
    assert(d =~= ws);
}

} // verus!
