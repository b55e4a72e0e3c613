use micrograd::persist::{decode_weights, encode_weights, PersistenceError};

#[test]
fn encode_writes_big_endian_records() {
    let bytes = encode_weights(&vec![1u64, 0x0102030405060708]);
    assert_eq!(bytes, vec![0, 0, 0, 0, 0, 0, 0, 1, 1, 2, 3, 4, 5, 6, 7, 8]);
}

#[test]
fn encode_of_a_double_is_its_ieee_bits() {
    let bytes = encode_weights(&vec![1.5f64.to_bits()]);
    assert_eq!(bytes, vec![0x3f, 0xf8, 0, 0, 0, 0, 0, 0]);
}

#[test]
fn save_load_round_trip_keeps_order() {
    let ws: Vec<u64> = vec![(-0.25f64).to_bits(), 3.0f64.to_bits(), 7, u64::MAX];
    let bytes = encode_weights(&ws);
    assert_eq!(bytes.len(), 32);
    assert_eq!(decode_weights(&bytes, 4), Ok(ws));
}

#[test]
fn load_rejects_count_mismatch() {
    let bytes = encode_weights(&vec![1, 2, 3]);
    assert_eq!(
        decode_weights(&bytes, 2),
        Err(PersistenceError::CountMismatch { expected: 2, found: 3, trailing: 0 })
    );
}

#[test]
fn load_rejects_partial_record() {
    let mut bytes = encode_weights(&vec![1, 2]);
    bytes.push(9);
    assert_eq!(
        decode_weights(&bytes, 2),
        Err(PersistenceError::CountMismatch { expected: 2, found: 2, trailing: 1 })
    );
}

#[test]
fn load_of_nothing_is_empty() {
    assert_eq!(decode_weights(&Vec::new(), 0), Ok(Vec::new()));
}
