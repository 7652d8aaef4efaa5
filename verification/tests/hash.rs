//! Identifier arithmetic: XOR and the common-prefix metric.

use kdht::NodeId;
use kdht::bt_dht::BtDhtHash;

#[test]
pub fn test_hash_xor() {
    assert_eq!(
        BtDhtHash::from([0x00u8; 20]),
        BtDhtHash::from([0x00u8; 20]).bitxor(BtDhtHash::from([0x00u8; 20]))
    );

    assert_eq!(
        BtDhtHash::from([0xFFu8; 20]),
        BtDhtHash::from([0xFFu8; 20]).bitxor(BtDhtHash::from([0x00u8; 20]))
    );

    assert_eq!(
        BtDhtHash::from([0xFFu8; 20]),
        BtDhtHash::from([0x00u8; 20]).bitxor(BtDhtHash::from([0xFFu8; 20]))
    );

    assert_eq!(
        BtDhtHash::from([0x00u8; 20]),
        BtDhtHash::from([0xFFu8; 20]).bitxor(BtDhtHash::from([0xFFu8; 20]))
    );

    assert_eq!(
        BtDhtHash::from([0x55u8; 20]),
        BtDhtHash::from([0x00u8; 20]).bitxor(BtDhtHash::from([0x55u8; 20]))
    );

    assert_eq!(
        BtDhtHash::from([0xAAu8; 20]),
        BtDhtHash::from([0xFFu8; 20]).bitxor(BtDhtHash::from([0x55u8; 20]))
    );

    assert_eq!(
        BtDhtHash::from([0xFFu8; 20]),
        BtDhtHash::from([0xAAu8; 20]).bitxor(BtDhtHash::from([0x55u8; 20]))
    );
}

#[test]
fn test_hash_xor_assoc() {
    let a = BtDhtHash::from([0x12u8; 20]);
    let b = BtDhtHash::from([0xA5u8; 20]);
    let c = BtDhtHash::from([0x3Cu8; 20]);
    assert_eq!(a.bitxor(b).bitxor(c), a.bitxor(b.bitxor(c)));
    assert_eq!(a.bitxor(b), b.bitxor(a));
}

#[test]
pub fn test_hash_beq() {
    assert_eq!(
        0,
        BtDhtHash::from([0xFFu8; 20]).equal_bits(&BtDhtHash::from([0x00u8; 20]))
    );

    assert_eq!(
        0,
        BtDhtHash::from([0x00u8; 20]).equal_bits(&BtDhtHash::from([0xFFu8; 20]))
    );

    assert_eq!(
        0,
        BtDhtHash::from([0xAAu8; 20]).equal_bits(&BtDhtHash::from([0x55u8; 20]))
    );

    assert_eq!(
        1,
        BtDhtHash::from([0x00u8; 20]).equal_bits(&BtDhtHash::from([0x55u8; 20]))
    );

    assert_eq!(
        1,
        BtDhtHash::from([0xFFu8; 20]).equal_bits(&BtDhtHash::from([0xAAu8; 20]))
    );

    assert_eq!(
        160,
        BtDhtHash::from([0x00u8; 20]).equal_bits(&BtDhtHash::from([0x00u8; 20]))
    );

    assert_eq!(
        160,
        BtDhtHash::from([0xFFu8; 20]).equal_bits(&BtDhtHash::from([0xFFu8; 20]))
    );

    assert_eq!(
        160,
        BtDhtHash::from([0x55u8; 20]).equal_bits(&BtDhtHash::from([0x55u8; 20]))
    );

    assert_eq!(
        160,
        BtDhtHash::from([0xAAu8; 20]).equal_bits(&BtDhtHash::from([0xAAu8; 20]))
    );

    assert_eq!(
        21,
        BtDhtHash::from([
            0x01, 0x23, 0x45, 0x67, 0x78, 0x90, 0xab, 0xcd, 0xef, 0x00, 0x00, 0x00, 0x00, 0x00,
            0x00, 0x00, 0x00, 0x00, 0x00, 0x00
        ])
        .equal_bits(&BtDhtHash::from([
            0x01, 0x23, 0x41, 0x67, 0x78, 0x90, 0xab, 0xef, 0xcd, 0x00, 0x00, 0x00, 0x00, 0x00,
            0x00, 0x00, 0x00, 0x00, 0x00, 0x00
        ]))
    );

    assert_eq!(
        75,
        BtDhtHash::from([
            0x01, 0x23, 0x45, 0x67, 0x78, 0x90, 0xab, 0xcd, 0xef, 0xa5, 0x00, 0x00, 0x00, 0x00,
            0x00, 0x00, 0x00, 0x00, 0x00, 0x00
        ])
        .equal_bits(&BtDhtHash::from([
            0x01, 0x23, 0x45, 0x67, 0x78, 0x90, 0xab, 0xcd, 0xef, 0xb5, 0x00, 0x00, 0x00, 0x00,
            0x00, 0x00, 0x00, 0x00, 0x00, 0x00
        ]))
    );
}

#[test]
fn test_hash_serialize_helpers() {
    let hash = *b"0123456789abcdefghij";
    let ser = kdht::bt_dht::serialize(&hash);
    assert_eq!(ser, b"20:0123456789abcdefghij".to_vec());
    let mut buf = vec![1u8, 2];
    kdht::bt_dht::to_bytes(&mut buf, &hash);
    assert_eq!(buf.len(), 22);
    assert_eq!(&buf[2..], &hash[..]);
    assert_eq!(kdht::bt_dht::from_bytes(&hash), Ok(hash));
    assert_eq!(kdht::bt_dht::from_bytes(&hash[..19]), Err(()));
}
