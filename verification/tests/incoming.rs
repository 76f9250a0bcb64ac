use mtdynamic::incoming::{Incoming, SIZE};

#[test]
fn message_bytes_are_little_endian_fields_in_order() {
    let m = Incoming { max: 8, uid: 0x0102_0304, val_bits: 1.5f32.to_bits() };
    let b = m.to_bytes();
    assert_eq!(b.len(), SIZE);
    assert_eq!(&b[0..4], &[8, 0, 0, 0]);
    assert_eq!(&b[4..8], &[4, 3, 2, 1]);
    assert_eq!(&b[8..12], &1.5f32.to_bits().to_le_bytes());
}

#[test]
fn message_round_trip() {
    let m = Incoming { max: -1, uid: i32::MIN, val_bits: (-0.25f32).to_bits() };
    let back = Incoming::from_bytes(m.to_bytes());
    assert_eq!(back, m);
    assert_eq!(f32::from_bits(back.val_bits), -0.25);
}

#[test]
fn message_from_known_bytes() {
    let b: [u8; 12] = [16, 0, 0, 0, 7, 0, 0, 0, 0, 0, 128, 63];
    let m = Incoming::from_bytes(b);
    assert_eq!(m.max, 16);
    assert_eq!(m.uid, 7);
    assert_eq!(f32::from_bits(m.val_bits), 1.0);
    let neg: [u8; 12] = [255, 255, 255, 255, 0, 0, 0, 128, 0, 0, 0, 0];
    let n = Incoming::from_bytes(neg);
    assert_eq!(n.max, -1);
    assert_eq!(n.uid, i32::MIN);
}

#[test]
fn message_from_array_matches_from_bytes() {
    let b: [u8; 12] = [3, 0, 0, 0, 9, 1, 0, 0, 0, 0, 0, 64];
    let m = Incoming::from(b);
    assert_eq!(m, Incoming::from_bytes(b));
    assert_eq!(m.max, 3);
    assert_eq!(m.uid, 265);
    assert_eq!(f32::from_bits(m.val_bits), 2.0);
}
