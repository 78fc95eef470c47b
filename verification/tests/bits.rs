use swarm_core::bits::Bitfield;

#[test]
fn new_bitfield_is_all_clear() {
    let bits = Bitfield::new(10);
    assert_eq!(bits.len(), 10);
    assert_eq!(bits.as_raw_slice(), &[0, 0]);
    assert!(!bits.all());
    assert_eq!(bits.ones(), Vec::<usize>::new());
    for i in 0..10 {
        assert_eq!(bits.get(i), Some(false));
    }
    assert_eq!(bits.get(10), None);
}

#[test]
fn bits_are_packed_from_the_top() {
    let mut bits = Bitfield::new(10);
    bits.set(0, true);
    assert_eq!(bits.as_raw_slice(), &[0x80, 0x00]);
    bits.set(7, true);
    assert_eq!(bits.as_raw_slice(), &[0x81, 0x00]);
    bits.set(9, true);
    assert_eq!(bits.as_raw_slice(), &[0x81, 0x40]);
    assert_eq!(bits.get(9), Some(true));
    assert_eq!(bits.get(8), Some(false));
    assert_eq!(bits.ones(), vec![0, 7, 9]);
    bits.set(7, false);
    assert_eq!(bits.as_raw_slice(), &[0x80, 0x40]);
    assert_eq!(bits.ones(), vec![0, 9]);
}

#[test]
fn all_looks_at_the_live_bits_only() {
    let mut bits = Bitfield::new(3);
    bits.set(0, true);
    bits.set(1, true);
    assert!(!bits.all());
    bits.set(2, true);
    assert!(bits.all());
    assert_eq!(bits.as_raw_slice(), &[0xE0]);
    assert!(Bitfield::new(0).all());
    assert_eq!(Bitfield::new(0).as_raw_slice(), &[] as &[u8]);
}

#[test]
fn from_bytes_spans_every_bit() {
    let bits = Bitfield::from_bytes(&[0b1010_0000, 0x01]);
    assert_eq!(bits.len(), 16);
    assert_eq!(bits.get(0), Some(true));
    assert_eq!(bits.get(1), Some(false));
    assert_eq!(bits.get(2), Some(true));
    assert_eq!(bits.get(15), Some(true));
    assert_eq!(bits.get(16), None);
    assert_eq!(bits.ones(), vec![0, 2, 15]);
    assert_eq!(bits.as_raw_slice(), &[0b1010_0000, 0x01]);
}

#[test]
fn fits_knows_the_limit() {
    assert!(Bitfield::fits(0));
    assert!(Bitfield::fits(1 << 20));
    assert!(Bitfield::fits(usize::MAX / 64 * 8));
    assert!(!Bitfield::fits(usize::MAX / 64 * 8 + 1));
    assert!(!Bitfield::fits(usize::MAX));
}
