//! Bit field tests.  Position 0 addresses the high-order bit of the
//! byte — piece 0 — and position 7 the low-order bit.

use torrent_core::util::{BitField, BitFieldIterator};

#[test]
fn bitfield_get() {
    let bitfield = BitField::new(0b0100_1001);
    assert_eq!(bitfield.get_bit(7), true);
    assert_eq!(bitfield.get_bit(6), false);
    assert_eq!(bitfield.get_bit(5), false);
    assert_eq!(bitfield.get_bit(4), true);
    assert_eq!(bitfield.get_bit(3), false);
    assert_eq!(bitfield.get_bit(2), false);
    assert_eq!(bitfield.get_bit(1), true);
    assert_eq!(bitfield.get_bit(0), false);
}

#[test]
fn bitfield_set() {
    let mut bitfield = BitField::new(0b0100_1001);
    bitfield.set_bit(7, true);
    bitfield.set_bit(6, false);
    assert_eq!(bitfield.get_bit(7), true);
    assert_eq!(bitfield.get_bit(6), false);
    assert_eq!(bitfield.get_bit(5), false);
    assert_eq!(bitfield.get_bit(4), true);
    assert_eq!(bitfield.get_bit(3), false);
    assert_eq!(bitfield.get_bit(2), false);
    assert_eq!(bitfield.get_bit(1), true);
    assert_eq!(bitfield.get_bit(0), false);
}

#[test]
fn bitfield_iterator() {
    let mut iterator: BitFieldIterator = BitField::new(0b0100_1001).into();
    assert_eq!(iterator.next().unwrap(), false);
    assert_eq!(iterator.next().unwrap(), true);
    assert_eq!(iterator.next().unwrap(), false);
    assert_eq!(iterator.next().unwrap(), false);
    assert_eq!(iterator.next().unwrap(), true);
    assert_eq!(iterator.next().unwrap(), false);
    assert_eq!(iterator.next().unwrap(), false);
    assert_eq!(iterator.next().unwrap(), true);
    assert_eq!(iterator.next(), None);
}

#[test]
fn bitfield_position_zero_is_the_high_bit() {
    // Setting position 0 sets bit 7 of the packed byte: piece 0 is the
    // high-order bit.
    let mut bitfield = BitField::new(0);
    bitfield.set_bit(0, true);
    assert_eq!(bitfield.get_value(), 0x80);
    bitfield.set_bit(7, true);
    assert_eq!(bitfield.get_value(), 0x81);
    bitfield.set_bit(0, false);
    assert_eq!(bitfield.get_value(), 0x01);
}

#[test]
fn bitfield_value_round_trip() {
    let bitfield = BitField::new(0xa5);
    assert_eq!(bitfield.get_value(), 0xa5);
}
