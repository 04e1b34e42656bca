//! A packed byte of booleans, addressable bit by bit, as peers use it to
//! announce which pieces they hold.  Positions count from the high-order
//! end: position 0 is bit 7 of the byte, the first piece; position 7 is
//! bit 0, the last.

use vstd::prelude::*;

verus! {

/// A 20-byte SHA-1 fingerprint.
pub type Sha1 = [u8; 20];

/// Whether the bit at `p` of `v` is set, counting from the high-order
/// end: position 0 is bit 7 of the byte.
pub open spec fn bit_at(v: u8, p: u8) -> bool {
    v & (1u8 << ((7 - p) as u8)) != 0
}

/// One byte treated as eight booleans, position 0 the high-order bit.
#[derive(Debug, Default, Clone, PartialEq, Eq)]
pub struct BitField {
    value: u8,
}

impl BitField {
    /// The packed byte, for contracts.
    pub closed spec fn spec_value(&self) -> u8 {
        self.value
    }

    /// A bit field over the given byte.
    pub fn new(value: u8) -> (r: Self)
        ensures
            r.spec_value() == value,
    {
        BitField { value }
    }

    /// The bit at `position`, which must lie below eight; position 0 is
    /// the high-order bit of the byte.
    pub fn get_bit(&self, position: u8) -> (r: bool)
        requires
            position < 8,
        ensures
            r == bit_at(self.spec_value(), position),
    {
        (self.value & (1u8 << (7 - position))) != 0
    }

    /// Set or clear the bit at `position`, which must lie below eight;
    /// every other bit keeps its value.
    pub fn set_bit(&mut self, position: u8, bit_value: bool)
        requires
            position < 8,
        ensures
            bit_at(final(self).spec_value(), position) == bit_value,
            forall|q: u8| q < 8 && q != position ==> bit_at(final(self).spec_value(), q) == bit_at(
                old(self).spec_value(),
                q,
            ),
    {
        let ghost v0 = self.value;
        let ghost p = position;
        let shift: u8 = 7 - position;
        if bit_value {
            self.value = self.value | (1u8 << shift);
            proof {
                assert((v0 | (1u8 << shift)) & (1u8 << shift) != 0) by (bit_vector)
                    requires
                        shift < 8,
                ;
                assert forall|q: u8| q < 8 && q != p implies bit_at(v0 | (1u8 << shift), q)
                    == bit_at(v0, q) by {
                    let s = (7 - q) as u8;
                    assert((v0 | (1u8 << shift)) & (1u8 << s) == v0 & (1u8 << s)) by (bit_vector)
                        requires
                            shift < 8,
                            s < 8,
                            shift != s,
                    ;
                }
            }
        } else {
            self.value = self.value & !(1u8 << shift);
            proof {
                assert((v0 & !(1u8 << shift)) & (1u8 << shift) == 0) by (bit_vector)
                    requires
                        shift < 8,
                ;
                assert forall|q: u8| q < 8 && q != p implies bit_at(v0 & !(1u8 << shift), q)
                    == bit_at(v0, q) by {
                    let s = (7 - q) as u8;
                    assert((v0 & !(1u8 << shift)) & (1u8 << s) == v0 & (1u8 << s)) by (bit_vector)
                        requires
                            shift < 8,
                            s < 8,
                            shift != s,
                    ;
                }
            }
        }
    }

    /// The packed byte.
    pub fn get_value(&self) -> (r: u8)
        ensures
            r == self.spec_value(),
    {
        self.value
    }
}

/// Walks the bits of a [`BitField`] in piece order: position 0 (the
/// high-order bit) first, position 7 (the low-order bit) last.
pub struct BitFieldIterator {
    bit_field: BitField,
    position: u8,
}

impl BitFieldIterator {
    /// The position of the next bit to yield.
    pub closed spec fn spec_position(&self) -> u8 {
        self.position
    }

    /// The byte being walked.
    pub closed spec fn spec_value(&self) -> u8 {
        self.bit_field.value
    }

    /// The next bit, from the high-order end down, or nothing once all
    /// eight bits have been yielded.
    pub fn next(&mut self) -> (r: Option<bool>)
        ensures
            old(self).spec_position() >= 8 ==> r is None && *final(self) == *old(self),
            old(self).spec_position() < 8 ==> r == Some(
                bit_at(old(self).spec_value(), old(self).spec_position()),
            ) && final(self).spec_position() == old(self).spec_position() + 1
                && final(self).spec_value() == old(self).spec_value(),
    {
        if self.position >= 8 {
            return None;
        }
        let value = self.bit_field.get_bit(self.position);
        self.position = self.position + 1;
        Some(value)
    }
}

impl From<BitField> for BitFieldIterator {
    /// An iterator standing at position 0 of `value`.
    fn from(value: BitField) -> (r: Self) {
        BitFieldIterator { bit_field: value, position: 0 }
    }
}

impl vstd::std_specs::convert::FromSpecImpl<BitField> for BitFieldIterator {
    closed spec fn obeys_from_spec() -> bool {
        true
    }

    closed spec fn from_spec(value: BitField) -> Self {
        BitFieldIterator { bit_field: value, position: 0 }
    }
}

} // verus!
