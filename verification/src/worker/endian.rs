//! The byte order of the machine.

use vstd::prelude::*;

verus! {

/// The byte order of the machine; only [`ByteOrder::native`] makes one.
#[derive(Debug, Clone, Copy)]
pub struct ByteOrder {
    /// The number whose memory holds the bytes 0 and 1.
    sample: u16,
}

impl ByteOrder {
    /// Whether the most significant byte comes first.
    pub closed spec fn big(self) -> bool {
        self.sample == 1
    }

    /// Samples the byte order with `u16::from_ne_bytes`.
    ///
    /// Which of the two orders it is depends on the machine and is left unsaid.
    #[verifier::external_body]
    pub(crate) fn native() -> (r: Self) {
        ByteOrder { sample: u16::from_ne_bytes([0, 1]) }
    }

    /// Reads the number in two bytes.
    pub fn read_u16(&self, bytes: &[u8], at: usize) -> (r: u16)
        requires
            at + 2 <= bytes@.len(),
        ensures
            r == u16_at(bytes@, at as int, self.big()),
    {
        let (a, b): (u16, u16) = (bytes[at] as u16, bytes[at + 1] as u16);
        if self.sample == 1 {
            a * 256 + b
        } else {
            b * 256 + a
        }
    }

    /// Reads the number in four bytes.
    pub fn read_u32(&self, bytes: &[u8], at: usize) -> (r: u32)
        requires
            at + 4 <= bytes@.len(),
        ensures
            r == u32_at(bytes@, at as int, self.big()),
    {
        assert(bytes.len() == bytes@.len());
        let (a, b): (u32, u32) = (self.read_u16(bytes, at) as u32, self.read_u16(bytes, at + 2) as u32);
        if self.sample == 1 {
            a * 65536 + b
        } else {
            b * 65536 + a
        }
    }
}

/// The number in two bytes, in big-endian or little-endian order.
pub open spec fn u16_at(bytes: Seq<u8>, at: int, big: bool) -> int {
    if big {
        bytes[at] * 256 + bytes[at + 1]
    } else {
        bytes[at + 1] * 256 + bytes[at]
    }
}

/// The number in four bytes, in big-endian or little-endian order.
pub open spec fn u32_at(bytes: Seq<u8>, at: int, big: bool) -> int {
    if big {
        u16_at(bytes, at, big) * 65536 + u16_at(bytes, at + 2, big)
    } else {
        u16_at(bytes, at + 2, big) * 65536 + u16_at(bytes, at, big)
    }
}

/// The same four bytes read in the two orders: reversing the bytes is reading in the other order.
pub proof fn lemma_orders_are_reverse(bytes: Seq<u8>)
    requires
        bytes.len() == 4,
    ensures
        u32_at(bytes, 0, true) == u32_at(bytes.reverse(), 0, false),
        u16_at(bytes, 0, true) == bytes[0] * 256 + bytes[1],
        u32_at(bytes, 0, true) == bytes[0] * 16777216 + bytes[1] * 65536 + bytes[2] * 256 + bytes[3],
        u32_at(bytes, 0, false) == bytes[3] * 16777216 + bytes[2] * 65536 + bytes[1] * 256 + bytes[0],
        u16_at(bytes, 0, false) == bytes[1] * 256 + bytes[0],
{
}

} // verus!
