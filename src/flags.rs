//! The two flag bytes of a DNS header.
//!
//! Byte 0 holds `QR | OPCODE(4) | AA | TC | RD`, byte 1 holds `RA | Z(3) | RCODE(4)`,
//! most significant bit first.

use vstd::prelude::*;

verus! {

pub const NOERROR: u8 = 0;

pub const FORMERR: u8 = 1;

pub const NXDOMAIN: u8 = 3;

pub const NOTIMP: u8 = 4;

pub const REFUSED: u8 = 5;

/// The operation code carried in byte 0.
pub open spec fn opcode_of(b0: u8) -> u8 {
    (b0 >> 3u8) & 0x0F
}

/// The response code carried in byte 1.
pub open spec fn rcode_of(b1: u8) -> u8 {
    b1 & 0x0F
}

/// Whether byte 0 marks a response.
pub open spec fn qr_of(b0: u8) -> bool {
    b0 & 0x80 != 0
}

/// Whether byte 0 marks an authoritative answer.
pub open spec fn aa_of(b0: u8) -> bool {
    b0 & 0x04 != 0
}

/// Whether byte 1 announces recursion.
pub open spec fn ra_of(b1: u8) -> bool {
    b1 & 0x80 != 0
}

/// Byte 0 with its response bit set to `r`.
pub open spec fn with_response(b0: u8, r: bool) -> u8 {
    if r {
        b0 | 0x80
    } else {
        b0 & 0x7F
    }
}

/// Byte 0 with its authoritative-answer bit set to `a`.
pub open spec fn with_auth(b0: u8, a: bool) -> u8 {
    if a {
        b0 | 0x04
    } else {
        b0 & 0xFB
    }
}

/// Byte 1 with its recursion-available bit set to `r`.
pub open spec fn with_recurse(b1: u8, r: bool) -> u8 {
    if r {
        b1 | 0x80
    } else {
        b1 & 0x7F
    }
}

/// Byte 1 with its low four bits replaced by those of `rcode`.
pub open spec fn with_rcode(b1: u8, rcode: u8) -> u8 {
    (b1 & 0xF0) | (rcode & 0x0F)
}

/// Each setter changes the bit it owns and no other that is read back.
pub proof fn lemma_flag_bits(b: u8, rcode: u8)
    by (bit_vector)
    ensures
        (b | 0x80) & 0x80 != 0,
        (b & 0x7F) & 0x80 == 0,
        ((b | 0x80) & 0x04 != 0) == (b & 0x04 != 0),
        ((b & 0x7F) & 0x04 != 0) == (b & 0x04 != 0),
        ((b | 0x04) & 0x80 != 0) == (b & 0x80 != 0),
        ((b & 0xFB) & 0x80 != 0) == (b & 0x80 != 0),
        (b | 0x04) & 0x04 != 0,
        (b & 0xFB) & 0x04 == 0,
        (((b & 0xF0) | (rcode & 0x0F)) & 0x80 != 0) == (b & 0x80 != 0),
        ((b & 0xF0) | (rcode & 0x0F)) & 0x0F == rcode & 0x0F,
        ((b | 0x80) >> 3u8) & 0x0F == (b >> 3u8) & 0x0F,
        ((b & 0x7F) >> 3u8) & 0x0F == (b >> 3u8) & 0x0F,
        ((b | 0x04) >> 3u8) & 0x0F == (b >> 3u8) & 0x0F,
        ((b & 0xFB) >> 3u8) & 0x0F == (b >> 3u8) & 0x0F,
        rcode < 16 ==> rcode & 0x0F == rcode,
{
}

/// The flag bytes of a header.
pub struct Flags {
    pub bytes: [u8; 2],
}

impl Flags {
    /// Replaces the response code with the low four bits of `rcode`.
    pub fn set_rcode(&mut self, rcode: u8)
        ensures
            final(self).bytes@[0] == old(self).bytes@[0],
            final(self).bytes@[1] == with_rcode(old(self).bytes@[1], rcode),
    {
        self.bytes[1] = (self.bytes[1] & 0xF0) | (rcode & 0x0F);
    }

    /// Marks the message as a response (`true`) or a query.
    pub fn set_response(&mut self, r: bool)
        ensures
            final(self).bytes@[0] == with_response(old(self).bytes@[0], r),
            final(self).bytes@[1] == old(self).bytes@[1],
    {
        if r {
            self.bytes[0] = self.bytes[0] | 0x80;
        } else {
            self.bytes[0] = self.bytes[0] & 0x7F;
        }
    }

    /// Sets or clears the authoritative-answer bit.
    pub fn set_auth(&mut self, a: bool)
        ensures
            final(self).bytes@[0] == with_auth(old(self).bytes@[0], a),
            final(self).bytes@[1] == old(self).bytes@[1],
    {
        if a {
            self.bytes[0] = self.bytes[0] | 0x04;
        } else {
            self.bytes[0] = self.bytes[0] & 0xFB;
        }
    }

    /// Sets or clears the recursion-available bit.
    pub fn set_recurse(&mut self, r: bool)
        ensures
            final(self).bytes@[0] == old(self).bytes@[0],
            final(self).bytes@[1] == with_recurse(old(self).bytes@[1], r),
    {
        if r {
            self.bytes[1] = self.bytes[1] | 0x80;
        } else {
            self.bytes[1] = self.bytes[1] & 0x7F;
        }
    }

    /// The operation code: bits 3 to 6 of byte 0.
    pub fn get_opcode(&self) -> (r: u8)
        ensures
            r == opcode_of(self.bytes@[0]),
    {
        (self.bytes[0] >> 3u8) & 0x0F
    }
}

} // verus!
