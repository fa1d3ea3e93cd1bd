//! Fixed-width big-endian integers held as raw bytes.

use vstd::arithmetic::div_mod::lemma_fundamental_div_mod_converse;
use vstd::prelude::*;

verus! {

/// Value of two bytes read in network order.
pub open spec fn be16(hi: u8, lo: u8) -> int {
    hi as int * 0x100 + lo as int
}

/// Value of four bytes read in network order.
pub open spec fn be32(b: Seq<u8>) -> int
    recommends
        b.len() == 4,
{
    b[0] as int * 0x100_0000 + b[1] as int * 0x1_0000 + b[2] as int * 0x100 + b[3] as int
}

/// Value of eight bytes read in network order.
pub open spec fn be64(b: Seq<u8>) -> int
    recommends
        b.len() == 8,
{
    be32(b.subrange(0, 4)) * 0x1_0000_0000 + be32(b.subrange(4, 8))
}

/// The two bytes that carry `v` in network order.
pub open spec fn u16_bytes(v: u16) -> Seq<u8> {
    seq![(v / 0x100) as u8, (v % 0x100) as u8]
}

/// The four bytes that carry `v` in network order.
pub open spec fn u32_bytes(v: u32) -> Seq<u8> {
    seq![(v / 0x100_0000) as u8, ((v / 0x1_0000) % 0x100) as u8, ((v / 0x100) % 0x100) as u8, (v % 0x100) as u8]
}

/// Reading four bytes as a number and writing that number back gives the same bytes.
pub proof fn lemma_u32_bytes_of_be32(b: Seq<u8>)
    requires
        b.len() == 4,
    ensures
        0 <= be32(b) <= u32::MAX,
        u32_bytes(be32(b) as u32) =~= b,
{
    let (b0, b1, b2, b3) = (b[0] as int, b[1] as int, b[2] as int, b[3] as int);
    let v = be32(b);
    lemma_fundamental_div_mod_converse(v, 0x100_0000, b0, b1 * 0x1_0000 + b2 * 0x100 + b3);
    lemma_fundamental_div_mod_converse(v, 0x1_0000, b0 * 0x100 + b1, b2 * 0x100 + b3);
    lemma_fundamental_div_mod_converse(b0 * 0x100 + b1, 0x100, b0, b1);
    lemma_fundamental_div_mod_converse(v, 0x100, b0 * 0x1_0000 + b1 * 0x100 + b2, b3);
    lemma_fundamental_div_mod_converse(b0 * 0x1_0000 + b1 * 0x100 + b2, 0x100, b0 * 0x100 + b1, b2);
}

/// Writing a number as two bytes and reading them back gives the same number.
pub proof fn lemma_be16_of_u16_bytes(v: u16)
    ensures
        be16(u16_bytes(v)[0], u16_bytes(v)[1]) == v,
{
}

/// A 16-bit integer stored in network byte order.
pub struct U16be {
    pub bytes: [u8; 2],
}

impl U16be {
    /// Reads the two bytes at `off`.
    pub fn at(buf: &[u8], off: usize) -> (r: U16be)
        requires
            off + 2 <= buf@.len(),
        ensures
            r.bytes@ == buf@.subrange(off as int, off + 2),
    {
        let r = U16be { bytes: [buf[off], buf[off + 1]] };
        assert(r.bytes@ =~= buf@.subrange(off as int, off + 2));
        r
    }

    pub fn get(&self) -> (r: u16)
        ensures
            r == be16(self.bytes@[0], self.bytes@[1]),
    {
        self.bytes[0] as u16 * 0x100 + self.bytes[1] as u16
    }

    pub fn put(&mut self, value: u16)
        ensures
            final(self).bytes@ == u16_bytes(value),
            be16(final(self).bytes@[0], final(self).bytes@[1]) == value,
    {
        self.bytes = [(value / 0x100) as u8, (value % 0x100) as u8];
        assert(self.bytes@ =~= u16_bytes(value));
    }
}

/// A 32-bit integer stored in network byte order.
pub struct U32be {
    pub bytes: [u8; 4],
}

impl U32be {
    /// Reads the four bytes at `off`.
    pub fn at(buf: &[u8], off: usize) -> (r: U32be)
        requires
            off + 4 <= buf@.len(),
        ensures
            r.bytes@ == buf@.subrange(off as int, off + 4),
    {
        let r = U32be { bytes: [buf[off], buf[off + 1], buf[off + 2], buf[off + 3]] };
        assert(r.bytes@ =~= buf@.subrange(off as int, off + 4));
        r
    }

    pub fn _get(&self) -> (r: u32)
        ensures
            r == be32(self.bytes@),
    {
        self.bytes[0] as u32 * 0x100_0000 + self.bytes[1] as u32 * 0x1_0000
            + self.bytes[2] as u32 * 0x100 + self.bytes[3] as u32
    }

    pub fn put(&mut self, value: u32)
        ensures
            final(self).bytes@ == u32_bytes(value),
            be32(final(self).bytes@) == value,
    {
        self.bytes = [
            (value / 0x100_0000) as u8,
            ((value / 0x1_0000) % 0x100) as u8,
            ((value / 0x100) % 0x100) as u8,
            (value % 0x100) as u8,
        ];
        assert(self.bytes@ =~= u32_bytes(value));
    }
}

/// A 64-bit integer stored in network byte order.
pub struct U64be {
    pub bytes: [u8; 8],
}

impl U64be {
    /// Reads the eight bytes at `off`.
    pub fn at(buf: &[u8], off: usize) -> (r: U64be)
        requires
            off + 8 <= buf@.len(),
        ensures
            r.bytes@ == buf@.subrange(off as int, off + 8),
    {
        let r = U64be {
            bytes: [
                buf[off],
                buf[off + 1],
                buf[off + 2],
                buf[off + 3],
                buf[off + 4],
                buf[off + 5],
                buf[off + 6],
                buf[off + 7],
            ],
        };
        assert(r.bytes@ =~= buf@.subrange(off as int, off + 8));
        r
    }

    pub fn get(&self) -> (r: u64)
        ensures
            r == be64(self.bytes@),
    {
        let hi = self.bytes[0] as u64 * 0x100_0000 + self.bytes[1] as u64 * 0x1_0000
            + self.bytes[2] as u64 * 0x100 + self.bytes[3] as u64;
        let lo = self.bytes[4] as u64 * 0x100_0000 + self.bytes[5] as u64 * 0x1_0000
            + self.bytes[6] as u64 * 0x100 + self.bytes[7] as u64;
        assert(hi == be32(self.bytes@.subrange(0, 4)));
        assert(lo == be32(self.bytes@.subrange(4, 8)));
        hi * 0x1_0000_0000 + lo
    }
}

} // verus!
